//! A compact catalog of the library's API surface for discovery tools.
//!
//! Each [`ApiEntry`] names one item (function, struct, enum, trait or
//! constant) with a compact signature, a one-line description, the feature
//! that enables it and its module. The command-line tool renders the catalog,
//! or the entries of one feature or module, as JSON.

use vstd::prelude::*;

verus! {

/// A compact API entry describing one callable item.
#[derive(Debug, Clone, Copy)]
pub struct ApiEntry {
    /// Function or type name.
    pub name: &'static str,
    /// "function", "struct", "enum", "trait", "const".
    pub kind: &'static str,
    /// Rust signature (compact).
    pub signature: &'static str,
    /// One-line description.
    pub description: &'static str,
    /// Feature gate required (empty if always available).
    pub feature: &'static str,
    /// Module path.
    pub module: &'static str,
}

/// The texts of an entry: name, kind, signature, description, feature,
/// module.
pub open spec fn entry_text(e: ApiEntry) -> (Seq<char>, Seq<char>, Seq<char>, Seq<char>, Seq<char>, Seq<char>) {
    (e.name@, e.kind@, e.signature@, e.description@, e.feature@, e.module@)
}

/// The texts of a list of entries.
pub open spec fn entry_texts(v: Seq<ApiEntry>) -> Seq<(Seq<char>, Seq<char>, Seq<char>, Seq<char>, Seq<char>, Seq<char>)> {
    Seq::new(v.len(), |i: int| entry_text(v[i]))
}

/// The catalog, entry by entry.
pub open spec fn catalog() -> Seq<(Seq<char>, Seq<char>, Seq<char>, Seq<char>, Seq<char>, Seq<char>)> {
    seq![
        ("AccessController"@, "struct"@, "AccessController::new(k: usize, n: usize) -> Result<Self>"@, "Create a new access controller on Gr(k,n)"@, ""@, "controller"@),
        ("AccessController::register_capability"@, "function"@, "fn register_capability(&mut self, cap: Capability) -> Result<()>"@, "Register a new capability (Schubert condition)"@, ""@, "controller"@),
        ("AccessController::create_principal"@, "function"@, "fn create_principal(&mut self, id: &str) -> Result<PrincipalId>"@, "Create a new principal identity"@, ""@, "controller"@),
        ("AccessController::grant"@, "function"@, "fn grant(&mut self, principal: &PrincipalId, capability: &str) -> Result<()>"@, "Grant a capability to a principal"@, ""@, "controller"@),
        ("AccessController::revoke"@, "function"@, "fn revoke(&mut self, principal: &PrincipalId, capability: &str) -> Result<()>"@, "Revoke a capability from a principal"@, ""@, "controller"@),
        ("AccessController::check"@, "function"@, "fn check(&self, principal: &PrincipalId, required: &[&str]) -> Result<AccessDecision>"@, "Check if a principal satisfies a set of capabilities — returns quantitative decision"@, ""@, "controller"@),
        ("AccessController::check_batch"@, "function"@, "fn check_batch(&self, queries: &[(PrincipalId, Vec<&str>)]) -> Result<Vec<AccessDecision>>"@, "Batch-check multiple principals against capability sets (parallel feature)"@, "parallel"@, "controller"@),
        ("Capability"@, "struct"@, "Capability::new(id: &str, label: &str, partition: Vec<usize>, kind: CapabilityKind) -> Self"@, "A Schubert condition with a partition and kind"@, ""@, "capability"@),
        ("CapabilityKind"@, "enum"@, "ReadLike | WriteLike | AdminLike | Custom"@, "Semantic category of a capability affecting trust sensitivity"@, ""@, "capability"@),
        ("AccessDecision"@, "enum"@, "Granted { configurations: usize } | Impossible { conflicting: Vec<String> } | Denied | Underconstrained { dimension: usize }"@, "Quantitative access decision — not just allow/deny"@, ""@, "decision"@),
        ("ComputationPath"@, "enum"@, "LR | Localization | Tropical | Matroid"@, "Which Schubert calculus engine to use"@, ""@, "decision"@),
        ("AccessContext"@, "struct"@, "AccessContext { resource: Option<String>, time_budget_ms: Option<u64>, required_trust: f64 }"@, "Context-aware access check with resource scoping and trust requirements"@, ""@, "decision"@),
        ("compose"@, "function"@, "fn compose(acl: &AccessController, a: &PrincipalId, cap_a: &str, b: &PrincipalId, cap_b: &str) -> Result<CompositionResult>"@, "Operadic composition — check if two principals' capabilities are composable"@, ""@, "composition"@),
        ("analyze_stability"@, "function"@, "fn analyze_stability(acl: &AccessController, principal: &PrincipalId) -> Result<StabilityReport>"@, "Wall-crossing stability analysis — find trust breakpoints"@, ""@, "stability"@),
        ("AuditSink"@, "trait"@, "fn record(&self, record: &DecisionRecord) -> Result<()>"@, "Pluggable audit sink for recording access decisions"@, "std"@, "audit"@),
        ("MultiController"@, "struct"@, "MultiController::new() -> Self"@, "Manage multiple Grassmannian domains with cross-domain capability translation"@, ""@, "multi"@),
        ("MultiController::check_cross_domain"@, "function"@, "fn check_cross_domain(&self, principal: &PrincipalId, caps: &[&str], from: &DomainId, to: &DomainId) -> Result<AccessDecision>"@, "Check access across different Grassmannian domains"@, ""@, "multi"@),
        ("RateLimiter"@, "struct"@, "RateLimiter::new(refill_rate: f64, max_tokens: f64) -> Self"@, "Token-bucket rate limiter scaled by Schubert intersection numbers"@, ""@, "rate_limit"@),
        ("RouteTable"@, "struct"@, "RouteTable::new(k: usize, n: usize) -> Self"@, "Geometric routing table — find paths through Schubert conditions"@, ""@, "routing"@),
        ("CrdtState"@, "struct"@, "CrdtState::new() -> Self"@, "Eventually-consistent CRDT state for distributed grants"@, ""@, "crdt"@),
        ("AccessController::from_policy_toml"@, "function"@, "fn from_policy_toml(toml_str: &str) -> Result<Self>"@, "Load access controller configuration from a TOML policy file"@, "policy"@, "policy"@),
        ("AccessController::to_policy_toml"@, "function"@, "fn to_policy_toml(&self) -> Result<String>"@, "Serialize access controller to a TOML policy string"@, "policy"@, "policy"@),
        ("CapabilityIssuer"@, "struct"@, "CapabilityIssuer::generate() -> Self"@, "Generate Ed25519 key pair for issuing signed capability tokens"@, "crypto"@, "crypto"@),
        ("CapabilityVerifier"@, "struct"@, "CapabilityVerifier::new(public_key: PublicKey) -> Self"@, "Verify Ed25519-signed capability tokens"@, "crypto"@, "crypto"@),
        ("SurrealTrust"@, "struct"@, "SurrealTrust::new(value: RationalSurreal) -> Self"@, "Exact surreal trust level using Amari RationalSurreal arithmetic"@, "surreal"@, "surreal_trust"@),
        ("Certified"@, "struct"@, "Certified<T> — a value with a Karpal proof obligation"@, "Trust boundary: a value certified by formal verification"@, "karpal-verify"@, "verify"@),
        ("HolographicAccessControl"@, "struct"@, "HolographicAccessControl::new() -> Self"@, "Holographic memory access control via Minuet cosine similarity"@, "holographic"@, "holographic"@),
        ("WasmController"@, "struct"@, "WasmController::new(k: usize, n: usize) -> Result<Self>"@, "WebAssembly access controller with JS bindings"@, "wasm"@, "wasm"@),
        ("GRASSMANNIAN_PRESETS"@, "const"@, "[(2,4), (3,6), (4,8)]"@, "Common Grassmannian presets: (2,4) for standard RBAC, (3,6) for multi-tenant, (4,8) for enterprise"@, ""@, "controller"@),
    ]
}

fn entry(
    name: &'static str,
    kind: &'static str,
    signature: &'static str,
    description: &'static str,
    feature: &'static str,
    module: &'static str,
) -> (r: ApiEntry)
    ensures
        entry_text(r) == (name@, kind@, signature@, description@, feature@, module@),
{
    ApiEntry { name, kind, signature, description, feature, module }
}

/// The full API catalog.
pub fn build_catalog() -> (r: Vec<ApiEntry>)
    ensures
        entry_texts(r@) == catalog(),
{
    let mut out: Vec<ApiEntry> = Vec::new();
    out.push(entry("AccessController", "struct", "AccessController::new(k: usize, n: usize) -> Result<Self>", "Create a new access controller on Gr(k,n)", "", "controller"));
    out.push(entry("AccessController::register_capability", "function", "fn register_capability(&mut self, cap: Capability) -> Result<()>", "Register a new capability (Schubert condition)", "", "controller"));
    out.push(entry("AccessController::create_principal", "function", "fn create_principal(&mut self, id: &str) -> Result<PrincipalId>", "Create a new principal identity", "", "controller"));
    out.push(entry("AccessController::grant", "function", "fn grant(&mut self, principal: &PrincipalId, capability: &str) -> Result<()>", "Grant a capability to a principal", "", "controller"));
    out.push(entry("AccessController::revoke", "function", "fn revoke(&mut self, principal: &PrincipalId, capability: &str) -> Result<()>", "Revoke a capability from a principal", "", "controller"));
    out.push(entry("AccessController::check", "function", "fn check(&self, principal: &PrincipalId, required: &[&str]) -> Result<AccessDecision>", "Check if a principal satisfies a set of capabilities — returns quantitative decision", "", "controller"));
    out.push(entry("AccessController::check_batch", "function", "fn check_batch(&self, queries: &[(PrincipalId, Vec<&str>)]) -> Result<Vec<AccessDecision>>", "Batch-check multiple principals against capability sets (parallel feature)", "parallel", "controller"));
    out.push(entry("Capability", "struct", "Capability::new(id: &str, label: &str, partition: Vec<usize>, kind: CapabilityKind) -> Self", "A Schubert condition with a partition and kind", "", "capability"));
    out.push(entry("CapabilityKind", "enum", "ReadLike | WriteLike | AdminLike | Custom", "Semantic category of a capability affecting trust sensitivity", "", "capability"));
    out.push(entry("AccessDecision", "enum", "Granted { configurations: usize } | Impossible { conflicting: Vec<String> } | Denied | Underconstrained { dimension: usize }", "Quantitative access decision — not just allow/deny", "", "decision"));
    out.push(entry("ComputationPath", "enum", "LR | Localization | Tropical | Matroid", "Which Schubert calculus engine to use", "", "decision"));
    out.push(entry("AccessContext", "struct", "AccessContext { resource: Option<String>, time_budget_ms: Option<u64>, required_trust: f64 }", "Context-aware access check with resource scoping and trust requirements", "", "decision"));
    out.push(entry("compose", "function", "fn compose(acl: &AccessController, a: &PrincipalId, cap_a: &str, b: &PrincipalId, cap_b: &str) -> Result<CompositionResult>", "Operadic composition — check if two principals' capabilities are composable", "", "composition"));
    out.push(entry("analyze_stability", "function", "fn analyze_stability(acl: &AccessController, principal: &PrincipalId) -> Result<StabilityReport>", "Wall-crossing stability analysis — find trust breakpoints", "", "stability"));
    out.push(entry("AuditSink", "trait", "fn record(&self, record: &DecisionRecord) -> Result<()>", "Pluggable audit sink for recording access decisions", "std", "audit"));
    out.push(entry("MultiController", "struct", "MultiController::new() -> Self", "Manage multiple Grassmannian domains with cross-domain capability translation", "", "multi"));
    out.push(entry("MultiController::check_cross_domain", "function", "fn check_cross_domain(&self, principal: &PrincipalId, caps: &[&str], from: &DomainId, to: &DomainId) -> Result<AccessDecision>", "Check access across different Grassmannian domains", "", "multi"));
    out.push(entry("RateLimiter", "struct", "RateLimiter::new(refill_rate: f64, max_tokens: f64) -> Self", "Token-bucket rate limiter scaled by Schubert intersection numbers", "", "rate_limit"));
    out.push(entry("RouteTable", "struct", "RouteTable::new(k: usize, n: usize) -> Self", "Geometric routing table — find paths through Schubert conditions", "", "routing"));
    out.push(entry("CrdtState", "struct", "CrdtState::new() -> Self", "Eventually-consistent CRDT state for distributed grants", "", "crdt"));
    out.push(entry("AccessController::from_policy_toml", "function", "fn from_policy_toml(toml_str: &str) -> Result<Self>", "Load access controller configuration from a TOML policy file", "policy", "policy"));
    out.push(entry("AccessController::to_policy_toml", "function", "fn to_policy_toml(&self) -> Result<String>", "Serialize access controller to a TOML policy string", "policy", "policy"));
    out.push(entry("CapabilityIssuer", "struct", "CapabilityIssuer::generate() -> Self", "Generate Ed25519 key pair for issuing signed capability tokens", "crypto", "crypto"));
    out.push(entry("CapabilityVerifier", "struct", "CapabilityVerifier::new(public_key: PublicKey) -> Self", "Verify Ed25519-signed capability tokens", "crypto", "crypto"));
    out.push(entry("SurrealTrust", "struct", "SurrealTrust::new(value: RationalSurreal) -> Self", "Exact surreal trust level using Amari RationalSurreal arithmetic", "surreal", "surreal_trust"));
    out.push(entry("Certified", "struct", "Certified<T> — a value with a Karpal proof obligation", "Trust boundary: a value certified by formal verification", "karpal-verify", "verify"));
    out.push(entry("HolographicAccessControl", "struct", "HolographicAccessControl::new() -> Self", "Holographic memory access control via Minuet cosine similarity", "holographic", "holographic"));
    out.push(entry("WasmController", "struct", "WasmController::new(k: usize, n: usize) -> Result<Self>", "WebAssembly access controller with JS bindings", "wasm", "wasm"));
    out.push(entry("GRASSMANNIAN_PRESETS", "const", "[(2,4), (3,6), (4,8)]", "Common Grassmannian presets: (2,4) for standard RBAC, (3,6) for multi-tenant, (4,8) for enterprise", "", "controller"));
    assert(entry_texts(out@) =~= catalog());
    out
}

/// `t` occurs in `s` at position `i`.
pub open spec fn occurs_at(s: Seq<char>, t: Seq<char>, i: int) -> bool {
    &&& 0 <= i
    &&& i + t.len() <= s.len()
    &&& s.subrange(i, i + t.len()) == t
}

/// `t` occurs somewhere in `s` (the empty text occurs everywhere).
pub open spec fn contains_text(s: Seq<char>, t: Seq<char>) -> bool {
    exists|i: int| occurs_at(s, t, i)
}

/// Whether `t` occurs in `s`.
pub fn text_contains(s: &str, t: &str) -> (r: bool)
    ensures
        r == contains_text(s@, t@),
{
    let n = s.unicode_len();
    let m = t.unicode_len();
    if m > n {
        proof {
            assert forall|i: int| !occurs_at(s@, t@, i) by {}
        }
        return false;
    }
    if m == 0 {
        assert(s@.subrange(0, 0) =~= t@);
        assert(occurs_at(s@, t@, 0));
        return true;
    }
    let mut i: usize = 0;
    while i < n - m + 1
        invariant
            n == s@.len(),
            m == t@.len(),
            1 <= m <= n,
            i <= n - m + 1,
            forall|a: int| 0 <= a < i ==> !occurs_at(s@, t@, a),
        decreases n - m + 1 - i,
    {
        let mut j: usize = 0;
        let mut same = true;
        while j < m
            invariant
                n == s@.len(),
                m == t@.len(),
                1 <= m <= n,
                i < n - m + 1,
                j <= m,
                same ==> forall|b: int| 0 <= b < j ==> s@[i + b] == t@[b],
                !same ==> !occurs_at(s@, t@, i as int),
            decreases m - j,
        {
            if same && s.get_char(i + j) != t.get_char(j) {
                proof {
                    if occurs_at(s@, t@, i as int) {
                        assert(s@.subrange(i as int, i + m)[j as int] == s@[i + j]);
                    }
                }
                same = false;
            }
            j = j + 1;
        }
        if same {
            assert(s@.subrange(i as int, i + m) =~= t@);
            assert(occurs_at(s@, t@, i as int));
            return true;
        }
        i = i + 1;
    }
    proof {
        assert forall|a: int| !occurs_at(s@, t@, a) by {
            if occurs_at(s@, t@, a) {
                assert(a <= n - m);
            }
        }
    }
    false
}

/// The entry matches the filters: its feature contains the feature filter
/// and its module contains the module filter, each when given.
pub open spec fn entry_matches(e: (Seq<char>, Seq<char>, Seq<char>, Seq<char>, Seq<char>, Seq<char>), feature: Option<Seq<char>>, module: Option<Seq<char>>) -> bool {
    &&& (feature matches Some(f) ==> contains_text(e.4, f))
    &&& (module matches Some(m) ==> contains_text(e.5, m))
}

/// The entries that match the filters, in order.
pub open spec fn matching(v: Seq<(Seq<char>, Seq<char>, Seq<char>, Seq<char>, Seq<char>, Seq<char>)>, feature: Option<Seq<char>>, module: Option<Seq<char>>) -> Seq<(Seq<char>, Seq<char>, Seq<char>, Seq<char>, Seq<char>, Seq<char>)>
    decreases v.len(),
{
    if v.len() == 0 {
        Seq::empty()
    } else {
        let rest = matching(v.drop_last(), feature, module);
        if entry_matches(v.last(), feature, module) {
            rest.push(v.last())
        } else {
            rest
        }
    }
}

/// The view of an optional text.
pub open spec fn opt_view(o: Option<&str>) -> Option<Seq<char>> {
    match o {
        Some(s) => Some(s@),
        None => None,
    }
}

/// The catalog entries whose feature contains `feature` and whose module
/// contains `module`, each filter applying when given.
pub fn catalog_filtered(feature: Option<&str>, module: Option<&str>) -> (r: Vec<ApiEntry>)
    ensures
        entry_texts(r@) == matching(catalog(), opt_view(feature), opt_view(module)),
{
    let all = build_catalog();
    let mut out: Vec<ApiEntry> = Vec::new();
    let mut i: usize = 0;
    while i < all.len()
        invariant
            i <= all@.len(),
            entry_texts(all@) == catalog(),
            entry_texts(out@) == matching(entry_texts(all@).subrange(0, i as int), opt_view(feature), opt_view(module)),
        decreases all.len() - i,
    {
        let e = all[i];
        let feat_ok = match feature {
            Some(f) => text_contains(e.feature, f),
            None => true,
        };
        let mod_ok = match module {
            Some(m) => text_contains(e.module, m),
            None => true,
        };
        proof {
            let sub = entry_texts(all@).subrange(0, i + 1);
            assert(sub.drop_last() =~= entry_texts(all@).subrange(0, i as int));
            assert(sub.last() == entry_text(e));
        }
        if feat_ok && mod_ok {
            let ghost before = out@;
            out.push(e);
            assert(entry_texts(out@) =~= entry_texts(before).push(entry_text(e)));
        }
        i = i + 1;
    }
    assert(entry_texts(all@).subrange(0, i as int) =~= entry_texts(all@));
    out
}

} // verus!
