//! Constraint-based configuration recommender for Schubert access control.
//!
//! Given a set of requirements (number of roles and domains, audit, crypto,
//! trust model, …), recommends a Grassmannian, a computation path and the
//! feature flags to enable, with a rationale, a dependency line and example
//! code.

use vstd::prelude::*;
use crate::decision::str_views;
use crate::util::{decimal, decimal_string, owned, str_eq};
use crate::discover::{contains_text, text_contains};

verus! {

/// Input constraints for the recommender.
#[derive(Debug)]
pub struct AccessConstraints {
    /// Number of distinct user roles needed.
    pub num_roles: usize,
    /// Number of distinct security domains / tenants.
    pub num_domains: usize,
    /// Whether audit logging is required.
    pub audit_required: bool,
    /// Whether cryptographic capability tokens are needed.
    pub crypto_required: bool,
    /// Trust model: "discrete", "continuous", or "surreal".
    pub trust_model: String,
    /// Whether parallel batch operations are needed.
    pub parallel_required: bool,
    /// Whether formal verification is needed.
    pub verification_required: bool,
    /// Whether holographic memory integration is needed.
    pub holographic_required: bool,
    /// Whether policy-as-code (TOML) is desired.
    pub policy_required: bool,
    /// Whether WebAssembly deployment is needed.
    pub wasm_required: bool,
    /// Maximum expected concurrent principals.
    pub max_principals: usize,
    /// Whether cross-domain capability translation is needed.
    pub cross_domain: bool,
}

/// The number of roles assumed when none is given: 3.
pub fn default_num_roles() -> (r: usize)
    ensures
        r == 3,
{
    3
}

/// The trust model assumed when none is given: "discrete".
pub fn default_trust_model() -> (r: String)
    ensures
        r@ == "discrete"@,
{
    owned("discrete")
}

/// The number of concurrent principals assumed when none is given: 100.
pub fn default_max_principals() -> (r: usize)
    ensures
        r == 100,
{
    100
}

/// Output recommendation from the recommender.
#[derive(Debug)]
pub struct Recommendation {
    /// Recommended Grassmannian dimensions.
    pub grassmannian: (usize, usize),
    /// Policy space dimension k(n-k).
    pub policy_dimension: usize,
    /// Recommended computation path.
    pub computation_path: &'static str,
    /// Required Cargo feature flags.
    pub features: Vec<&'static str>,
    /// Description of why this was chosen.
    pub rationale: String,
    /// Example Cargo.toml dependency line.
    pub cargo_toml: String,
    /// Example Rust initialization code.
    pub example_code: String,
}

/// The Grassmannian for the constraints: Gr(4,8) at enterprise scale
/// (cross-domain, more than two domains, or more than eight roles and
/// domains together), Gr(3,6) for multi-tenant use (more than five, or more
/// than one domain), Gr(2,4) otherwise.
pub open spec fn grassmannian_for(c: AccessConstraints) -> (usize, usize) {
    let total = c.num_roles + c.num_domains;
    if c.cross_domain || c.num_domains > 2 || total > 8 {
        (4, 8)
    } else if total > 5 || c.num_domains > 1 {
        (3, 6)
    } else {
        (2, 4)
    }
}

/// The computation path for the constraints.
pub open spec fn path_for(c: AccessConstraints) -> Seq<char> {
    if c.verification_required {
        "LR (best for verified environments)"@
    } else if c.max_principals > 1000 {
        "Tropical (best for large-scale batch operations)"@
    } else if c.parallel_required {
        "Matroid (best for parallel evaluation)"@
    } else {
        "LR (default — balanced performance)"@
    }
}

/// `s` if the condition holds, nothing otherwise.
pub open spec fn when(cond: bool, s: Seq<Seq<char>>) -> Seq<Seq<char>> {
    if cond { s } else { Seq::empty() }
}

/// The text `s` if the condition holds, the empty text otherwise.
pub open spec fn text_when(cond: bool, s: Seq<char>) -> Seq<char> {
    if cond { s } else { Seq::empty() }
}

/// The feature flags for the constraints, in order: always "std", then
/// "crypto", "surreal", "parallel", "policy", "karpal-verify",
/// "holographic" and "wasm" as the constraints ask for them.
pub open spec fn features_for(c: AccessConstraints) -> Seq<Seq<char>> {
    seq!["std"@] + when(c.crypto_required, seq!["crypto"@]) + when(
        c.trust_model@ == "surreal"@,
        seq!["surreal"@],
    ) + when(c.parallel_required, seq!["parallel"@]) + when(c.policy_required, seq!["policy"@])
        + when(c.verification_required, seq!["karpal-verify"@]) + when(
        c.holographic_required,
        seq!["holographic"@],
    ) + when(c.wasm_required, seq!["wasm"@])
}

/// The items joined by the separator.
pub open spec fn joined(items: Seq<Seq<char>>, sep: Seq<char>) -> Seq<char>
    decreases items.len(),
{
    if items.len() == 0 {
        Seq::empty()
    } else if items.len() == 1 {
        items[0]
    } else {
        joined(items.drop_last(), sep) + sep + items.last()
    }
}

/// Each item in double quotes.
pub open spec fn quoted(items: Seq<Seq<char>>) -> Seq<Seq<char>> {
    Seq::new(items.len(), |i: int| "\""@ + items[i] + "\""@)
}

/// The dependency line for the features.
pub open spec fn cargo_line(features: Seq<Seq<char>>) -> Seq<char> {
    if features.len() == 0 {
        "schubert = \"0.1\""@
    } else {
        "schubert = { version = \"0.1\", features = ["@ + joined(quoted(features), ", "@) + "] }"@
    }
}

/// The rationale text for the constraints and choices.
pub open spec fn rationale_for(c: AccessConstraints, k: usize, n: usize, path: Seq<char>, features: Seq<Seq<char>>) -> Seq<char> {
    "Selected Gr("@ + decimal(k as nat) + ","@ + decimal(n as nat) + ") with dimension "@ + decimal(
        (k * (n - k)) as nat,
    ) + " for "@ + decimal(c.num_roles as nat) + " roles"@ + text_when(
        c.num_domains > 0,
        " across "@ + decimal(c.num_domains as nat) + " domains"@,
    ) + ". Computation path: "@ + path + "."@ + " Features: ["@ + joined(features, ", "@) + "]."@
        + text_when(c.crypto_required, " Cryptographic tokens enabled for proof-carrying capabilities."@)
        + text_when(c.trust_model@ == "surreal"@, " Surreal trust arithmetic for infinitesimal trust resolution."@)
}

/// The example code for Gr(k,n) and the features.
pub open spec fn example_for(k: usize, n: usize, features: Seq<Seq<char>>) -> Seq<char> {
    "use schubert::AccessController;\n\nfn main() -> Result<(), Box<dyn std::error::Error>> {\n    let mut acl = AccessController::new("@
        + decimal(k as nat) + ", "@ + decimal(n as nat) + ")?;\n"@ + text_when(
        features.contains("policy"@),
        "    // Load from TOML policy file\n"@
            + "    let acl = AccessController::from_policy_toml(\n        &std::fs::read_to_string(\"policy.toml\")?\n    )?;\n"@,
    ) + "    let alice = acl.create_principal(\"alice\")?;\n"@ + text_when(
        features.contains("crypto"@),
        "    // Issue a cryptographic capability token\n"@
            + "    let issuer = CapabilityIssuer::generate();\n"@
            + "    let token = issuer.issue(\"alice\", \"read\")?;\n"@,
    ) + "    acl.grant(&alice, \"read\")?;\n"@ + "    let decision = acl.check(&alice, &[\"read\"])?;\n"@
        + "    println!(\"{decision:?}\");\n"@ + "    Ok(())\n}\n"@
}

/// Generate a recommendation from constraints.
pub fn recommend(constraints: &AccessConstraints) -> (r: Recommendation)
    requires
        constraints.num_roles + constraints.num_domains <= usize::MAX,
    ensures
        r.grassmannian == grassmannian_for(*constraints),
        r.policy_dimension == r.grassmannian.0 * (r.grassmannian.1 - r.grassmannian.0),
        r.computation_path@ == path_for(*constraints),
        str_views(r.features@) == features_for(*constraints),
        r.rationale@ == rationale_for(
            *constraints,
            r.grassmannian.0,
            r.grassmannian.1,
            path_for(*constraints),
            features_for(*constraints),
        ),
        r.cargo_toml@ == cargo_line(features_for(*constraints)),
        r.example_code@ == example_for(r.grassmannian.0, r.grassmannian.1, features_for(*constraints)),
{
    let (k, n) = select_grassmannian(constraints);
    let path = select_computation_path(constraints);
    let features = select_features(constraints);
    assert(k <= 4 && n <= 8 && k < n);
    assert(k * (n - k) <= 32) by (nonlinear_arith)
        requires
            k <= 4,
            n <= 8,
            k < n,
    ;
    let policy_dimension = k * (n - k);
    let rationale = build_rationale(constraints, (k, n), path, &features);
    let cargo_toml = if features.len() == 0 {
        owned("schubert = \"0.1\"")
    } else {
        let mut s = String::from_str("schubert = { version = \"0.1\", features = [");
        let items = join_quoted(&features);
        s.append(items.as_str());
        s.append("] }");
        s
    };
    let example_code = build_example_code(k, n, &features);
    Recommendation {
        grassmannian: (k, n),
        policy_dimension,
        computation_path: path,
        features,
        rationale,
        cargo_toml,
        example_code,
    }
}

fn select_grassmannian(c: &AccessConstraints) -> (r: (usize, usize))
    requires
        c.num_roles + c.num_domains <= usize::MAX,
    ensures
        r == grassmannian_for(*c),
{
    let total_dim = c.num_roles + c.num_domains;
    if c.cross_domain || c.num_domains > 2 || total_dim > 8 {
        (4, 8)
    } else if total_dim > 5 || c.num_domains > 1 {
        (3, 6)
    } else {
        (2, 4)
    }
}

fn select_computation_path(c: &AccessConstraints) -> (r: &'static str)
    ensures
        r@ == path_for(*c),
{
    if c.verification_required {
        "LR (best for verified environments)"
    } else if c.max_principals > 1000 {
        "Tropical (best for large-scale batch operations)"
    } else if c.parallel_required {
        "Matroid (best for parallel evaluation)"
    } else {
        "LR (default — balanced performance)"
    }
}

fn select_features(c: &AccessConstraints) -> (r: Vec<&'static str>)
    ensures
        str_views(r@) == features_for(*c),
{
    let mut feats: Vec<&'static str> = Vec::new();
    feats.push("std");
    let ghost mut expect: Seq<Seq<char>> = seq!["std"@];
    assert(str_views(feats@) =~= expect);
    if c.crypto_required {
        feats.push("crypto");
    }
    proof {
        expect = expect + when(c.crypto_required, seq!["crypto"@]);
    }
    assert(str_views(feats@) =~= expect);
    let surreal = str_eq(c.trust_model.as_str(), "surreal");
    if surreal {
        feats.push("surreal");
    }
    proof {
        expect = expect + when(c.trust_model@ == "surreal"@, seq!["surreal"@]);
    }
    assert(str_views(feats@) =~= expect);
    if c.parallel_required {
        feats.push("parallel");
    }
    proof {
        expect = expect + when(c.parallel_required, seq!["parallel"@]);
    }
    assert(str_views(feats@) =~= expect);
    if c.policy_required {
        feats.push("policy");
    }
    proof {
        expect = expect + when(c.policy_required, seq!["policy"@]);
    }
    assert(str_views(feats@) =~= expect);
    if c.verification_required {
        feats.push("karpal-verify");
    }
    proof {
        expect = expect + when(c.verification_required, seq!["karpal-verify"@]);
    }
    assert(str_views(feats@) =~= expect);
    if c.holographic_required {
        feats.push("holographic");
    }
    proof {
        expect = expect + when(c.holographic_required, seq!["holographic"@]);
    }
    assert(str_views(feats@) =~= expect);
    if c.wasm_required {
        feats.push("wasm");
    }
    proof {
        expect = expect + when(c.wasm_required, seq!["wasm"@]);
    }
    assert(str_views(feats@) =~= expect);
    feats
}

/// The items joined by ", ".
fn join_comma(items: &Vec<&'static str>) -> (r: String)
    ensures
        r@ == joined(str_views(items@), ", "@),
{
    let mut s = String::new();
    let mut i: usize = 0;
    while i < items.len()
        invariant
            i <= items@.len(),
            s@ == joined(str_views(items@.subrange(0, i as int)), ", "@),
        decreases items.len() - i,
    {
        proof {
            assert(str_views(items@.subrange(0, i + 1)).drop_last() =~= str_views(items@.subrange(0, i as int)));
        }
        if i > 0 {
            s.append(", ");
        }
        s.append(items[i]);
        proof {
            if i == 0 {
                assert(s@ =~= str_views(items@.subrange(0, 1))[0]);
            }
        }
        i = i + 1;
    }
    assert(items@.subrange(0, i as int) =~= items@);
    s
}

/// The items, each in double quotes, joined by ", ".
fn join_quoted(items: &Vec<&'static str>) -> (r: String)
    ensures
        r@ == joined(quoted(str_views(items@)), ", "@),
{
    let mut s = String::new();
    let mut i: usize = 0;
    while i < items.len()
        invariant
            i <= items@.len(),
            s@ == joined(quoted(str_views(items@.subrange(0, i as int))), ", "@),
        decreases items.len() - i,
    {
        proof {
            assert(quoted(str_views(items@.subrange(0, i + 1))).drop_last() =~= quoted(str_views(items@.subrange(0, i as int))));
        }
        if i > 0 {
            s.append(", ");
        }
        s.append("\"");
        s.append(items[i]);
        s.append("\"");
        proof {
            if i == 0 {
                assert(s@ =~= quoted(str_views(items@.subrange(0, 1)))[0]);
            }
        }
        i = i + 1;
    }
    assert(items@.subrange(0, i as int) =~= items@);
    s
}

/// Whether one of the items is `name`.
fn contains_str(items: &Vec<&'static str>, name: &str) -> (r: bool)
    ensures
        r == str_views(items@).contains(name@),
{
    let mut i: usize = 0;
    while i < items.len()
        invariant
            i <= items@.len(),
            forall|j: int| 0 <= j < i ==> (#[trigger] items@[j])@ != name@,
        decreases items.len() - i,
    {
        if str_eq(items[i], name) {
            assert(str_views(items@)[i as int] == name@);
            return true;
        }
        i = i + 1;
    }
    proof {
        if str_views(items@).contains(name@) {
            let j = choose|j: int| 0 <= j < str_views(items@).len() && str_views(items@)[j] == name@;
            assert(items@[j]@ == name@);
        }
    }
    false
}

fn build_rationale(c: &AccessConstraints, gr: (usize, usize), path: &str, features: &Vec<&'static str>) -> (r: String)
    requires
        gr == grassmannian_for(*c),
    ensures
        r@ == rationale_for(*c, gr.0, gr.1, path@, str_views(features@)),
{
    let (k, n) = gr;
    let mut r = String::from_str("Selected Gr(");
    let ks = decimal_string(k);
    r.append(ks.as_str());
    r.append(",");
    let ns = decimal_string(n);
    r.append(ns.as_str());
    r.append(") with dimension ");
    let ds = decimal_string(k * (n - k));
    r.append(ds.as_str());
    r.append(" for ");
    let rs = decimal_string(c.num_roles);
    r.append(rs.as_str());
    r.append(" roles");
    let ghost head = r@;
    if c.num_domains > 0 {
        r.append(" across ");
        let dd = decimal_string(c.num_domains);
        r.append(dd.as_str());
        r.append(" domains");
    }
    assert(r@ =~= head + text_when(c.num_domains > 0, " across "@ + decimal(c.num_domains as nat) + " domains"@));
    r.append(". Computation path: ");
    r.append(path);
    r.append(".");
    r.append(" Features: [");
    let fs = join_comma(features);
    r.append(fs.as_str());
    r.append("].");
    let ghost mid = r@;
    if c.crypto_required {
        r.append(" Cryptographic tokens enabled for proof-carrying capabilities.");
    }
    assert(r@ =~= mid + text_when(c.crypto_required, " Cryptographic tokens enabled for proof-carrying capabilities."@));
    let ghost tail = r@;
    if str_eq(c.trust_model.as_str(), "surreal") {
        r.append(" Surreal trust arithmetic for infinitesimal trust resolution.");
    }
    assert(r@ =~= tail + text_when(c.trust_model@ == "surreal"@, " Surreal trust arithmetic for infinitesimal trust resolution."@));
    r
}

fn build_example_code(k: usize, n: usize, features: &Vec<&'static str>) -> (r: String)
    ensures
        r@ == example_for(k, n, str_views(features@)),
{
    let mut code = String::from_str(
        "use schubert::AccessController;\n\nfn main() -> Result<(), Box<dyn std::error::Error>> {\n    let mut acl = AccessController::new(",
    );
    let ks = decimal_string(k);
    code.append(ks.as_str());
    code.append(", ");
    let ns = decimal_string(n);
    code.append(ns.as_str());
    code.append(")?;\n");
    let ghost head = code@;
    if contains_str(features, "policy") {
        code.append("    // Load from TOML policy file\n");
        code.append(
            "    let acl = AccessController::from_policy_toml(\n        &std::fs::read_to_string(\"policy.toml\")?\n    )?;\n",
        );
    }
    assert(code@ =~= head + text_when(
        str_views(features@).contains("policy"@),
        "    // Load from TOML policy file\n"@
            + "    let acl = AccessController::from_policy_toml(\n        &std::fs::read_to_string(\"policy.toml\")?\n    )?;\n"@,
    ));
    code.append("    let alice = acl.create_principal(\"alice\")?;\n");
    let ghost mid = code@;
    if contains_str(features, "crypto") {
        code.append("    // Issue a cryptographic capability token\n");
        code.append("    let issuer = CapabilityIssuer::generate();\n");
        code.append("    let token = issuer.issue(\"alice\", \"read\")?;\n");
    }
    assert(code@ =~= mid + text_when(
        str_views(features@).contains("crypto"@),
        "    // Issue a cryptographic capability token\n"@
            + "    let issuer = CapabilityIssuer::generate();\n"@
            + "    let token = issuer.issue(\"alice\", \"read\")?;\n"@,
    ));
    code.append("    acl.grant(&alice, \"read\")?;\n");
    code.append("    let decision = acl.check(&alice, &[\"read\"])?;\n");
    code.append("    println!(\"{decision:?}\");\n");
    code.append("    Ok(())\n}\n");
    code
}


/// The dimension k(n−k) of a Grassmannian.
pub open spec fn policy_dim(g: (usize, usize)) -> int {
    g.0 * (g.1 - g.0)
}

/// The recommended Grassmannian is one of Gr(2,4), Gr(3,6), Gr(4,8), and it
/// grows with the constraints: more roles, more domains or cross-domain
/// translation never give a smaller policy dimension.
pub proof fn law_recommend_monotone(c: AccessConstraints, c2: AccessConstraints)
    requires
        c2.num_roles >= c.num_roles,
        c2.num_domains >= c.num_domains,
        c.cross_domain ==> c2.cross_domain,
    ensures
        grassmannian_for(c) == (2usize, 4usize) || grassmannian_for(c) == (3usize, 6usize) || grassmannian_for(c)
            == (4usize, 8usize),
        policy_dim(grassmannian_for(c)) <= policy_dim(grassmannian_for(c2)),
{
}

/// The Grassmannian tiers: a cross-domain deployment, more than two domains
/// or more than eight roles and domains together get Gr(4,8); otherwise
/// two domains, or six to eight roles and domains, get Gr(3,6) (several
/// domains are never served by Gr(2,4)); a single domain with at most five
/// roles and domains together gets Gr(2,4).
pub proof fn law_recommend_tiers(c: AccessConstraints)
    ensures
        c.cross_domain ==> grassmannian_for(c) == (4usize, 8usize),
        c.num_domains >= 3 ==> grassmannian_for(c) == (4usize, 8usize),
        c.num_roles + c.num_domains >= 9 ==> grassmannian_for(c) == (4usize, 8usize),
        !c.cross_domain && c.num_domains == 2 && c.num_roles + c.num_domains <= 8 ==> grassmannian_for(c) == (
        3usize, 6usize),
        !c.cross_domain && c.num_domains <= 1 && 6 <= c.num_roles + c.num_domains <= 8 ==> grassmannian_for(c)
            == (3usize, 6usize),
        !c.cross_domain && c.num_domains <= 1 && c.num_roles + c.num_domains <= 5 ==> grassmannian_for(c) == (
        2usize, 4usize),
        c.num_domains >= 2 ==> grassmannian_for(c) != (2usize, 4usize),
{
}

// ── Reading answers ───────────────────────────────────────────────────

/// An answer means yes: it starts with `y` or `Y` (the letters whose
/// lowercase form is `y`).
pub open spec fn is_yes(answer: Seq<char>) -> bool {
    answer.len() > 0 && (answer[0] == 'y' || answer[0] == 'Y')
}

/// Whether an answer to a yes/no question means yes.
pub fn answer_is_yes(answer: &str) -> (r: bool)
    ensures
        r == is_yes(answer@),
{
    if answer.unicode_len() == 0 {
        return false;
    }
    let c = answer.get_char(0);
    c == 'y' || c == 'Y'
}

/// The trust model an answer names: `surreal` when it mentions
/// "surreal", otherwise `continuous` when it mentions "cont", otherwise
/// `discrete`.
pub open spec fn trust_model_named(answer: Seq<char>) -> Seq<char> {
    if contains_text(answer, "surreal"@) {
        "surreal"@
    } else if contains_text(answer, "cont"@) {
        "continuous"@
    } else {
        "discrete"@
    }
}

/// The trust model an answer names.
pub fn trust_model_of(answer: &str) -> (r: &'static str)
    ensures
        r@ == trust_model_named(answer@),
{
    if text_contains(answer, "surreal") {
        "surreal"
    } else if text_contains(answer, "cont") {
        "continuous"
    } else {
        "discrete"
    }
}

} // verus!
