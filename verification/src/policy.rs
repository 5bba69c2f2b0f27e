//! Declarative policy language for Schubert access control.
//!
//! A [`PolicyConfig`] defines capabilities, principals and grants for one
//! Grassmannian — "policy as code" with geometric guarantees. Capabilities
//! and principals are kept by name in ascending name order, each name once,
//! the order in which a policy is validated and applied.

use vstd::prelude::*;
use vstd::std_specs::convert::FromSpecImpl;
use crate::capability::{Capability, CapabilityKind};
use crate::controller::{cap_of, has_cap, has_principal, principal_of, AccessController};
use crate::crypto::lex_le;
use crate::engine::{holds_id, partition_accepted};
use crate::error::{Result, SchubertError};
use crate::principal::PrincipalId;
use crate::util::{debug_list, debug_list_string, decimal, decimal_string, owned, seq_sum, str_eq, sum_parts};

verus! {

/// Grassmannian configuration.
#[derive(Debug, Clone, Copy, PartialEq, Eq, Structural)]
pub struct GrassmannianConfig {
    /// Dimension of subspaces.
    pub k: usize,
    /// Dimension of ambient space.
    pub n: usize,
}

/// Capability kind in the policy language.
#[derive(Debug, Clone, Copy, PartialEq, Eq, Structural)]
pub enum CapabilityKindConfig {
    /// Read-like capability (typically codimension 1).
    ReadLike,
    /// Write-like capability (typically codimension 2).
    WriteLike,
    /// Administrative capability (typically point class).
    AdminLike,
    /// Custom capability with arbitrary partition semantics.
    Custom,
}

/// The capability kind a policy kind stands for.
pub open spec fn kind_of(kind: CapabilityKindConfig) -> CapabilityKind {
    match kind {
        CapabilityKindConfig::ReadLike => CapabilityKind::ReadLike,
        CapabilityKindConfig::WriteLike => CapabilityKind::WriteLike,
        CapabilityKindConfig::AdminLike => CapabilityKind::AdminLike,
        CapabilityKindConfig::Custom => CapabilityKind::Custom,
    }
}

/// The policy kind of a capability kind.
pub open spec fn kind_config_of(kind: CapabilityKind) -> CapabilityKindConfig {
    match kind {
        CapabilityKind::ReadLike => CapabilityKindConfig::ReadLike,
        CapabilityKind::WriteLike => CapabilityKindConfig::WriteLike,
        CapabilityKind::AdminLike => CapabilityKindConfig::AdminLike,
        CapabilityKind::Custom => CapabilityKindConfig::Custom,
    }
}

impl From<CapabilityKindConfig> for CapabilityKind {
    fn from(kind: CapabilityKindConfig) -> (r: Self) {
        match kind {
            CapabilityKindConfig::ReadLike => CapabilityKind::ReadLike,
            CapabilityKindConfig::WriteLike => CapabilityKind::WriteLike,
            CapabilityKindConfig::AdminLike => CapabilityKind::AdminLike,
            CapabilityKindConfig::Custom => CapabilityKind::Custom,
        }
    }
}

impl FromSpecImpl<CapabilityKindConfig> for CapabilityKind {
    open spec fn obeys_from_spec() -> bool {
        true
    }

    open spec fn from_spec(kind: CapabilityKindConfig) -> Self {
        kind_of(kind)
    }
}

impl From<CapabilityKind> for CapabilityKindConfig {
    fn from(kind: CapabilityKind) -> (r: Self) {
        match kind {
            CapabilityKind::ReadLike => CapabilityKindConfig::ReadLike,
            CapabilityKind::WriteLike => CapabilityKindConfig::WriteLike,
            CapabilityKind::AdminLike => CapabilityKindConfig::AdminLike,
            CapabilityKind::Custom => CapabilityKindConfig::Custom,
        }
    }
}

impl FromSpecImpl<CapabilityKind> for CapabilityKindConfig {
    open spec fn obeys_from_spec() -> bool {
        true
    }

    open spec fn from_spec(kind: CapabilityKind) -> Self {
        kind_config_of(kind)
    }
}

/// A capability definition in the policy language.
#[derive(Debug, Clone)]
pub struct CapabilityConfig {
    /// Schubert partition defining the condition.
    pub partition: Vec<usize>,
    /// Semantic kind.
    pub kind: CapabilityKindConfig,
    /// Short human-readable label.
    pub label: String,
    /// Longer description (may be empty).
    pub description: String,
}

/// A principal definition in the policy language.
#[derive(Debug, Clone)]
pub struct PrincipalConfig {
    /// Capability IDs granted to this principal, in order.
    pub grants: Vec<String>,
}

/// A complete access control policy in declarative form.
#[derive(Debug, Clone)]
pub struct PolicyConfig {
    /// Grassmannian parameters Gr(k,n).
    pub grassmannian: GrassmannianConfig,
    /// Named capabilities with their Schubert conditions, by ascending name.
    pub capabilities: Vec<(String, CapabilityConfig)>,
    /// Named principals with their granted capabilities, by ascending name.
    pub principals: Vec<(String, PrincipalConfig)>,
}

/// The characters of a name as integers, the order names are kept in.
pub open spec fn name_ints(s: Seq<char>) -> Seq<int> {
    Seq::new(s.len(), |i: int| s[i] as int)
}

/// The names are in strictly ascending order, so each occurs once.
pub open spec fn names_ascending(names: Seq<Seq<char>>) -> bool {
    forall|i: int, j: int|
        0 <= i < j < names.len() ==> #[trigger] names[i] != #[trigger] names[j] && lex_le(
            name_ints(names[i]),
            name_ints(names[j]),
        )
}

/// The names of a list of named capabilities.
pub open spec fn cap_names(caps: Seq<(String, CapabilityConfig)>) -> Seq<Seq<char>> {
    Seq::new(caps.len(), |i: int| caps[i].0@)
}

/// The names of a list of named principals.
pub open spec fn principal_names(ps: Seq<(String, PrincipalConfig)>) -> Seq<Seq<char>> {
    Seq::new(ps.len(), |i: int| ps[i].0@)
}

/// The parts of the partition never increase.
pub open spec fn weakly_decreasing(p: Seq<usize>) -> bool {
    forall|i: int, j: int| 0 <= i && j == i + 1 && j < p.len() ==> #[trigger] p[i] >= #[trigger] p[j]
}

/// A capability's partition fails validation in Gr(k,n): its codimension
/// exceeds k(n−k), it increases somewhere, it has more than k parts, or its
/// first part exceeds n−k.
pub open spec fn cap_bad(p: Seq<usize>, k: usize, n: usize) -> bool {
    ||| seq_sum(p) > k * (n - k)
    ||| !weakly_decreasing(p)
    ||| p.len() > k
    ||| (p.len() > 0 && p[0] > n - k)
}

/// Why a capability's partition fails validation, for the first failing
/// check.
pub open spec fn cap_reason(name: Seq<char>, p: Seq<usize>, k: usize, n: usize) -> Seq<char> {
    let dim = (k * (n - k)) as nat;
    if seq_sum(p) > dim {
        "capability '"@ + name + "': codimension "@ + decimal(seq_sum(p))
            + " exceeds Grassmannian dimension "@ + decimal(dim)
    } else if !weakly_decreasing(p) {
        "capability '"@ + name + "': partition not weakly decreasing ("@ + debug_list(p) + ")"@
    } else if p.len() > k {
        "capability '"@ + name + "': partition has "@ + decimal(p.len()) + " parts, exceeds k="@
            + decimal(k as nat)
    } else {
        "capability '"@ + name + "': first part "@ + decimal(p[0] as nat) + " exceeds n-k="@
            + decimal((n - k) as nat)
    }
}

/// `i` is the first capability that fails validation.
pub open spec fn first_bad_cap(caps: Seq<(String, CapabilityConfig)>, k: usize, n: usize, i: int) -> bool {
    &&& 0 <= i < caps.len()
    &&& cap_bad(caps[i].1.partition@, k, n)
    &&& forall|j: int| 0 <= j < i ==> !cap_bad((#[trigger] caps[j]).1.partition@, k, n)
}

/// Some capability of the policy has this name.
pub open spec fn cap_named(caps: Seq<(String, CapabilityConfig)>, name: Seq<char>) -> bool {
    exists|i: int| 0 <= i < caps.len() && (#[trigger] caps[i]).0@ == name
}

/// Every granted name is a capability of the policy.
pub open spec fn grants_defined(caps: Seq<(String, CapabilityConfig)>, g: Seq<String>) -> bool {
    forall|j: int| 0 <= j < g.len() ==> cap_named(caps, (#[trigger] g[j])@)
}

/// Grant `j` of principal `i` is the first that names no capability.
pub open spec fn first_undefined(
    caps: Seq<(String, CapabilityConfig)>,
    ps: Seq<(String, PrincipalConfig)>,
    i: int,
    j: int,
) -> bool {
    &&& 0 <= i < ps.len()
    &&& 0 <= j < ps[i].1.grants@.len()
    &&& !cap_named(caps, ps[i].1.grants@[j]@)
    &&& forall|a: int| 0 <= a < i ==> grants_defined(caps, (#[trigger] ps[a]).1.grants@)
    &&& forall|b: int| 0 <= b < j ==> cap_named(caps, (#[trigger] ps[i].1.grants@[b])@)
}

/// The text of a grant of an undefined capability.
pub open spec fn undefined_text(principal: Seq<char>, grant: Seq<char>) -> Seq<char> {
    "principal '"@ + principal + "' grants '"@ + grant + "', but capability '"@ + grant
        + "' is not defined"@
}

/// What validation returns: an invalid Grassmannian, else the first
/// capability that fails validation, else the first grant of an undefined
/// capability, else success.
pub open spec fn validate_result(cfg: PolicyConfig, r: Result<()>) -> bool {
    let k = cfg.grassmannian.k;
    let n = cfg.grassmannian.n;
    let caps = cfg.capabilities@;
    let ps = cfg.principals@;
    if !(k >= 1 && n >= 2 && k < n) {
        r matches Err(SchubertError::InvalidGrassmannian { k: ek, n: en, reason }) && ek == k && en
            == n && reason@ == "require k ≥ 1, n ≥ 2, k < n"@
    } else if exists|i: int| first_bad_cap(caps, k, n, i) {
        let i = choose|i: int| first_bad_cap(caps, k, n, i);
        r matches Err(SchubertError::InvalidPartition { partition, k: ek, n: en, reason })
            && partition@ == caps[i].1.partition@ && ek == k && en == n && reason@ == cap_reason(
            caps[i].0@,
            caps[i].1.partition@,
            k,
            n,
        )
    } else if exists|i: int, j: int| first_undefined(caps, ps, i, j) {
        let (i, j) = choose|i: int, j: int| first_undefined(caps, ps, i, j);
        r matches Err(SchubertError::CapabilityNotFound(s)) && s@ == undefined_text(
            ps[i].0@,
            ps[i].1.grants@[j]@,
        )
    } else {
        r is Ok
    }
}

/// The policy passes validation: valid Grassmannian parameters, every
/// capability's partition passes, every grant names a capability.
pub open spec fn policy_valid(cfg: PolicyConfig) -> bool {
    let k = cfg.grassmannian.k;
    let n = cfg.grassmannian.n;
    &&& k >= 1 && n >= 2 && k < n
    &&& forall|i: int| 0 <= i < cfg.capabilities@.len() ==> !cap_bad((#[trigger] cfg.capabilities@[i]).1.partition@, k, n)
    &&& forall|i: int| 0 <= i < cfg.principals@.len() ==> grants_defined(cfg.capabilities@, (#[trigger] cfg.principals@[i]).1.grants@)
}

/// The capability a policy entry registers: its name, label, description,
/// partition and kind.
pub open spec fn entry_cap(c: Capability, e: (String, CapabilityConfig)) -> bool {
    &&& c.id.0@ == e.0@
    &&& c.label@ == e.1.label@
    &&& c.description@ == e.1.description@
    &&& c.partition@ == e.1.partition@
    &&& c.kind == kind_of(e.1.kind)
}

/// `reg` is `before` followed by the capabilities of the first `m` entries.
pub open spec fn registered_prefix(
    before: Seq<Capability>,
    reg: Seq<Capability>,
    caps: Seq<(String, CapabilityConfig)>,
    m: int,
) -> bool {
    &&& 0 <= m <= caps.len()
    &&& reg.len() == before.len() + m
    &&& reg.subrange(0, before.len() as int) == before
    &&& forall|t: int| 0 <= t < m ==> entry_cap(#[trigger] reg[before.len() + t], caps[t])
}

/// Registration stops at entry `i`: its name is already registered, or the
/// controller's Grassmannian rejects its partition.
pub open spec fn reg_stop(before: Seq<Capability>, caps: Seq<(String, CapabilityConfig)>, k: usize, n: usize, i: int) -> bool {
    &&& 0 <= i < caps.len()
    &&& (has_cap(before, caps[i].0@) || !partition_accepted(caps[i].1.partition@, k, n))
    &&& forall|j: int| 0 <= j < i ==> !has_cap(before, (#[trigger] caps[j]).0@) && partition_accepted(caps[j].1.partition@, k, n)
}

/// The grants a list of granted names gives over a registry.
pub open spec fn grant_list(g: Seq<String>, reg: Seq<Capability>) -> Seq<(Seq<char>, Seq<usize>, bool)> {
    Seq::new(g.len(), |j: int| (g[j]@, cap_of(reg, g[j]@).partition@, true))
}

/// The principal a policy entry creates: its name, and its grants in order.
pub open spec fn entry_principal(p: crate::principal::Principal, e: (String, PrincipalConfig), reg: Seq<Capability>) -> bool {
    &&& p.id.0@ == e.0@
    &&& p.grants() == grant_list(e.1.grants@, reg)
    &&& crate::composition::string_views(p.granted_capability_ids@) == crate::composition::string_views(e.1.grants@)
}

/// `ros` is `before` followed by the principals of the first `m` entries.
pub open spec fn created_prefix(
    before: Seq<crate::principal::Principal>,
    ros: Seq<crate::principal::Principal>,
    ps: Seq<(String, PrincipalConfig)>,
    reg: Seq<Capability>,
    m: int,
) -> bool {
    &&& 0 <= m <= ps.len()
    &&& ros.len() == before.len() + m
    &&& ros.subrange(0, before.len() as int) == before
    &&& forall|t: int| 0 <= t < m ==> entry_principal(#[trigger] ros[before.len() + t], ps[t], reg)
}

/// Principal creation stops at entry `i`, whose name is already taken.
pub open spec fn roster_stop(before: Seq<crate::principal::Principal>, ps: Seq<(String, PrincipalConfig)>, i: int) -> bool {
    &&& 0 <= i < ps.len()
    &&& has_principal(before, ps[i].0@)
    &&& forall|j: int| 0 <= j < i ==> !has_principal(before, (#[trigger] ps[j]).0@)
}

/// What applying a policy does to a controller: nothing when validation
/// fails; otherwise the capabilities are registered in name order up to the
/// first the controller refuses, then, if all were registered, the principals
/// are created in name order, each with its grants, up to the first whose
/// name is taken.
pub open spec fn apply_result(cfg: PolicyConfig, before: AccessController, after: AccessController, r: Result<()>) -> bool {
    let caps = cfg.capabilities@;
    let ps = cfg.principals@;
    let k = before.gr().0;
    let n = before.gr().1;
    &&& after.gr() == before.gr()
    &&& if !policy_valid(cfg) {
        &&& validate_result(cfg, r)
        &&& r is Err
        &&& after.registry() == before.registry()
        &&& after.roster() == before.roster()
    } else if exists|i: int| reg_stop(before.registry(), caps, k, n, i) {
        let i = choose|i: int| reg_stop(before.registry(), caps, k, n, i);
        &&& registered_prefix(before.registry(), after.registry(), caps, i)
        &&& after.roster() == before.roster()
        &&& has_cap(before.registry(), caps[i].0@) ==> (r matches Err(SchubertError::CapabilityExists(s))
            && s@ == caps[i].0@)
        &&& !has_cap(before.registry(), caps[i].0@) ==> (r matches Err(
            SchubertError::InvalidPartition { partition, k: ek, n: en, .. },
        ) && partition@ == caps[i].1.partition@ && ek == k && en == n)
    } else {
        &&& registered_prefix(before.registry(), after.registry(), caps, caps.len() as int)
        &&& if exists|i: int| roster_stop(before.roster(), ps, i) {
            let i = choose|i: int| roster_stop(before.roster(), ps, i);
            &&& r matches Err(SchubertError::PrincipalExists(s)) && s@ == ps[i].0@
            &&& created_prefix(before.roster(), after.roster(), ps, after.registry(), i)
        } else {
            &&& r is Ok
            &&& created_prefix(before.roster(), after.roster(), ps, after.registry(), ps.len() as int)
        }
    }
}

/// Once a policy has been applied successfully, each of its principals
/// exists in the controller and holds every capability the policy grants it.
pub proof fn law_applied_grants_held(cfg: PolicyConfig, before: AccessController, after: AccessController, t: int, j: int)
    requires
        after.wf(),
        apply_result(cfg, before, after, Ok(())),
        0 <= t < cfg.principals@.len(),
        0 <= j < cfg.principals@[t].1.grants@.len(),
    ensures
        has_principal(after.roster(), cfg.principals@[t].0@),
        holds_id(principal_of(after.roster(), cfg.principals@[t].0@).grants(), cfg.principals@[t].1.grants@[j]@),
{
    let ps = cfg.principals@;
    let ros = after.roster();
    let x = before.roster().len() + t;
    assert(created_prefix(before.roster(), ros, ps, after.registry(), ps.len() as int));
    assert(entry_principal(ros[x], ps[t], after.registry()));
    assert(ros[x].id.0@ == ps[t].0@);
    let c = choose|c: int| 0 <= c < ros.len() && #[trigger] ros[c].id.0@ == ps[t].0@;
    assert(c == x);
    let g = ps[t].1.grants@;
    assert(ros[x].grants()[j].0 == g[j]@);
}

/// Registration stops at one entry at most.
proof fn lemma_reg_stop_unique(before: Seq<Capability>, caps: Seq<(String, CapabilityConfig)>, k: usize, n: usize, i: int, j: int)
    requires
        reg_stop(before, caps, k, n, i),
        reg_stop(before, caps, k, n, j),
    ensures
        i == j,
{
    if i < j {
        assert(!has_cap(before, caps[i].0@) && partition_accepted(caps[i].1.partition@, k, n));
    } else if j < i {
        assert(!has_cap(before, caps[j].0@) && partition_accepted(caps[j].1.partition@, k, n));
    }
}

/// Principal creation stops at one entry at most.
proof fn lemma_roster_stop_unique(before: Seq<crate::principal::Principal>, ps: Seq<(String, PrincipalConfig)>, i: int, j: int)
    requires
        roster_stop(before, ps, i),
        roster_stop(before, ps, j),
    ensures
        i == j,
{
    if i < j {
        assert(!has_principal(before, ps[i].0@));
    } else if j < i {
        assert(!has_principal(before, ps[j].0@));
    }
}

/// A name none of the first `m` entries carries is registered after them
/// exactly when it was before.
proof fn lemma_prefix_has_cap(
    before: Seq<Capability>,
    reg: Seq<Capability>,
    caps: Seq<(String, CapabilityConfig)>,
    m: int,
    name: Seq<char>,
)
    requires
        registered_prefix(before, reg, caps, m),
        forall|t: int| 0 <= t < m ==> (#[trigger] caps[t]).0@ != name,
    ensures
        has_cap(reg, name) == has_cap(before, name),
{
    if has_cap(before, name) {
        let i = choose|i: int| 0 <= i < before.len() && #[trigger] before[i].id.0@ == name;
        assert(reg.subrange(0, before.len() as int)[i] == before[i]);
        assert(reg[i].id.0@ == name);
    }
    if has_cap(reg, name) {
        let i = choose|i: int| 0 <= i < reg.len() && #[trigger] reg[i].id.0@ == name;
        if i < before.len() {
            assert(reg.subrange(0, before.len() as int)[i] == reg[i]);
            assert(before[i].id.0@ == name);
        } else {
            let t = i - before.len();
            assert(entry_cap(reg[before.len() + t], caps[t]));
        }
    }
}

/// The entry registered at `t` is the one its name looks up.
proof fn lemma_prefix_cap_of(
    before: Seq<Capability>,
    reg: Seq<Capability>,
    caps: Seq<(String, CapabilityConfig)>,
    m: int,
    t: int,
)
    requires
        registered_prefix(before, reg, caps, m),
        crate::controller::unique_caps(reg),
        0 <= t < m,
    ensures
        has_cap(reg, caps[t].0@),
        cap_of(reg, caps[t].0@) == reg[before.len() + t],
{
    let x = before.len() + t;
    assert(entry_cap(reg[x], caps[t]));
    assert(reg[x].id.0@ == caps[t].0@);
    let c = choose|i: int| 0 <= i < reg.len() && #[trigger] reg[i].id.0@ == caps[t].0@;
    assert(c == x);
}

/// A name none of the first `m` created principals carries names a
/// principal after them exactly when it did before.
proof fn lemma_prefix_has_principal(
    before: Seq<crate::principal::Principal>,
    ros: Seq<crate::principal::Principal>,
    ps: Seq<(String, PrincipalConfig)>,
    reg: Seq<Capability>,
    m: int,
    name: Seq<char>,
)
    requires
        created_prefix(before, ros, ps, reg, m),
        forall|t: int| 0 <= t < m ==> (#[trigger] ps[t]).0@ != name,
    ensures
        has_principal(ros, name) == has_principal(before, name),
{
    if has_principal(before, name) {
        let i = choose|i: int| 0 <= i < before.len() && #[trigger] before[i].id.0@ == name;
        assert(ros.subrange(0, before.len() as int)[i] == before[i]);
        assert(ros[i].id.0@ == name);
    }
    if has_principal(ros, name) {
        let i = choose|i: int| 0 <= i < ros.len() && #[trigger] ros[i].id.0@ == name;
        if i < before.len() {
            assert(ros.subrange(0, before.len() as int)[i] == ros[i]);
            assert(before[i].id.0@ == name);
        } else {
            let t = i - before.len();
            assert(entry_principal(ros[before.len() + t], ps[t], reg));
        }
    }
}


/// The first failing capability is unique.
proof fn lemma_first_bad_unique(caps: Seq<(String, CapabilityConfig)>, k: usize, n: usize, i: int, j: int)
    requires
        first_bad_cap(caps, k, n, i),
        first_bad_cap(caps, k, n, j),
    ensures
        i == j,
{
    if i < j {
        assert(!cap_bad(caps[i].1.partition@, k, n));
    } else if j < i {
        assert(!cap_bad(caps[j].1.partition@, k, n));
    }
}

/// The first undefined grant is unique.
proof fn lemma_first_undefined_unique(
    caps: Seq<(String, CapabilityConfig)>,
    ps: Seq<(String, PrincipalConfig)>,
    i: int,
    j: int,
    a: int,
    b: int,
)
    requires
        first_undefined(caps, ps, i, j),
        first_undefined(caps, ps, a, b),
    ensures
        i == a && j == b,
{
    if i < a {
        assert(grants_defined(caps, ps[i].1.grants@));
        assert(cap_named(caps, ps[i].1.grants@[j]@));
    } else if a < i {
        assert(grants_defined(caps, ps[a].1.grants@));
        assert(cap_named(caps, ps[a].1.grants@[b]@));
    } else if j < b {
        assert(cap_named(caps, ps[i].1.grants@[j]@));
    } else if b < j {
        assert(cap_named(caps, ps[i].1.grants@[b]@));
    }
}

/// Why a capability fails validation, rendered.
fn cap_reason_text(name: &String, p: &Vec<usize>, k: usize, n: usize) -> (r: String)
    requires
        1 <= k < n,
        k * (n - k) <= usize::MAX,
        seq_sum(p@) <= usize::MAX,
        cap_bad(p@, k, n),
    ensures
        r@ == cap_reason(name@, p@, k, n),
{
    let dim = k * (n - k);
    let codim = sum_parts(p.as_slice());
    let mut s = String::from_str("capability '");
    s.append(name.as_str());
    if codim > dim {
        s.append("': codimension ");
        let c = decimal_string(codim);
        s.append(c.as_str());
        s.append(" exceeds Grassmannian dimension ");
        let d = decimal_string(dim);
        s.append(d.as_str());
    } else if !is_weakly_decreasing(p.as_slice()) {
        s.append("': partition not weakly decreasing (");
        let l = debug_list_string(p.as_slice());
        s.append(l.as_str());
        s.append(")");
    } else if p.len() > k {
        s.append("': partition has ");
        let c = decimal_string(p.len());
        s.append(c.as_str());
        s.append(" parts, exceeds k=");
        let d = decimal_string(k);
        s.append(d.as_str());
    } else {
        s.append("': first part ");
        let c = decimal_string(p[0]);
        s.append(c.as_str());
        s.append(" exceeds n-k=");
        let d = decimal_string(n - k);
        s.append(d.as_str());
    }
    s
}

/// Whether the parts of the partition never increase.
fn is_weakly_decreasing(p: &[usize]) -> (r: bool)
    ensures
        r == weakly_decreasing(p@),
{
    if p.len() == 0 {
        return true;
    }
    let mut i: usize = 0;
    while i < p.len() - 1
        invariant
            p@.len() > 0,
            forall|a: int, b: int| 0 <= a && b == a + 1 && b <= i && b < p@.len() ==> #[trigger] p@[a] >= #[trigger] p@[b],
        decreases p.len() - i,
    {
        if p[i] < p[i + 1] {
            assert(!(p@[i as int] >= p@[i + 1]));
            return false;
        }
        i = i + 1;
    }
    true
}

/// Whether some capability of the policy has this name.
fn has_cap_named(caps: &Vec<(String, CapabilityConfig)>, name: &str) -> (r: bool)
    ensures
        r == cap_named(caps@, name@),
{
    let mut i: usize = 0;
    while i < caps.len()
        invariant
            i <= caps@.len(),
            forall|j: int| 0 <= j < i ==> (#[trigger] caps@[j]).0@ != name@,
        decreases caps.len() - i,
    {
        if str_eq(caps[i].0.as_str(), name) {
            assert(caps@[i as int].0@ == name@);
            return true;
        }
        i = i + 1;
    }
    false
}

impl PolicyConfig {
    /// Capabilities and principals are kept by strictly ascending name.
    pub open spec fn wf(&self) -> bool {
        &&& names_ascending(cap_names(self.capabilities@))
        &&& names_ascending(principal_names(self.principals@))
    }

    /// The arithmetic of validation stays within `usize`.
    pub open spec fn sums_fit(&self) -> bool {
        let k = self.grassmannian.k;
        let n = self.grassmannian.n;
        self.capabilities@.len() > 0 && 1 <= k < n ==> {
            &&& k * (n - k) <= usize::MAX
            &&& forall|i: int| 0 <= i < self.capabilities@.len() ==> seq_sum(
                (#[trigger] self.capabilities@[i]).1.partition@,
            ) <= usize::MAX
        }
    }

    /// Validate the policy against its Grassmannian: the parameters must
    /// satisfy k ≥ 1, n ≥ 2, k < n; each capability's partition must have
    /// codimension at most k(n−k), never increase, have at most k parts and
    /// a first part at most n−k; and every grant must name a capability of
    /// the policy.
    pub fn validate(&self) -> (r: Result<()>)
        requires
            self.sums_fit(),
        ensures
            validate_result(*self, r),
            (r is Ok) == policy_valid(*self),
    {
        let k = self.grassmannian.k;
        let n = self.grassmannian.n;
        if k == 0 || n < 2 || k >= n {
            return Err(
                SchubertError::InvalidGrassmannian {
                    k,
                    n,
                    reason: owned("require k ≥ 1, n ≥ 2, k < n"),
                },
            );
        }
        let ghost caps = self.capabilities@;
        let mut i: usize = 0;
        while i < self.capabilities.len()
            invariant
                caps == self.capabilities@,
                1 <= k < n,
                k == self.grassmannian.k,
                n == self.grassmannian.n,
                self.sums_fit(),
                i <= caps.len(),
                forall|j: int| 0 <= j < i ==> !cap_bad((#[trigger] caps[j]).1.partition@, k, n),
            decreases self.capabilities.len() - i,
        {
            let p = &self.capabilities[i].1.partition;
            proof {
                assert(seq_sum(caps[i as int].1.partition@) <= usize::MAX);
            }
            let dim = k * (n - k);
            let codim = sum_parts(p.as_slice());
            let bad = codim > dim || !is_weakly_decreasing(p.as_slice()) || p.len() > k || (p.len() > 0
                && p[0] > n - k);
            if bad {
                let reason = cap_reason_text(&self.capabilities[i].0, p, k, n);
                assert(!policy_valid(*self));
                proof {
                    assert(first_bad_cap(caps, k, n, i as int));
                    let c = choose|c: int| first_bad_cap(caps, k, n, c);
                    lemma_first_bad_unique(caps, k, n, c, i as int);
                }
                return Err(
                    SchubertError::InvalidPartition {
                        partition: crate::util::copy_sizes(p),
                        k,
                        n,
                        reason,
                    },
                );
            }
            i = i + 1;
        }
        assert(!exists|c: int| first_bad_cap(caps, k, n, c));
        let ghost ps = self.principals@;
        let mut a: usize = 0;
        while a < self.principals.len()
            invariant
                caps == self.capabilities@,
                ps == self.principals@,
                1 <= k < n,
                k == self.grassmannian.k,
                n == self.grassmannian.n,
                !exists|c: int| first_bad_cap(caps, k, n, c),
                a <= ps.len(),
                forall|x: int| 0 <= x < a ==> grants_defined(caps, (#[trigger] ps[x]).1.grants@),
            decreases self.principals.len() - a,
        {
            let grants = &self.principals[a].1.grants;
            let mut b: usize = 0;
            while b < grants.len()
                invariant
                    caps == self.capabilities@,
                    ps == self.principals@,
                    1 <= k < n,
                    k == self.grassmannian.k,
                    n == self.grassmannian.n,
                    !exists|c: int| first_bad_cap(caps, k, n, c),
                    a < ps.len(),
                    *grants == ps[a as int].1.grants,
                    forall|x: int| 0 <= x < a ==> grants_defined(caps, (#[trigger] ps[x]).1.grants@),
                    b <= grants@.len(),
                    forall|y: int| 0 <= y < b ==> cap_named(caps, (#[trigger] grants@[y])@),
                decreases grants.len() - b,
            {
                if !has_cap_named(&self.capabilities, grants[b].as_str()) {
                    assert(!grants_defined(caps, ps[a as int].1.grants@));
                    let mut s = String::from_str("principal '");
                    s.append(self.principals[a].0.as_str());
                    s.append("' grants '");
                    s.append(grants[b].as_str());
                    s.append("', but capability '");
                    s.append(grants[b].as_str());
                    s.append("' is not defined");
                    proof {
                        assert(first_undefined(caps, ps, a as int, b as int));
                        let (c, d) = choose|c: int, d: int| first_undefined(caps, ps, c, d);
                        lemma_first_undefined_unique(caps, ps, c, d, a as int, b as int);
                    }
                    return Err(SchubertError::CapabilityNotFound(s));
                }
                b = b + 1;
            }
            a = a + 1;
        }
        proof {
            assert forall|c: int, d: int| !first_undefined(caps, ps, c, d) by {
                if first_undefined(caps, ps, c, d) {
                    assert(grants_defined(caps, ps[c].1.grants@));
                    assert(cap_named(caps, ps[c].1.grants@[d]@));
                }
            }
        }
        Ok(())
    }

    /// Apply the policy to an access controller: validate it, register its
    /// capabilities in name order, then create its principals in name order,
    /// granting each its capabilities in order. The first refusal is
    /// returned, with what was done before it kept.
    pub fn apply(&self, acl: &mut AccessController) -> (r: Result<()>)
        requires
            self.wf(),
            self.sums_fit(),
            old(acl).wf(),
        ensures
            final(acl).wf(),
            apply_result(*self, *old(acl), *final(acl), r),
    {
        match self.validate() {
            Err(e) => return Err(e),
            Ok(()) => {},
        }
        let ghost before = *acl;
        let ghost caps = self.capabilities@;
        let ghost ps = self.principals@;
        let ghost breg = acl.registry();
        let ghost bros = acl.roster();
        let ghost k = acl.gr().0;
        let ghost n = acl.gr().1;
        proof {
            assert(breg.subrange(0, breg.len() as int) =~= breg);
        }
        let mut i: usize = 0;
        while i < self.capabilities.len()
            invariant
                acl.wf(),
                acl.gr() == before.gr(),
                before.gr() == (k, n),
                before == *old(acl),
                acl.roster() == bros,
                bros == before.roster(),
                breg == before.registry(),
                caps == self.capabilities@,
                ps == self.principals@,
                self.wf(),
                policy_valid(*self),
                i <= caps.len(),
                registered_prefix(breg, acl.registry(), caps, i as int),
                forall|j: int| 0 <= j < i ==> !has_cap(breg, (#[trigger] caps[j]).0@) && partition_accepted(
                    caps[j].1.partition@,
                    k,
                    n,
                ),
            decreases self.capabilities.len() - i,
        {
            let e = &self.capabilities[i];
            let cap = Capability::with_description(
                e.0.as_str(),
                e.1.label.as_str(),
                e.1.description.as_str(),
                crate::util::copy_sizes(&e.1.partition),
                CapabilityKind::from(e.1.kind),
            );
            proof {
                assert forall|t: int| 0 <= t < i implies (#[trigger] caps[t]).0@ != caps[i as int].0@ by {
                    assert(cap_names(caps)[t] != cap_names(caps)[i as int]);
                }
                lemma_prefix_has_cap(breg, acl.registry(), caps, i as int, caps[i as int].0@);
            }
            let ghost pre = acl.registry();
            assert(cap.id.0@ == caps[i as int].0@);
            assert(cap.partition@ == caps[i as int].1.partition@);
            assert(has_cap(pre, caps[i as int].0@) == has_cap(breg, caps[i as int].0@));
            match acl.register_capability(cap) {
                Err(err) => {
                    assert(acl.registry() == pre);
                    assert(has_cap(breg, caps[i as int].0@) || !partition_accepted(caps[i as int].1.partition@, k, n));
                    proof {
                        assert(reg_stop(breg, caps, k, n, i as int));
                        let c = choose|c: int| reg_stop(breg, caps, k, n, c);
                        lemma_reg_stop_unique(breg, caps, k, n, c, i as int);
                    }
                    return Err(err);
                },
                Ok(()) => {},
            }
            proof {
                let reg = acl.registry();
                assert(reg == pre.push(cap));
                assert(reg.subrange(0, breg.len() as int) =~= pre.subrange(0, breg.len() as int));
                assert forall|t: int| 0 <= t < i + 1 implies entry_cap(#[trigger] reg[breg.len() + t], caps[t]) by {
                    if t < i {
                        assert(reg[breg.len() + t] == pre[breg.len() + t]);
                    }
                }
            }
            i = i + 1;
        }
        proof {
            assert forall|x: int| !reg_stop(breg, caps, k, n, x) by {
                if reg_stop(breg, caps, k, n, x) {
                    assert(!has_cap(breg, caps[x].0@) && partition_accepted(caps[x].1.partition@, k, n));
                }
            }
            assert(bros.subrange(0, bros.len() as int) =~= bros);
        }
        let ghost freg = acl.registry();
        let mut a: usize = 0;
        while a < self.principals.len()
            invariant
                acl.wf(),
                acl.gr() == before.gr(),
                before.gr() == (k, n),
                before == *old(acl),
                acl.registry() == freg,
                bros == before.roster(),
                breg == before.registry(),
                registered_prefix(breg, freg, caps, caps.len() as int),
                forall|j: int| 0 <= j < caps.len() ==> partition_accepted((#[trigger] caps[j]).1.partition@, k, n),
                forall|x: int| !reg_stop(breg, caps, k, n, x),
                caps == self.capabilities@,
                ps == self.principals@,
                self.wf(),
                policy_valid(*self),
                a <= ps.len(),
                created_prefix(bros, acl.roster(), ps, freg, a as int),
                forall|x: int| 0 <= x < a ==> !has_principal(bros, (#[trigger] ps[x]).0@),
            decreases self.principals.len() - a,
        {
            proof {
                assert forall|t: int| 0 <= t < a implies (#[trigger] ps[t]).0@ != ps[a as int].0@ by {
                    assert(principal_names(ps)[t] != principal_names(ps)[a as int]);
                }
                lemma_prefix_has_principal(bros, acl.roster(), ps, freg, a as int, ps[a as int].0@);
            }
            let ghost ros_a = acl.roster();
            let pid = match acl.create_principal(self.principals[a].0.as_str()) {
                Err(err) => {
                    proof {
                        assert(roster_stop(bros, ps, a as int));
                        let c = choose|c: int| roster_stop(bros, ps, c);
                        lemma_roster_stop_unique(bros, ps, c, a as int);
                    }
                    return Err(err);
                },
                Ok(pid) => pid,
            };
            let grants = &self.principals[a].1.grants;
            proof {
                assert(grants_defined(caps, ps[a as int].1.grants@));
                assert(grant_list(grants@.subrange(0, 0), freg) =~= Seq::<(Seq<char>, Seq<usize>, bool)>::empty());
                assert(crate::composition::string_views(grants@.subrange(0, 0)) =~= Seq::<Seq<char>>::empty());
                assert(crate::composition::string_views(acl.roster().last().granted_capability_ids@) =~= Seq::<Seq<char>>::empty());
            }
            let mut b: usize = 0;
            while b < grants.len()
                invariant
                    acl.wf(),
                    acl.gr() == before.gr(),
                    acl.registry() == freg,
                    registered_prefix(breg, freg, caps, caps.len() as int),
                    forall|j: int| 0 <= j < caps.len() ==> partition_accepted((#[trigger] caps[j]).1.partition@, k, n),
                    before.gr() == (k, n),
                    before == *old(acl),
                before == *old(acl),
                    caps == self.capabilities@,
                    ps == self.principals@,
                    a < ps.len(),
                    *grants == ps[a as int].1.grants,
                    grants_defined(caps, grants@),
                    pid.0@ == ps[a as int].0@,
                    acl.roster().len() == ros_a.len() + 1,
                    acl.roster().drop_last() == ros_a,
                    acl.roster().last().id.0@ == ps[a as int].0@,
                    acl.roster().last().grants() == grant_list(grants@.subrange(0, b as int), freg),
                    crate::composition::string_views(acl.roster().last().granted_capability_ids@)
                        == crate::composition::string_views(grants@.subrange(0, b as int)),
                    b <= grants@.len(),
                decreases grants.len() - b,
            {
                let ghost g = grants@[b as int]@;
                let ghost ros_b = acl.roster();
                proof {
                    assert(cap_named(caps, g));
                    let t = choose|t: int| 0 <= t < caps.len() && (#[trigger] caps[t]).0@ == g;
                    lemma_prefix_cap_of(breg, freg, caps, caps.len() as int, t);
                    assert(entry_cap(freg[breg.len() + t], caps[t]));
                    assert(partition_accepted(cap_of(freg, g).partition@, k, n));
                    let last = ros_b.len() - 1;
                    assert(ros_b[last].id.0@ == pid.0@);
                    assert(has_principal(ros_b, pid.0@));
                    let c = choose|c: int| 0 <= c < ros_b.len() && #[trigger] ros_b[c].id.0@ == pid.0@;
                    assert(c == last);
                }
                assert(has_cap(acl.registry(), grants[b as int]@));
                assert(has_principal(acl.roster(), pid.0@));
                assert(partition_accepted(cap_of(acl.registry(), grants[b as int]@).partition@, acl.gr().0, acl.gr().1));
                match acl.grant(&pid, grants[b].as_str()) {
                    Err(err) => {
                        return Err(err);
                    },
                    Ok(()) => {},
                }
                proof {
                    let ros = acl.roster();
                    let last = ros_b.len() - 1;
                    assert(ros.drop_last() =~= ros_b.drop_last());
                    assert(grants@.subrange(0, b + 1) =~= grants@.subrange(0, b as int).push(grants@[b as int]));
                    assert(grant_list(grants@.subrange(0, b + 1), freg) =~= grant_list(grants@.subrange(0, b as int), freg).push(
                        (g, cap_of(freg, g).partition@, true),
                    ));
                    assert(crate::composition::string_views(ros.last().granted_capability_ids@)
                        =~= crate::composition::string_views(ros_b.last().granted_capability_ids@).push(g));
                    assert(crate::composition::string_views(grants@.subrange(0, b + 1))
                        =~= crate::composition::string_views(grants@.subrange(0, b as int)).push(g));
                }
                b = b + 1;
            }
            proof {
                let ros = acl.roster();
                assert(grants@.subrange(0, b as int) =~= grants@);
                assert(entry_principal(ros.last(), ps[a as int], freg));
                assert(ros.subrange(0, bros.len() as int) =~= ros_a.subrange(0, bros.len() as int));
                assert forall|t: int| 0 <= t < a + 1 implies entry_principal(#[trigger] ros[bros.len() + t], ps[t], freg) by {
                    if t < a {
                        assert(ros[bros.len() + t] == ros_a[bros.len() + t]);
                    }
                }
            }
            a = a + 1;
        }
        proof {
            assert forall|x: int| !roster_stop(bros, ps, x) by {
                if roster_stop(bros, ps, x) {
                    assert(!has_principal(bros, ps[x].0@));
                }
            }
        }
        Ok(())
    }
}


/// When some capability fails validation, validation has a first failing
/// capability.
proof fn lemma_first_bad_cap(caps: Seq<(String, CapabilityConfig)>, k: usize, n: usize, i: int)
    requires
        0 <= i < caps.len(),
        cap_bad(caps[i].1.partition@, k, n),
    ensures
        exists|j: int| first_bad_cap(caps, k, n, j),
    decreases i,
{
    if exists|j: int| 0 <= j < i && cap_bad((#[trigger] caps[j]).1.partition@, k, n) {
        let j = choose|j: int| 0 <= j < i && cap_bad((#[trigger] caps[j]).1.partition@, k, n);
        lemma_first_bad_cap(caps, k, n, j);
    } else {
        assert(first_bad_cap(caps, k, n, i));
    }
}

/// Validation rejects a policy with a capability whose partition increases
/// somewhere: some part is smaller than the part after it.
pub proof fn law_validate_rejects_increase(cfg: PolicyConfig, r: Result<()>, i: int, a: int)
    requires
        validate_result(cfg, r),
        0 <= i < cfg.capabilities@.len(),
        0 <= a && a + 1 < cfg.capabilities@[i].1.partition@.len(),
        cfg.capabilities@[i].1.partition@[a] < cfg.capabilities@[i].1.partition@[a + 1],
    ensures
        r is Err,
{
    let k = cfg.grassmannian.k;
    let n = cfg.grassmannian.n;
    let p = cfg.capabilities@[i].1.partition@;
    assert(!weakly_decreasing(p)) by {
        assert(!(p[a] >= p[a + 1]));
    }
    if k >= 1 && n >= 2 && k < n {
        lemma_first_bad_cap(cfg.capabilities@, k, n, i);
    }
}

/// Every capability of a policy that passes validation has a partition that
/// never increases, has at most k parts, a first part at most n−k and
/// codimension at most k(n−k).
pub proof fn law_validated_partitions(cfg: PolicyConfig, r: Result<()>, i: int)
    requires
        validate_result(cfg, r),
        r is Ok,
        0 <= i < cfg.capabilities@.len(),
    ensures
        ({
            let k = cfg.grassmannian.k;
            let n = cfg.grassmannian.n;
            let p = cfg.capabilities@[i].1.partition@;
            &&& 1 <= k < n
            &&& forall|a: int| 0 <= a && a + 1 < p.len() ==> p[a] >= #[trigger] p[a + 1]
            &&& p.len() <= k
            &&& (p.len() == 0 || p[0] <= n - k)
            &&& seq_sum(p) <= k * (n - k)
        }),
{
    let k = cfg.grassmannian.k;
    let n = cfg.grassmannian.n;
    let p = cfg.capabilities@[i].1.partition@;
    if cap_bad(p, k, n) {
        lemma_first_bad_cap(cfg.capabilities@, k, n, i);
    }
    assert forall|a: int| 0 <= a && a + 1 < p.len() implies p[a] >= #[trigger] p[a + 1] by {
        assert(weakly_decreasing(p));
        assert(p[a] >= p[a + 1]);
    }
}


/// Validation accepts a policy whose parameters satisfy 1 ≤ k < n, whose
/// capabilities' partitions never increase, have at most k parts, a first
/// part at most n−k and codimension at most k(n−k), and whose grants all
/// name capabilities of the policy.
pub proof fn law_validate_accepts(cfg: PolicyConfig, r: Result<()>)
    requires
        validate_result(cfg, r),
        1 <= cfg.grassmannian.k < cfg.grassmannian.n,
        forall|i: int|
            0 <= i < cfg.capabilities@.len() ==> {
                let p = (#[trigger] cfg.capabilities@[i]).1.partition@;
                let k = cfg.grassmannian.k;
                let n = cfg.grassmannian.n;
                &&& forall|a: int| 0 <= a && a + 1 < p.len() ==> p[a] >= #[trigger] p[a + 1]
                &&& p.len() <= k
                &&& (p.len() == 0 || p[0] <= n - k)
                &&& seq_sum(p) <= k * (n - k)
            },
        forall|i: int|
            0 <= i < cfg.principals@.len() ==> grants_defined(
                cfg.capabilities@,
                (#[trigger] cfg.principals@[i]).1.grants@,
            ),
    ensures
        r is Ok,
{
    let k = cfg.grassmannian.k;
    let n = cfg.grassmannian.n;
    let caps = cfg.capabilities@;
    let ps = cfg.principals@;
    assert forall|i: int| 0 <= i < caps.len() implies !cap_bad((#[trigger] caps[i]).1.partition@, k, n) by {
        let p = caps[i].1.partition@;
        assert forall|a: int, b: int| 0 <= a && b == a + 1 && b < p.len() implies #[trigger] p[a] >= #[trigger] p[b] by {
            assert(p[a] >= p[a + 1]);
        }
    }
    assert(!exists|i: int| first_bad_cap(caps, k, n, i));
    assert(!exists|i: int, j: int| first_undefined(caps, ps, i, j)) by {
        if exists|i: int, j: int| first_undefined(caps, ps, i, j) {
            let (i, j) = choose|i: int, j: int| first_undefined(caps, ps, i, j);
            assert(grants_defined(caps, ps[i].1.grants@));
        }
    }
}

} // verus!
