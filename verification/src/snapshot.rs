//! Stored controller state and its restoration.
//!
//! A [`ControllerSnapshot`] holds what a controller stores: its
//! Grassmannian, its capabilities and, for each principal, the capability
//! identifiers granted to it and its creation time. Restoring a snapshot
//! keeps the last entry of each identifier, rebuilds every principal's
//! namespace by granting its tracked capabilities again, in order, and
//! fails on the first grant that names no stored capability or a partition
//! the Grassmannian rejects.

use vstd::prelude::*;
use crate::capability::Capability;
use crate::controller::{
    cap_of, has_cap, has_principal, principal_of, principal_ok, principal_pos, unique_caps,
    unique_principals, AccessController,
};
use crate::crdt::{cap_view, copy_capability};
use crate::engine::{
    first_exceeding, holds_id, namespace_frame, namespace_grant, namespace_grants, new_namespace,
    new_schubert_class, partition_accepted, partition_error_text,
};
use crate::error::{Result, SchubertError};
use crate::principal::{Principal, PrincipalId};
use crate::util::{copy_sizes, copy_string, grassmannian_dim, owned, str_eq};

verus! {

/// A principal as stored: its identifier, the capability identifiers
/// granted to it in order, and its creation time.
#[derive(Debug, Clone)]
pub struct PrincipalRecord {
    /// Unique identifier of the principal.
    pub id: PrincipalId,
    /// Capability IDs granted to the principal, in grant order.
    pub granted_capability_ids: Vec<String>,
    /// Unix timestamp of creation (milliseconds since epoch).
    pub created_at: u64,
}

/// What a controller stores.
#[derive(Debug)]
pub struct ControllerSnapshot {
    /// The Grassmannian (k, n).
    pub grassmannian: (usize, usize),
    /// The registered capabilities.
    pub capabilities: Vec<Capability>,
    /// The principals.
    pub principals: Vec<PrincipalRecord>,
}

/// The identifiers of a list of capabilities.
pub open spec fn cap_ids(caps: Seq<Capability>) -> Seq<Seq<char>> {
    Seq::new(caps.len(), |i: int| caps[i].id.0@)
}

/// The identifiers of a list of principal records.
pub open spec fn record_ids(rs: Seq<PrincipalRecord>) -> Seq<Seq<char>> {
    Seq::new(rs.len(), |i: int| rs[i].id.0@)
}

/// `i` is the last position of its identifier.
pub open spec fn is_last(ids: Seq<Seq<char>>, i: int) -> bool {
    &&& 0 <= i < ids.len()
    &&& forall|j: int| i < j < ids.len() ==> #[trigger] ids[j] != ids[i]
}

/// Some entry has this identifier.
pub open spec fn stored(ids: Seq<Seq<char>>, id: Seq<char>) -> bool {
    exists|i: int| 0 <= i < ids.len() && #[trigger] ids[i] == id
}

/// The last position of an identifier.
pub open spec fn last_index(ids: Seq<Seq<char>>, id: Seq<char>) -> int {
    choose|i: int| is_last(ids, i) && ids[i] == id
}

/// The stored capability with this identifier: the last one.
pub open spec fn stored_cap(caps: Seq<Capability>, id: Seq<char>) -> Capability {
    caps[last_index(cap_ids(caps), id)]
}

/// A granted identifier can be granted again: a capability with it is
/// stored, with a partition Gr(k,n) accepts.
pub open spec fn grant_ok(caps: Seq<Capability>, id: Seq<char>, k: usize, n: usize) -> bool {
    stored(cap_ids(caps), id) && partition_accepted(stored_cap(caps, id).partition@, k, n)
}

/// Every tracked grant of the record can be granted again.
pub open spec fn record_ok(caps: Seq<Capability>, rec: PrincipalRecord, k: usize, n: usize) -> bool {
    forall|j: int| 0 <= j < rec.granted_capability_ids@.len() ==> grant_ok(
        caps,
        (#[trigger] rec.granted_capability_ids@[j])@,
        k,
        n,
    )
}

/// `i` is the first kept record that cannot be rebuilt.
pub open spec fn first_bad_record(caps: Seq<Capability>, rs: Seq<PrincipalRecord>, k: usize, n: usize, i: int) -> bool {
    &&& is_last(record_ids(rs), i)
    &&& !record_ok(caps, rs[i], k, n)
    &&& forall|a: int| 0 <= a < i && is_last(record_ids(rs), a) ==> record_ok(caps, #[trigger] rs[a], k, n)
}

/// `j` is the first grant of the list that cannot be granted again.
pub open spec fn first_bad_grant(caps: Seq<Capability>, ids: Seq<String>, k: usize, n: usize, j: int) -> bool {
    &&& 0 <= j < ids.len()
    &&& !grant_ok(caps, ids[j]@, k, n)
    &&& forall|b: int| 0 <= b < j ==> grant_ok(caps, (#[trigger] ids[b])@, k, n)
}

/// The grants a rebuilt principal holds for its tracked identifiers.
pub open spec fn rebuilt_grants(caps: Seq<Capability>, ids: Seq<String>) -> Seq<(Seq<char>, Seq<usize>, bool)> {
    Seq::new(ids.len(), |j: int| (ids[j]@, stored_cap(caps, ids[j]@).partition@, true))
}

/// A principal is the rebuilt form of a record.
pub open spec fn rebuilt(p: Principal, rec: PrincipalRecord, caps: Seq<Capability>) -> bool {
    &&& p.id.0@ == rec.id.0@
    &&& p.granted_capability_ids@ == rec.granted_capability_ids@
    &&& p.created_at == rec.created_at
    &&& p.grants() == rebuilt_grants(caps, rec.granted_capability_ids@)
}

/// What restoring a snapshot returns: an invalid Grassmannian is refused;
/// otherwise the first kept record that cannot be rebuilt fails at its
/// first bad grant; otherwise the controller holds the last stored
/// capability and the rebuilt last record of each identifier.
pub open spec fn restore_result(s: ControllerSnapshot, r: Result<AccessController>) -> bool {
    let k = s.grassmannian.0;
    let n = s.grassmannian.1;
    let caps = s.capabilities@;
    let rs = s.principals@;
    if !(k >= 1 && n >= 2 && k < n) {
        r matches Err(SchubertError::InvalidGrassmannian { k: ek, n: en, reason }) && ek == k && en == n
            && reason@ == "require k ≥ 1, n ≥ 2, k < n"@
    } else if exists|i: int| first_bad_record(caps, rs, k, n, i) {
        let i = choose|i: int| first_bad_record(caps, rs, k, n, i);
        let ids = rs[i].granted_capability_ids@;
        let j = choose|j: int| first_bad_grant(caps, ids, k, n, j);
        if !stored(cap_ids(caps), ids[j]@) {
            r matches Err(SchubertError::CapabilityNotFound(x)) && x@ == ids[j]@
        } else {
            r matches Err(SchubertError::Enumerative(m)) && exists|e: int|
                first_exceeding(stored_cap(caps, ids[j]@).partition@, (n - k) as nat, e) && m@
                    == partition_error_text(stored_cap(caps, ids[j]@).partition@[e] as nat, (n - k) as nat)
        }
    } else {
        r matches Ok(c) && {
            &&& c.wf()
            &&& c.gr() == (k, n)
            &&& forall|id: Seq<char>| #[trigger] has_cap(c.registry(), id) == stored(cap_ids(caps), id)
            &&& forall|id: Seq<char>| stored(cap_ids(caps), id) ==> cap_view(#[trigger] cap_of(c.registry(), id))
                == cap_view(stored_cap(caps, id))
            &&& forall|id: Seq<char>| #[trigger] has_principal(c.roster(), id) == stored(record_ids(rs), id)
            &&& forall|id: Seq<char>| stored(record_ids(rs), id) ==> rebuilt(
                #[trigger] principal_of(c.roster(), id),
                rs[last_index(record_ids(rs), id)],
                caps,
            )
        }
    }
}

/// The snapshot holds the controller's Grassmannian, a copy of its registry
/// in order and, in order, each principal's identifier, tracked grants and
/// creation time.
pub open spec fn snapshot_of(s: ControllerSnapshot, c: AccessController) -> bool {
    &&& s.grassmannian == c.gr()
    &&& s.capabilities@.len() == c.registry().len()
    &&& forall|i: int| 0 <= i < c.registry().len() ==> cap_view(#[trigger] s.capabilities@[i]) == cap_view(c.registry()[i])
    &&& s.principals@.len() == c.roster().len()
    &&& forall|i: int| 0 <= i < c.roster().len() ==> {
        let p = #[trigger] c.roster()[i];
        let q = s.principals@[i];
        &&& q.id.0@ == p.id.0@
        &&& q.granted_capability_ids@ == p.granted_capability_ids@
        &&& q.created_at == p.created_at
    }
}

/// Each principal's tracked identifiers are exactly the identifiers of
/// the capabilities its namespace holds, in order.
pub open spec fn tracking_exact(c: AccessController) -> bool {
    forall|i: int| 0 <= i < c.roster().len() ==> crate::engine::grant_ids((#[trigger] c.roster()[i]).grants())
        == crate::composition::string_views(c.roster()[i].granted_capability_ids@)
}

/// Restoring the snapshot of a controller whose principals track exactly
/// what they hold gives back the same controller: the same Grassmannian,
/// the same capabilities, and the same principals with the same grants,
/// tracked identifiers and creation times.
pub proof fn law_snapshot_roundtrip(c: AccessController, s: ControllerSnapshot, r: Result<AccessController>)
    requires
        c.wf(),
        tracking_exact(c),
        snapshot_of(s, c),
        restore_result(s, r),
    ensures
        r matches Ok(d) && {
            &&& d.gr() == c.gr()
            &&& forall|id: Seq<char>| #[trigger] has_cap(d.registry(), id) == has_cap(c.registry(), id)
            &&& forall|id: Seq<char>| has_cap(c.registry(), id) ==> cap_view(#[trigger] cap_of(d.registry(), id))
                == cap_view(cap_of(c.registry(), id))
            &&& forall|id: Seq<char>| #[trigger] has_principal(d.roster(), id) == has_principal(c.roster(), id)
            &&& forall|id: Seq<char>| has_principal(c.roster(), id) ==> {
                let p = #[trigger] principal_of(d.roster(), id);
                let q = principal_of(c.roster(), id);
                &&& p.grants() == q.grants()
                &&& p.granted_capability_ids@ == q.granted_capability_ids@
                &&& p.created_at == q.created_at
            }
        },
{
    let reg = c.registry();
    let ros = c.roster();
    let caps = s.capabilities@;
    let rs = s.principals@;
    let (k, n) = c.gr();
    let cids = cap_ids(caps);
    let rids = record_ids(rs);
    // every position of the snapshot is the last of its identifier
    assert forall|i: int| 0 <= i < cids.len() implies is_last(cids, i) by {
        assert forall|j: int| i < j < cids.len() implies #[trigger] cids[j] != cids[i] by {
            assert(cap_view(caps[i]) == cap_view(reg[i]));
            assert(cap_view(caps[j]) == cap_view(reg[j]));
        }
    }
    assert forall|i: int| 0 <= i < rids.len() implies is_last(rids, i) by {
        assert forall|j: int| i < j < rids.len() implies #[trigger] rids[j] != rids[i] by {
            assert(rs[i].id.0@ == ros[i].id.0@);
            assert(rs[j].id.0@ == ros[j].id.0@);
        }
    }
    assert forall|id: Seq<char>| stored(cids, id) == has_cap(reg, id) && (has_cap(reg, id) ==> cap_view(
        stored_cap(caps, id),
    ) == cap_view(cap_of(reg, id))) by {
        if stored(cids, id) {
            let i = choose|i: int| 0 <= i < cids.len() && #[trigger] cids[i] == id;
            assert(cap_view(caps[i]) == cap_view(reg[i]));
            assert(reg[i].id.0@ == id);
        }
        if has_cap(reg, id) {
            let i = choose|i: int| 0 <= i < reg.len() && #[trigger] reg[i].id.0@ == id;
            assert(cap_view(caps[i]) == cap_view(reg[i]));
            assert(cids[i] == id);
            lemma_last_exists(cids, i);
            lemma_last_unique(cids, i, last_index(cids, id));
        }
    }
    assert forall|i: int| 0 <= i < rs.len() implies record_ok(caps, #[trigger] rs[i], k, n) && rebuilt_grants(
        caps,
        rs[i].granted_capability_ids@,
    ) == ros[i].grants() by {
        let p = ros[i];
        assert(principal_ok(p, reg, k, n));
        let ids = rs[i].granted_capability_ids@;
        assert(ids == p.granted_capability_ids@);
        assert(crate::engine::grant_ids(p.grants()) == crate::composition::string_views(ids));
        assert(crate::engine::grant_ids(p.grants()).len() == p.grants().len());
        assert(crate::composition::string_views(ids).len() == ids.len());
        assert forall|j: int| 0 <= j < ids.len() implies grant_ok(caps, (#[trigger] ids[j])@, k, n)
            && rebuilt_grants(caps, ids)[j] == p.grants()[j] by {
            assert(crate::engine::grant_ids(p.grants())[j] == ids[j]@);
            let g = p.grants()[j];
            assert(has_cap(reg, g.0));
            assert(g.2);
        }
        assert(rebuilt_grants(caps, ids) =~= p.grants());
    }
    assert forall|i: int| !first_bad_record(caps, rs, k, n, i) by {}
    assert forall|id: Seq<char>| stored(rids, id) == has_principal(ros, id) && (has_principal(ros, id) ==> last_index(rids, id)
        == principal_pos(ros, id)) by {
        if stored(rids, id) {
            let i = choose|i: int| 0 <= i < rids.len() && #[trigger] rids[i] == id;
            assert(ros[i].id.0@ == id);
        }
        if has_principal(ros, id) {
            let i = principal_pos(ros, id);
            assert(rids[i] == id);
            lemma_last_exists(rids, i);
            lemma_last_unique(rids, i, last_index(rids, id));
        }
    }
}

/// Every identifier has a last position.
proof fn lemma_last_exists(ids: Seq<Seq<char>>, i: int)
    requires
        0 <= i < ids.len(),
    ensures
        is_last(ids, last_index(ids, ids[i])),
        ids[last_index(ids, ids[i])] == ids[i],
    decreases ids.len() - i,
{
    if is_last(ids, i) {
    } else {
        let j = choose|j: int| i < j < ids.len() && #[trigger] ids[j] == ids[i];
        lemma_last_exists(ids, j);
    }
}

/// Two last positions of one identifier are the same.
proof fn lemma_last_unique(ids: Seq<Seq<char>>, i: int, j: int)
    requires
        is_last(ids, i),
        is_last(ids, j),
        ids[i] == ids[j],
    ensures
        i == j,
{
    if i < j {
        assert(ids[j] != ids[i]);
    } else if j < i {
        assert(ids[i] != ids[j]);
    }
}

/// The positions listed are exactly the last positions, in increasing order.
pub open spec fn keeps_last(ids: Seq<Seq<char>>, keep: Seq<usize>) -> bool {
    &&& forall|t: int| 0 <= t < keep.len() ==> is_last(ids, #[trigger] keep[t] as int)
    &&& forall|t: int, u: int| 0 <= t < u < keep.len() ==> #[trigger] keep[t] < #[trigger] keep[u]
    &&& forall|i: int| #[trigger] is_last(ids, i) ==> exists|t: int| 0 <= t < keep.len() && keep[t] == i
}

/// The last position of each identifier, in increasing order.
fn last_occurrences(ids: &Vec<&str>) -> (r: Vec<usize>)
    ensures
        keeps_last(crate::decision::str_views(ids@), r@),
{
    let ghost v = crate::decision::str_views(ids@);
    let mut keep: Vec<usize> = Vec::new();
    let mut i: usize = 0;
    while i < ids.len()
        invariant
            v == crate::decision::str_views(ids@),
            i <= ids@.len(),
            forall|t: int| 0 <= t < keep@.len() ==> is_last(v, #[trigger] keep@[t] as int) && keep@[t] < i,
            forall|t: int, u: int| 0 <= t < u < keep@.len() ==> #[trigger] keep@[t] < #[trigger] keep@[u],
            forall|a: int| 0 <= a < i && is_last(v, a) ==> exists|t: int| 0 <= t < keep@.len() && keep@[t] == a,
        decreases ids.len() - i,
    {
        let mut j: usize = i + 1;
        let mut last = true;
        while j < ids.len()
            invariant
                v == crate::decision::str_views(ids@),
                i < ids@.len(),
                i + 1 <= j <= ids@.len(),
                last == (forall|b: int| i < b < j ==> #[trigger] v[b] != v[i as int]),
            decreases ids.len() - j,
        {
            if str_eq(ids[j], ids[i]) {
                assert(v[j as int] == v[i as int]);
                last = false;
            }
            j = j + 1;
        }
        let ghost before = keep@;
        if last {
            keep.push(i);
        }
        proof {
            assert forall|a: int| 0 <= a < i + 1 && is_last(v, a) implies exists|t: int|
                0 <= t < keep@.len() && keep@[t] == a by {
                if a == i {
                    assert(keep@[keep@.len() - 1] == a);
                } else {
                    let t = choose|t: int| 0 <= t < before.len() && before[t] == a;
                    assert(keep@[t] == a);
                }
            }
        }
        i = i + 1;
    }
    keep
}

/// The identifiers of the capabilities, as text.
fn cap_id_strs(caps: &Vec<Capability>) -> (r: Vec<&str>)
    ensures
        crate::decision::str_views(r@) == cap_ids(caps@),
{
    let mut out: Vec<&str> = Vec::new();
    let mut i: usize = 0;
    while i < caps.len()
        invariant
            i <= caps@.len(),
            out@.len() == i,
            forall|t: int| 0 <= t < i ==> (#[trigger] out@[t])@ == caps@[t].id.0@,
        decreases caps.len() - i,
    {
        out.push(caps[i].id.0.as_str());
        i = i + 1;
    }
    assert(crate::decision::str_views(out@) =~= cap_ids(caps@));
    out
}

/// The identifiers of the records, as text.
fn record_id_strs(rs: &Vec<PrincipalRecord>) -> (r: Vec<&str>)
    ensures
        crate::decision::str_views(r@) == record_ids(rs@),
{
    let mut out: Vec<&str> = Vec::new();
    let mut i: usize = 0;
    while i < rs.len()
        invariant
            i <= rs@.len(),
            out@.len() == i,
            forall|t: int| 0 <= t < i ==> (#[trigger] out@[t])@ == rs@[t].id.0@,
        decreases rs.len() - i,
    {
        out.push(rs[i].id.0.as_str());
        i = i + 1;
    }
    assert(crate::decision::str_views(out@) =~= record_ids(rs@));
    out
}

/// A registry copied from the last stored capability of each identifier
/// holds exactly the stored identifiers, each once, with its last capability.
proof fn lemma_kept_registry(caps: Seq<Capability>, keep: Seq<usize>, reg: Seq<Capability>)
    requires
        keeps_last(cap_ids(caps), keep),
        reg.len() == keep.len(),
        forall|t: int| 0 <= t < reg.len() ==> cap_view(#[trigger] reg[t]) == cap_view(caps[keep[t] as int]),
    ensures
        unique_caps(reg),
        forall|id: Seq<char>| #[trigger] has_cap(reg, id) == stored(cap_ids(caps), id),
        forall|id: Seq<char>| stored(cap_ids(caps), id) ==> cap_view(#[trigger] cap_of(reg, id))
            == cap_view(stored_cap(caps, id)),
{
    let ids = cap_ids(caps);
    assert forall|t: int, u: int| 0 <= t < reg.len() && 0 <= u < reg.len() && t != u implies #[trigger] reg[t].id.0@
        != #[trigger] reg[u].id.0@ by {
        assert(cap_view(reg[t]) == cap_view(caps[keep[t] as int]));
        assert(cap_view(reg[u]) == cap_view(caps[keep[u] as int]));
        assert(is_last(ids, keep[t] as int));
        assert(is_last(ids, keep[u] as int));
        if t < u {
            assert(keep[t] < keep[u]);
        } else {
            assert(keep[u] < keep[t]);
        }
        if reg[t].id.0@ == reg[u].id.0@ {
            assert(ids[keep[t] as int] == ids[keep[u] as int]);
            lemma_last_unique(ids, keep[t] as int, keep[u] as int);
        }
    }
    assert forall|id: Seq<char>| stored(ids, id) implies cap_view(#[trigger] cap_of(reg, id)) == cap_view(
        stored_cap(caps, id),
    ) by {
        let i = choose|i: int| 0 <= i < ids.len() && #[trigger] ids[i] == id;
        lemma_last_exists(ids, i);
        let l = last_index(ids, id);
        let t = choose|t: int| 0 <= t < keep.len() && keep[t] == l;
        assert(cap_view(reg[t]) == cap_view(caps[keep[t] as int]));
        assert(reg[t].id.0@ == id);
        let c = choose|c: int| 0 <= c < reg.len() && #[trigger] reg[c].id.0@ == id;
        assert(c == t);
    }
    assert forall|id: Seq<char>| #[trigger] has_cap(reg, id) == stored(ids, id) by {
        if has_cap(reg, id) {
            let t = choose|t: int| 0 <= t < reg.len() && #[trigger] reg[t].id.0@ == id;
            assert(cap_view(reg[t]) == cap_view(caps[keep[t] as int]));
            assert(ids[keep[t] as int] == id);
        }
        if stored(ids, id) {
            let i = choose|i: int| 0 <= i < ids.len() && #[trigger] ids[i] == id;
            lemma_last_exists(ids, i);
            let l = last_index(ids, id);
            let t = choose|t: int| 0 <= t < keep.len() && keep[t] == l;
            assert(cap_view(reg[t]) == cap_view(caps[keep[t] as int]));
            assert(reg[t].id.0@ == id);
            let c = choose|c: int| 0 <= c < reg.len() && #[trigger] reg[c].id.0@ == id;
            assert(c == t);
        }
    }
}


/// A roster rebuilt from the last record of each identifier holds exactly
/// the stored identifiers, each once, rebuilt from its last record.
proof fn lemma_kept_roster(rs: Seq<PrincipalRecord>, keep: Seq<usize>, ps: Seq<Principal>, caps: Seq<Capability>)
    requires
        keeps_last(record_ids(rs), keep),
        ps.len() == keep.len(),
        forall|t: int| 0 <= t < ps.len() ==> rebuilt(#[trigger] ps[t], rs[keep[t] as int], caps),
    ensures
        unique_principals(ps),
        forall|id: Seq<char>| #[trigger] has_principal(ps, id) == stored(record_ids(rs), id),
        forall|id: Seq<char>| stored(record_ids(rs), id) ==> rebuilt(
            #[trigger] principal_of(ps, id),
            rs[last_index(record_ids(rs), id)],
            caps,
        ),
{
    let ids = record_ids(rs);
    assert forall|t: int, u: int| 0 <= t < ps.len() && 0 <= u < ps.len() && t != u implies #[trigger] ps[t].id.0@
        != #[trigger] ps[u].id.0@ by {
        assert(rebuilt(ps[t], rs[keep[t] as int], caps));
        assert(rebuilt(ps[u], rs[keep[u] as int], caps));
        assert(is_last(ids, keep[t] as int));
        assert(is_last(ids, keep[u] as int));
        if t < u {
            assert(keep[t] < keep[u]);
        } else {
            assert(keep[u] < keep[t]);
        }
        if ps[t].id.0@ == ps[u].id.0@ {
            assert(ids[keep[t] as int] == ids[keep[u] as int]);
            lemma_last_unique(ids, keep[t] as int, keep[u] as int);
        }
    }
    assert forall|id: Seq<char>| stored(ids, id) implies rebuilt(
        #[trigger] principal_of(ps, id),
        rs[last_index(ids, id)],
        caps,
    ) by {
        let i = choose|i: int| 0 <= i < ids.len() && #[trigger] ids[i] == id;
        lemma_last_exists(ids, i);
        let l = last_index(ids, id);
        let t = choose|t: int| 0 <= t < keep.len() && keep[t] == l;
        assert(rebuilt(ps[t], rs[keep[t] as int], caps));
        assert(ps[t].id.0@ == id);
        let c = choose|c: int| 0 <= c < ps.len() && #[trigger] ps[c].id.0@ == id;
        assert(c == t);
    }
    assert forall|id: Seq<char>| #[trigger] has_principal(ps, id) == stored(ids, id) by {
        if has_principal(ps, id) {
            let t = choose|t: int| 0 <= t < ps.len() && #[trigger] ps[t].id.0@ == id;
            assert(rebuilt(ps[t], rs[keep[t] as int], caps));
            assert(ids[keep[t] as int] == id);
        }
        if stored(ids, id) {
            let i = choose|i: int| 0 <= i < ids.len() && #[trigger] ids[i] == id;
            lemma_last_exists(ids, i);
            let l = last_index(ids, id);
            let t = choose|t: int| 0 <= t < keep.len() && keep[t] == l;
            assert(rebuilt(ps[t], rs[keep[t] as int], caps));
            assert(ps[t].id.0@ == id);
        }
    }
}

/// A tracked identifier can be granted again from the registry.
pub open spec fn reg_grant_ok(reg: Seq<Capability>, id: Seq<char>, k: usize, n: usize) -> bool {
    has_cap(reg, id) && partition_accepted(cap_of(reg, id).partition@, k, n)
}

/// The grants of a rebuilt principal over the registry.
pub open spec fn reg_grants(reg: Seq<Capability>, ids: Seq<String>) -> Seq<(Seq<char>, Seq<usize>, bool)> {
    Seq::new(ids.len(), |j: int| (ids[j]@, cap_of(reg, ids[j]@).partition@, true))
}

/// The index of the capability with this identifier in a registry.
fn find_cap(reg: &Vec<Capability>, id: &str) -> (r: Option<usize>)
    ensures
        r matches Some(i) ==> i < reg@.len() && reg@[i as int].id.0@ == id@,
        r is None ==> !has_cap(reg@, id@),
{
    let mut i: usize = 0;
    while i < reg.len()
        invariant
            i <= reg@.len(),
            forall|j: int| 0 <= j < i ==> #[trigger] reg@[j].id.0@ != id@,
        decreases reg.len() - i,
    {
        if str_eq(reg[i].id.0.as_str(), id) {
            return Some(i);
        }
        i = i + 1;
    }
    None
}

/// Rebuild a principal from its record: a namespace at the identity
/// position of Gr(k,n), granted each tracked capability again in order.
fn rebuild_principal(rec: &PrincipalRecord, reg: &Vec<Capability>, k: usize, n: usize) -> (r: Result<Principal>)
    requires
        1 <= k < n,
        unique_caps(reg@),
    ensures
        (r is Ok) == (forall|j: int| 0 <= j < rec.granted_capability_ids@.len() ==> reg_grant_ok(
            reg@,
            (#[trigger] rec.granted_capability_ids@[j])@,
            k,
            n,
        )),
        r matches Ok(p) ==> {
            &&& p.id.0@ == rec.id.0@
            &&& p.granted_capability_ids@ == rec.granted_capability_ids@
            &&& p.created_at == rec.created_at
            &&& p.grants() == reg_grants(reg@, rec.granted_capability_ids@)
            &&& principal_ok(p, reg@, k, n)
        },
        r is Err ==> exists|j: int| {
            &&& 0 <= j < rec.granted_capability_ids@.len()
            &&& !reg_grant_ok(reg@, rec.granted_capability_ids@[j]@, k, n)
            &&& forall|b: int| 0 <= b < j ==> reg_grant_ok(reg@, (#[trigger] rec.granted_capability_ids@[b])@, k, n)
            &&& !has_cap(reg@, rec.granted_capability_ids@[j]@) ==> (r matches Err(SchubertError::CapabilityNotFound(x))
                && x@ == rec.granted_capability_ids@[j]@)
            &&& has_cap(reg@, rec.granted_capability_ids@[j]@) ==> (r matches Err(SchubertError::Enumerative(m))
                && exists|e: int|
                first_exceeding(cap_of(reg@, rec.granted_capability_ids@[j]@).partition@, (n - k) as nat, e) && m@
                    == partition_error_text(
                    cap_of(reg@, rec.granted_capability_ids@[j]@).partition@[e] as nat,
                    (n - k) as nat,
                ))
        },
{
    let ids = &rec.granted_capability_ids;
    let mut ns = match new_namespace(rec.id.0.as_str(), k, n) {
        Ok(ns) => ns,
        Err(m) => return Err(SchubertError::Enumerative(m)),
    };
    let mut j: usize = 0;
    while j < ids.len()
        invariant
            1 <= k < n,
            unique_caps(reg@),
            ids@ == rec.granted_capability_ids@,
            j <= ids@.len(),
            namespace_frame(ns) == (k, n, Seq::<usize>::empty()),
            namespace_grants(ns) == reg_grants(reg@, ids@.subrange(0, j as int)),
            forall|b: int| 0 <= b < j ==> reg_grant_ok(reg@, (#[trigger] ids@[b])@, k, n),
        decreases ids.len() - j,
    {
        let ci = match find_cap(reg, ids[j].as_str()) {
            None => return Err(SchubertError::CapabilityNotFound(copy_string(&ids[j]))),
            Some(ci) => ci,
        };
        proof {
            let c = choose|c: int| 0 <= c < reg@.len() && #[trigger] reg@[c].id.0@ == ids@[j as int]@;
            assert(c == ci);
        }
        match new_schubert_class(copy_sizes(&reg[ci].partition), k, n) {
            Err(m) => return Err(SchubertError::Enumerative(m)),
            Ok(_) => {},
        }
        let ghost before = namespace_grants(ns);
        proof {
            assert forall|b: int| 0 <= b < before.len() implies #[trigger] before[b].2 by {}
        }
        match namespace_grant(&mut ns, ids[j].as_str(), reg[ci].label.as_str(), &reg[ci].partition) {
            Err(m) => return Err(SchubertError::Enumerative(m)),
            Ok(()) => {},
        }
        proof {
            assert(reg_grants(reg@, ids@.subrange(0, j + 1)) =~= before.push(
                (ids@[j as int]@, reg@[ci as int].partition@, true),
            ));
        }
        j = j + 1;
    }
    let mut gids: Vec<String> = Vec::new();
    let mut b: usize = 0;
    while b < ids.len()
        invariant
            b <= ids@.len(),
            gids@ == ids@.subrange(0, b as int),
        decreases ids.len() - b,
    {
        gids.push(copy_string(&ids[b]));
        assert(gids@ =~= ids@.subrange(0, b + 1));
        b = b + 1;
    }
    proof {
        assert(ids@.subrange(0, j as int) =~= ids@);
        assert(gids@ =~= ids@);
    }
    let p = Principal {
        id: PrincipalId(copy_string(&rec.id.0)),
        namespace: ns,
        granted_capability_ids: gids,
        created_at: rec.created_at,
    };
    proof {
        let g = p.grants();
        assert forall|i: int| 0 <= i < g.len() implies {
            let x = #[trigger] g[i];
            &&& has_cap(reg@, x.0)
            &&& cap_of(reg@, x.0).partition@ == x.1
            &&& partition_accepted(x.1, k, n)
        } by {
            assert(reg_grant_ok(reg@, ids@[i]@, k, n));
        }
        assert forall|i: int| 0 <= i < p.granted_capability_ids@.len() implies holds_id(
            g,
            (#[trigger] p.granted_capability_ids@[i])@,
        ) by {
            assert(g[i].0 == ids@[i]@);
        }
    }
    Ok(p)
}

/// Restore a controller from a snapshot. The last stored capability and
/// the last record of each identifier are kept; every principal is rebuilt
/// by granting its tracked capabilities again, and the first grant that
/// names no stored capability, or a partition the Grassmannian rejects,
/// fails the restoration.
pub fn restore(snapshot: &ControllerSnapshot) -> (r: Result<AccessController>)
    requires
        snapshot.grassmannian.0 * (snapshot.grassmannian.1 - snapshot.grassmannian.0) <= usize::MAX,
    ensures
        restore_result(*snapshot, r),
{
    let (k, n) = snapshot.grassmannian;
    if k == 0 || n < 2 || k >= n {
        return Err(SchubertError::InvalidGrassmannian { k, n, reason: owned("require k ≥ 1, n ≥ 2, k < n") });
    }
    assert(grassmannian_dim(k as nat, n as nat) == k * (n - k));
    let ghost caps = snapshot.capabilities@;
    let ghost rs = snapshot.principals@;
    let cap_strs = cap_id_strs(&snapshot.capabilities);
    let keep = last_occurrences(&cap_strs);
    let mut reg: Vec<Capability> = Vec::new();
    let mut t: usize = 0;
    while t < keep.len()
        invariant
            caps == snapshot.capabilities@,
            keeps_last(cap_ids(caps), keep@),
            t <= keep@.len(),
            reg@.len() == t,
            forall|u: int| 0 <= u < t ==> cap_view(#[trigger] reg@[u]) == cap_view(caps[keep@[u] as int]),
        decreases keep.len() - t,
    {
        assert(is_last(cap_ids(caps), keep@[t as int] as int));
        let c = copy_capability(&snapshot.capabilities[keep[t]]);
        reg.push(c);
        t = t + 1;
    }
    proof {
        lemma_kept_registry(caps, keep@, reg@);
    }
    let rec_strs = record_id_strs(&snapshot.principals);
    let rkeep = last_occurrences(&rec_strs);
    let mut ps: Vec<Principal> = Vec::new();
    let mut t: usize = 0;
    while t < rkeep.len()
        invariant
            1 <= k < n,
            k == snapshot.grassmannian.0,
            n == snapshot.grassmannian.1,
            caps == snapshot.capabilities@,
            rs == snapshot.principals@,
            unique_caps(reg@),
            forall|id: Seq<char>| #[trigger] has_cap(reg@, id) == stored(cap_ids(caps), id),
            forall|id: Seq<char>| stored(cap_ids(caps), id) ==> cap_view(#[trigger] cap_of(reg@, id))
                == cap_view(stored_cap(caps, id)),
            keeps_last(record_ids(rs), rkeep@),
            t <= rkeep@.len(),
            ps@.len() == t,
            forall|u: int| 0 <= u < t ==> rebuilt(#[trigger] ps@[u], rs[rkeep@[u] as int], caps),
            forall|u: int| 0 <= u < t ==> principal_ok(#[trigger] ps@[u], reg@, k, n),
            forall|u: int| 0 <= u < t ==> record_ok(caps, #[trigger] rs[rkeep@[u] as int], k, n),
        decreases rkeep.len() - t,
    {
        let ghost ri = rkeep@[t as int] as int;
        assert(is_last(record_ids(rs), ri));
        let rec = &snapshot.principals[rkeep[t]];
        let ghost ids = rec.granted_capability_ids@;
        proof {
            assert forall|id: Seq<char>| reg_grant_ok(reg@, id, k, n) == grant_ok(caps, id, k, n) by {
                if stored(cap_ids(caps), id) {
                    assert(cap_view(cap_of(reg@, id)) == cap_view(stored_cap(caps, id)));
                }
            }
        }
        match rebuild_principal(rec, &reg, k, n) {
            Err(e) => {
                proof {
                    assert(!record_ok(caps, rs[ri], k, n));
                    assert forall|a: int| 0 <= a < ri && is_last(record_ids(rs), a) implies record_ok(
                        caps,
                        #[trigger] rs[a],
                        k,
                        n,
                    ) by {
                        let u = choose|u: int| 0 <= u < rkeep@.len() && rkeep@[u] == a;
                        if u >= t {
                            if u > t {
                                assert(rkeep@[t as int] < rkeep@[u]);
                            }
                        }
                        assert(u < t);
                        assert(record_ok(caps, rs[rkeep@[u] as int], k, n));
                    }
                    assert(first_bad_record(caps, rs, k, n, ri));
                    let c = choose|c: int| first_bad_record(caps, rs, k, n, c);
                    if c < ri {
                        assert(record_ok(caps, rs[c], k, n));
                    } else if ri < c {
                        assert(record_ok(caps, rs[ri], k, n));
                    }
                    let j = choose|j: int| {
                        &&& 0 <= j < ids.len()
                        &&& !reg_grant_ok(reg@, ids[j]@, k, n)
                        &&& forall|b: int| 0 <= b < j ==> reg_grant_ok(reg@, (#[trigger] ids[b])@, k, n)
                        &&& !has_cap(reg@, ids[j]@) ==> (e matches SchubertError::CapabilityNotFound(x) && x@ == ids[j]@)
                        &&& has_cap(reg@, ids[j]@) ==> (e matches SchubertError::Enumerative(m) && exists|x: int|
                            first_exceeding(cap_of(reg@, ids[j]@).partition@, (n - k) as nat, x) && m@
                                == partition_error_text(cap_of(reg@, ids[j]@).partition@[x] as nat, (n - k) as nat))
                    };
                    assert(first_bad_grant(caps, ids, k, n, j));
                    let d = choose|d: int| first_bad_grant(caps, ids, k, n, d);
                    if d < j {
                        assert(grant_ok(caps, ids[d]@, k, n));
                    } else if j < d {
                        assert(grant_ok(caps, ids[j]@, k, n));
                    }
                    if stored(cap_ids(caps), ids[j]@) {
                        assert(cap_view(cap_of(reg@, ids[j]@)) == cap_view(stored_cap(caps, ids[j]@)));
                    }
                }
                return Err(e);
            },
            Ok(p) => {
                proof {
                    assert forall|j: int| 0 <= j < ids.len() implies grant_ok(caps, (#[trigger] ids[j])@, k, n) by {
                        assert(reg_grant_ok(reg@, ids[j]@, k, n));
                    }
                    assert(p.grants() =~= rebuilt_grants(caps, ids)) by {
                        assert forall|j: int| 0 <= j < ids.len() implies p.grants()[j] == rebuilt_grants(caps, ids)[j] by {
                            assert(reg_grant_ok(reg@, ids[j]@, k, n));
                            assert(cap_view(cap_of(reg@, ids[j]@)) == cap_view(stored_cap(caps, ids[j]@)));
                        }
                    }
                }
                ps.push(p);
            },
        }
        t = t + 1;
    }
    proof {
        lemma_kept_roster(rs, rkeep@, ps@, caps);
        assert forall|i: int| !first_bad_record(caps, rs, k, n, i) by {
            if first_bad_record(caps, rs, k, n, i) {
                let u = choose|u: int| 0 <= u < rkeep@.len() && rkeep@[u] == i;
                assert(record_ok(caps, rs[rkeep@[u] as int], k, n));
            }
        }
    }
    let c = AccessController::from_parts(k, n, reg, ps);
    Ok(c)
}

/// The stored form of a controller: its Grassmannian, its registry and,
/// for each principal, its tracked grants and creation time.
pub fn snapshot(c: &AccessController) -> (r: ControllerSnapshot)
    ensures
        snapshot_of(r, *c),
{
    let caps = c.capabilities();
    let mut cs: Vec<Capability> = Vec::new();
    let mut i: usize = 0;
    while i < caps.len()
        invariant
            caps@.len() == c.registry().len(),
            forall|j: int| 0 <= j < caps@.len() ==> *(#[trigger] caps@[j]) == c.registry()[j],
            i <= caps@.len(),
            cs@.len() == i,
            forall|j: int| 0 <= j < i ==> cap_view(#[trigger] cs@[j]) == cap_view(c.registry()[j]),
        decreases caps.len() - i,
    {
        cs.push(copy_capability(caps[i]));
        i = i + 1;
    }
    let ps = c.principals_in_order();
    let mut rs: Vec<PrincipalRecord> = Vec::new();
    let mut i: usize = 0;
    while i < ps.len()
        invariant
            ps@.len() == c.roster().len(),
            forall|j: int| 0 <= j < ps@.len() ==> *(#[trigger] ps@[j]) == c.roster()[j],
            i <= ps@.len(),
            rs@.len() == i,
            forall|j: int| 0 <= j < i ==> {
                let p = c.roster()[j];
                let q = #[trigger] rs@[j];
                &&& q.id.0@ == p.id.0@
                &&& q.granted_capability_ids@ == p.granted_capability_ids@
                &&& q.created_at == p.created_at
            },
        decreases ps.len() - i,
    {
        let p = ps[i];
        let mut gids: Vec<String> = Vec::new();
        let mut b: usize = 0;
        while b < p.granted_capability_ids.len()
            invariant
                b <= p.granted_capability_ids@.len(),
                gids@ == p.granted_capability_ids@.subrange(0, b as int),
            decreases p.granted_capability_ids.len() - b,
        {
            gids.push(copy_string(&p.granted_capability_ids[b]));
            assert(gids@ =~= p.granted_capability_ids@.subrange(0, b + 1));
            b = b + 1;
        }
        assert(gids@ =~= p.granted_capability_ids@);
        rs.push(PrincipalRecord { id: PrincipalId(copy_string(&p.id.0)), granted_capability_ids: gids, created_at: p.created_at });
        i = i + 1;
    }
    ControllerSnapshot { grassmannian: c.grassmannian(), capabilities: cs, principals: rs }
}

} // verus!
