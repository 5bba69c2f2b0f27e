//! Laws of access control: what every grant, revoke and check keeps.
//!
//! Each law is a proof function over the effects that the controller's
//! operations state in their contracts (`grant_effect`, `revoke_effect`,
//! `check_result`), so it holds of every run of those operations.

use vstd::prelude::*;
use crate::controller::{
    check_parts, check_result, grant_effect, has_principal, holds_all, principal_of, principal_pos,
    principal_ok, revoke_effect, without_id, AccessController,
};
use crate::decision::{id_views, AccessDecision, ComputationPath};
use crate::engine::{holds_id, matroid_intersection_cardinality, namespace_frame, normal_form};
use crate::error::{Result, SchubertError};
use crate::principal::Principal;
use crate::util::{grassmannian_dim, seq_sum, total_codim};
use crate::capability::Capability;
use crate::controller::{batch_result, cap_of};

verus! {

/// The principal `pid` exists and holds `cid`.
pub open spec fn holds_in(c: AccessController, pid: Seq<char>, cid: Seq<char>) -> bool {
    has_principal(c.roster(), pid) && holds_id(principal_of(c.roster(), pid).grants(), cid)
}

/// Two principals agree on everything the library can observe: identifier,
/// creation time, Grassmannian and position, grants and tracked identifiers.
pub open spec fn same_principal(p: Principal, q: Principal) -> bool {
    &&& p.id == q.id
    &&& p.created_at == q.created_at
    &&& namespace_frame(p.namespace) == namespace_frame(q.namespace)
    &&& p.grants() == q.grants()
    &&& p.granted_capability_ids@ == q.granted_capability_ids@
}

/// Two decisions are the same, comparing impossibilities by the identifiers
/// they name.
pub open spec fn same_decision(d1: AccessDecision, d2: AccessDecision) -> bool {
    match (d1, d2) {
        (AccessDecision::Impossible { conflicting: a }, AccessDecision::Impossible { conflicting: b }) =>
            id_views(a@) == id_views(b@),
        _ => d1 == d2,
    }
}

/// Two decisions are the same apart from the computation path they report.
pub open spec fn same_but_path(d1: AccessDecision, d2: AccessDecision) -> bool {
    match (d1, d2) {
        (
            AccessDecision::Granted { configurations: a, .. },
            AccessDecision::Granted { configurations: b, .. },
        ) => a == b,
        _ => same_decision(d1, d2),
    }
}

/// Two check outcomes are the same: the same error, or the same decision.
pub open spec fn same_outcome(r1: Result<AccessDecision>, r2: Result<AccessDecision>) -> bool {
    match (r1, r2) {
        (Ok(d1), Ok(d2)) => same_decision(d1, d2),
        (Err(SchubertError::PrincipalNotFound(a)), Err(SchubertError::PrincipalNotFound(b))) => a@ == b@,
        _ => false,
    }
}

proof fn lemma_principal_at(c: AccessController, i: int, pid: Seq<char>)
    requires
        c.wf(),
        0 <= i < c.roster().len(),
        c.roster()[i].id.0@ == pid,
    ensures
        has_principal(c.roster(), pid),
        principal_pos(c.roster(), pid) == i,
        principal_of(c.roster(), pid) == c.roster()[i],
{
    let ps = c.roster();
    assert(ps[i].id.0@ == pid);
    let q = choose|j: int| 0 <= j < ps.len() && #[trigger] ps[j].id.0@ == pid;
    assert(q == i);
}

proof fn lemma_filter_keeps_all(s: Seq<String>, id: Seq<char>)
    requires
        forall|i: int| 0 <= i < s.len() ==> (#[trigger] s[i])@ != id,
    ensures
        without_id(s, id) == s,
    decreases s.len(),
{
    if s.len() > 0 {
        let pred = crate::controller::other_than(id);
        lemma_filter_keeps_all(s.drop_last(), id);
        s.drop_last().lemma_filter_push(s.last(), pred);
        assert(s.drop_last().push(s.last()) =~= s);
    } else {
        reveal(Seq::filter);
    }
}

/// After a successful grant, the principal holds the capability.
pub proof fn law_grant_holds(before: AccessController, after: AccessController, pid: Seq<char>, cid: Seq<char>)
    requires
        before.wf(),
        after.wf(),
        grant_effect(before, after, pid, cid, Ok(())),
    ensures
        holds_in(after, pid, cid),
{
    let i = principal_pos(before.roster(), pid);
    let g = after.roster()[i].grants();
    assert(g.last().0 == cid);
    assert(g[g.len() - 1].0 == cid);
    lemma_principal_at(after, i, pid);
}

/// Granting a capability twice is semantically idempotent: the second grant
/// succeeds too and the principal still holds the capability.
pub proof fn law_grant_idempotent(
    before: AccessController,
    mid: AccessController,
    after: AccessController,
    pid: Seq<char>,
    cid: Seq<char>,
    second: Result<()>,
)
    requires
        before.wf(),
        mid.wf(),
        after.wf(),
        grant_effect(before, mid, pid, cid, Ok(())),
        grant_effect(mid, after, pid, cid, second),
    ensures
        second is Ok,
        holds_in(mid, pid, cid),
        holds_in(after, pid, cid),
{
    law_grant_holds(before, mid, pid, cid);
    let i = principal_pos(before.roster(), pid);
    lemma_principal_at(mid, i, pid);
    assert(has_principal(mid.roster(), pid));
    law_grant_holds(mid, after, pid, cid);
}

/// Granting a capability the principal does not hold and then revoking it
/// restores the controller: the revoke succeeds, the principal no longer
/// holds it, and every principal is as it was.
pub proof fn law_grant_revoke_identity(
    before: AccessController,
    mid: AccessController,
    after: AccessController,
    pid: Seq<char>,
    cid: Seq<char>,
    revoked: Result<()>,
)
    requires
        before.wf(),
        mid.wf(),
        after.wf(),
        !holds_in(before, pid, cid),
        grant_effect(before, mid, pid, cid, Ok(())),
        revoke_effect(mid, after, pid, cid, revoked),
    ensures
        revoked is Ok,
        !holds_in(after, pid, cid),
        after.gr() == before.gr(),
        after.registry() == before.registry(),
        after.roster().len() == before.roster().len(),
        forall|j: int| 0 <= j < before.roster().len() ==> same_principal(#[trigger] after.roster()[j], before.roster()[j]),
{
    let i = principal_pos(before.roster(), pid);
    lemma_principal_at(before, i, pid);
    lemma_principal_at(mid, i, pid);
    law_grant_holds(before, mid, pid, cid);
    assert(revoked is Ok);
    lemma_principal_at(after, i, pid);
    let p0 = before.roster()[i];
    let p1 = mid.roster()[i];
    let p2 = after.roster()[i];
    let g0 = p0.grants();
    assert(!holds_id(g0, cid));
    let ri = choose|ri: int| crate::engine::first_grant(p1.grants(), cid, ri) && p2.grants() == p1.grants().remove(ri);
    if ri < g0.len() {
        assert(p1.grants()[ri] == g0[ri]);
    }
    assert(ri == g0.len());
    assert(p2.grants() =~= g0);
    assert(principal_ok(p0, before.registry(), before.gr().0, before.gr().1));
    assert forall|t: int| 0 <= t < p0.granted_capability_ids@.len() implies (#[trigger] p0.granted_capability_ids@[t])@ != cid by {
        assert(holds_id(g0, p0.granted_capability_ids@[t]@));
    }
    lemma_filter_keeps_all(p0.granted_capability_ids@, cid);
    let pred = crate::controller::other_than(cid);
    assert(p1.granted_capability_ids@ =~= p0.granted_capability_ids@.push(p1.granted_capability_ids@.last()));
    p0.granted_capability_ids@.lemma_filter_push(p1.granted_capability_ids@.last(), pred);
    assert(p2.granted_capability_ids@ =~= p0.granted_capability_ids@);
    assert forall|j: int| 0 <= j < before.roster().len() implies same_principal(#[trigger] after.roster()[j], before.roster()[j]) by {
        if j != i {
            assert(after.roster()[j] == mid.roster()[j]);
            assert(mid.roster()[j] == before.roster()[j]);
        }
    }
}

/// Granting a capability and then revoking it leaves the principal holding
/// it exactly when it held it before: the revoke succeeds and takes back one
/// copy, so a capability held before is still held.
pub proof fn law_grant_revoke_holding(
    before: AccessController,
    mid: AccessController,
    after: AccessController,
    pid: Seq<char>,
    cid: Seq<char>,
    revoked: Result<()>,
)
    requires
        before.wf(),
        mid.wf(),
        after.wf(),
        grant_effect(before, mid, pid, cid, Ok(())),
        revoke_effect(mid, after, pid, cid, revoked),
    ensures
        revoked is Ok,
        holds_in(after, pid, cid) == holds_in(before, pid, cid),
{
    if !holds_in(before, pid, cid) {
        law_grant_revoke_identity(before, mid, after, pid, cid, revoked);
    } else {
        let i = principal_pos(before.roster(), pid);
        lemma_principal_at(before, i, pid);
        lemma_principal_at(mid, i, pid);
        law_grant_holds(before, mid, pid, cid);
        assert(revoked is Ok);
        lemma_principal_at(after, i, pid);
        let g0 = before.roster()[i].grants();
        let g1 = mid.roster()[i].grants();
        let g2 = after.roster()[i].grants();
        let t = choose|t: int| 0 <= t < g0.len() && #[trigger] g0[t].0 == cid;
        let ri = choose|ri: int| crate::engine::first_grant(g1, cid, ri) && g2 == g1.remove(ri);
        assert(g1[t] == g0[t]);
        assert(ri <= t);
        let last = g1.len() - 1;
        assert(g1[last].0 == cid);
        assert(g2[last - 1] == g1[last]);
        assert(holds_id(g2, cid));
    }
}

/// Checking the same requirements twice on the same controller gives the
/// same outcome.
pub proof fn law_check_idempotent(
    c: AccessController,
    pid: Seq<char>,
    required: Seq<Seq<char>>,
    path: ComputationPath,
    r1: Result<AccessDecision>,
    r2: Result<AccessDecision>,
)
    requires
        c.wf(),
        check_result(&c, pid, required, path, r1),
        check_result(&c, pid, required, path, r2),
    ensures
        same_outcome(r1, r2),
{
}

/// The Littlewood-Richardson and localization paths agree on every check,
/// apart from the path they report.
pub proof fn law_exact_paths_agree(
    c: AccessController,
    pid: Seq<char>,
    required: Seq<Seq<char>>,
    r1: Result<AccessDecision>,
    r2: Result<AccessDecision>,
)
    requires
        c.wf(),
        check_result(&c, pid, required, ComputationPath::LittlewoodRichardson, r1),
        check_result(&c, pid, required, ComputationPath::Localization, r2),
    ensures
        r1 is Ok == r2 is Ok,
        r1 matches Ok(d1) ==> (r2 matches Ok(d2) && same_but_path(d1, d2)),
{
}

/// Over-constrained access is denied: when the intersected codimensions
/// exceed the dimension k(n−k), every counting path denies.
pub proof fn law_overconstrained_denied(
    c: AccessController,
    pid: Seq<char>,
    required: Seq<Seq<char>>,
    path: ComputationPath,
    r: Result<AccessDecision>,
)
    requires
        c.wf(),
        path != ComputationPath::Matroid,
        has_principal(c.roster(), pid),
        total_codim(check_parts(c.registry(), principal_of(c.roster(), pid), required))
            > grassmannian_dim(c.gr().0 as nat, c.gr().1 as nat),
        check_result(&c, pid, required, path, r),
    ensures
        r == Result::<AccessDecision>::Ok(AccessDecision::Denied),
{
}

/// Under-constrained access reports the dimension left: when a principal
/// holds every required capability and the intersected codimensions fall
/// short of k(n−k) by `d`, every counting path answers
/// `Underconstrained { dimension: d }`.
pub proof fn law_underconstrained_dimension(
    c: AccessController,
    pid: Seq<char>,
    required: Seq<Seq<char>>,
    path: ComputationPath,
    r: Result<AccessDecision>,
)
    requires
        c.wf(),
        path != ComputationPath::Matroid,
        has_principal(c.roster(), pid),
        holds_all(principal_of(c.roster(), pid).grants(), required),
        total_codim(check_parts(c.registry(), principal_of(c.roster(), pid), required))
            < grassmannian_dim(c.gr().0 as nat, c.gr().1 as nat),
        check_result(&c, pid, required, path, r),
    ensures
        r == Result::<AccessDecision>::Ok(
            AccessDecision::Underconstrained {
                dimension: (grassmannian_dim(c.gr().0 as nat, c.gr().1 as nat) - total_codim(
                    check_parts(c.registry(), principal_of(c.roster(), pid), required),
                )) as usize,
            },
        ),
{
    assert(check_parts(c.registry(), principal_of(c.roster(), pid), required).len() > 0);
}

/// Grant order does not matter: granting `a` then `b` or `b` then `a` to a
/// principal leaves it holding the same capabilities, and every check on
/// either controller has the same outcome.
pub proof fn law_grant_order(
    c0: AccessController,
    c1: AccessController,
    c2: AccessController,
    d1: AccessController,
    d2: AccessController,
    pid: Seq<char>,
    a: Seq<char>,
    b: Seq<char>,
)
    requires
        c0.wf(),
        c1.wf(),
        c2.wf(),
        d1.wf(),
        d2.wf(),
        grant_effect(c0, c1, pid, a, Ok(())),
        grant_effect(c1, c2, pid, b, Ok(())),
        grant_effect(c0, d1, pid, b, Ok(())),
        grant_effect(d1, d2, pid, a, Ok(())),
    ensures
        forall|x: Seq<char>| holds_in(c2, pid, x) == holds_in(d2, pid, x),
        forall|required: Seq<Seq<char>>, path: ComputationPath, r1: Result<AccessDecision>, r2: Result<AccessDecision>|
            check_result(&c2, pid, required, path, r1) && check_result(&d2, pid, required, path, r2)
                ==> same_outcome(r1, r2),
{
    let i = principal_pos(c0.roster(), pid);
    lemma_principal_at(c0, i, pid);
    lemma_principal_at(c1, i, pid);
    lemma_principal_at(c2, i, pid);
    lemma_principal_at(d1, i, pid);
    lemma_principal_at(d2, i, pid);
    let g0 = c0.roster()[i].grants();
    let gc = c2.roster()[i].grants();
    let gd = d2.roster()[i].grants();
    assert forall|x: Seq<char>| holds_id(gc, x) == holds_id(gd, x) by {
        if holds_id(gc, x) {
            let w = choose|w: int| 0 <= w < gc.len() && #[trigger] gc[w].0 == x;
            if w < g0.len() {
                assert(gd[w] == gc[w]);
            } else if w == g0.len() {
                assert(gd[w + 1].0 == x);
            } else {
                assert(gd[w - 1].0 == x);
            }
        }
        if holds_id(gd, x) {
            let w = choose|w: int| 0 <= w < gd.len() && #[trigger] gd[w].0 == x;
            if w < g0.len() {
                assert(gc[w] == gd[w]);
            } else if w == g0.len() {
                assert(gc[w + 1].0 == x);
            } else {
                assert(gc[w - 1].0 == x);
            }
        }
    }
    assert forall|required: Seq<Seq<char>>, path: ComputationPath, r1: Result<AccessDecision>, r2: Result<AccessDecision>|
        check_result(&c2, pid, required, path, r1) && check_result(&d2, pid, required, path, r2)
            implies same_outcome(r1, r2) by {
        assert(holds_all(gc, required) == holds_all(gd, required)) by {
            if holds_all(gc, required) {
                assert forall|t: int| 0 <= t < required.len() implies holds_id(gd, #[trigger] required[t]) by {
                    assert(holds_id(gc, required[t]));
                }
            }
            if holds_all(gd, required) {
                assert forall|t: int| 0 <= t < required.len() implies holds_id(gc, #[trigger] required[t]) by {
                    assert(holds_id(gd, required[t]));
                }
            }
        }
        assert(check_parts(c2.registry(), c2.roster()[i], required) == check_parts(
            d2.registry(),
            d2.roster()[i],
            required,
        ));
    }
}


/// The codimension of the registered capabilities a list of identifiers
/// names.
pub open spec fn required_codim(reg: Seq<Capability>, r: Seq<Seq<char>>) -> nat
    decreases r.len(),
{
    if r.len() == 0 {
        0
    } else {
        required_codim(reg, r.drop_last()) + seq_sum(cap_of(reg, r.last()).partition@)
    }
}

/// The codimension a check intersects is the position's plus the required
/// capabilities'.
proof fn lemma_check_parts_codim(reg: Seq<Capability>, p: Principal, r: Seq<Seq<char>>)
    ensures
        total_codim(check_parts(reg, p, r)) == seq_sum(namespace_frame(p.namespace).2) + required_codim(reg, r),
    decreases r.len(),
{
    let parts = check_parts(reg, p, r);
    assert(parts.len() == r.len() + 1);
    if r.len() == 0 {
        assert(parts.drop_last() =~= Seq::<Seq<usize>>::empty());
        assert(parts.last() == namespace_frame(p.namespace).2);
        assert(total_codim(Seq::<Seq<usize>>::empty()) == 0);
        assert(total_codim(parts) == total_codim(parts.drop_last()) + seq_sum(parts.last()));
    } else {
        lemma_check_parts_codim(reg, p, r.drop_last());
        assert(parts.drop_last() =~= check_parts(reg, p, r.drop_last()));
        assert(parts.last() == cap_of(reg, r.last()).partition@);
        assert(total_codim(parts) == total_codim(parts.drop_last()) + seq_sum(parts.last()));
    }
}

/// Removing one identifier removes its codimension.
proof fn lemma_required_codim_remove(reg: Seq<Capability>, r: Seq<Seq<char>>, j: int)
    requires
        0 <= j < r.len(),
    ensures
        required_codim(reg, r) == required_codim(reg, r.remove(j)) + seq_sum(cap_of(reg, r[j]).partition@),
    decreases r.len(),
{
    if j == r.len() - 1 {
        assert(r.remove(j) =~= r.drop_last());
    } else {
        lemma_required_codim_remove(reg, r.drop_last(), j);
        assert(r.drop_last().remove(j) =~= r.remove(j).drop_last());
        assert(r.remove(j).last() == r.last());
    }
}

/// The codimension of the required capabilities does not depend on their
/// order.
proof fn lemma_required_codim_permutation(reg: Seq<Capability>, r1: Seq<Seq<char>>, r2: Seq<Seq<char>>)
    requires
        r1.to_multiset() == r2.to_multiset(),
    ensures
        required_codim(reg, r1) == required_codim(reg, r2),
    decreases r1.len(),
{
    broadcast use vstd::seq_lib::group_to_multiset_ensures;

    if r1.len() == 0 {
        assert(r2.to_multiset().len() == 0);
        assert(r2.len() == 0);
    } else {
        let x = r1.last();
        assert(r1.contains(x)) by {
            assert(r1[r1.len() - 1] == x);
        }
        assert(r2.to_multiset().count(x) > 0);
        assert(r2.contains(x));
        let j = choose|j: int| 0 <= j < r2.len() && r2[j] == x;
        assert(r1.drop_last() =~= r1.remove(r1.len() - 1));
        assert(r1.drop_last().to_multiset() == r1.to_multiset().remove(x));
        assert(r2.remove(j).to_multiset() == r2.to_multiset().remove(x));
        lemma_required_codim_permutation(reg, r1.drop_last(), r2.remove(j));
        lemma_required_codim_remove(reg, r2, j);
    }
}

/// Holding every required capability does not depend on their order.
proof fn lemma_holds_all_permutation(g: Seq<(Seq<char>, Seq<usize>, bool)>, r1: Seq<Seq<char>>, r2: Seq<Seq<char>>)
    requires
        r1.to_multiset() == r2.to_multiset(),
        holds_all(g, r1),
    ensures
        holds_all(g, r2),
{
    broadcast use vstd::seq_lib::group_to_multiset_ensures;

    assert forall|i: int| 0 <= i < r2.len() implies holds_id(g, #[trigger] r2[i]) by {
        assert(r2.contains(r2[i]));
        assert(r1.to_multiset().count(r2[i]) > 0);
        assert(r1.contains(r2[i]));
        let k = choose|k: int| 0 <= k < r1.len() && r1[k] == r2[i];
        assert(holds_id(g, r1[k]));
    }
}

/// Two check outcomes agree on everything but the intersection count: the
/// same error, both denied, both under-constrained with the same dimension,
/// or both a finite count (granted or impossible).
pub open spec fn same_shape(r1: Result<AccessDecision>, r2: Result<AccessDecision>) -> bool {
    match (r1, r2) {
        (Err(SchubertError::PrincipalNotFound(a)), Err(SchubertError::PrincipalNotFound(b))) => a@ == b@,
        (Ok(AccessDecision::Denied), Ok(AccessDecision::Denied)) => true,
        (Ok(AccessDecision::Underconstrained { dimension: a }), Ok(AccessDecision::Underconstrained { dimension: b })) =>
            a == b,
        (Ok(d1), Ok(d2)) => (d1 is Granted || d1 is Impossible) && (d2 is Granted || d2 is Impossible),
        _ => false,
    }
}

/// An access check does not depend on the order of the required
/// capabilities: on every counting path, checking a permutation of the
/// requirements gives the same error, denial or remaining dimension, and a
/// finite count exactly when the first order does. (The count itself is the
/// engine's, computed for the classes in the order given.)
pub proof fn law_check_permutation(
    c: AccessController,
    pid: Seq<char>,
    r1: Seq<Seq<char>>,
    r2: Seq<Seq<char>>,
    path: ComputationPath,
    d1: Result<AccessDecision>,
    d2: Result<AccessDecision>,
)
    requires
        c.wf(),
        path != ComputationPath::Matroid,
        r1.to_multiset() == r2.to_multiset(),
        check_result(&c, pid, r1, path, d1),
        check_result(&c, pid, r2, path, d2),
    ensures
        same_shape(d1, d2),
{
    if has_principal(c.roster(), pid) {
        let p = principal_of(c.roster(), pid);
        if holds_all(p.grants(), r1) {
            lemma_holds_all_permutation(p.grants(), r1, r2);
        }
        if holds_all(p.grants(), r2) {
            lemma_holds_all_permutation(p.grants(), r2, r1);
        }
        lemma_check_parts_codim(c.registry(), p, r1);
        lemma_check_parts_codim(c.registry(), p, r2);
        lemma_required_codim_permutation(c.registry(), r1, r2);
    }
}


/// A batch check answers each query as a single check does: for a known
/// principal, the same decision; for an unknown one, a denial where the
/// single check reports the unknown principal.
pub proof fn law_batch_matches_check(
    c: AccessController,
    pid: Seq<char>,
    required: Seq<Seq<char>>,
    batch: Result<AccessDecision>,
    single: Result<AccessDecision>,
)
    requires
        c.wf(),
        batch_result(&c, pid, required, batch),
        check_result(&c, pid, required, ComputationPath::LittlewoodRichardson, single),
    ensures
        has_principal(c.roster(), pid) ==> batch is Ok && single is Ok,
        has_principal(c.roster(), pid) ==> same_decision(batch->Ok_0, single->Ok_0),
        !has_principal(c.roster(), pid) ==> (batch == Result::<AccessDecision>::Ok(AccessDecision::Denied) && single
            is Err),
{
}

/// The matroid path: when the Schubert matroids of some consecutive pair of
/// intersected classes do not meet, access is impossible; when every
/// consecutive pair meets, the codimensions decide, as on the counting
/// paths for over- and under-constrained access: more than k(n−k) is
/// denied, less leaves the difference as the dimension, and exactly k(n−k)
/// is reported impossible, since matroids alone cannot count the points.
pub proof fn law_matroid_path(
    c: AccessController,
    pid: Seq<char>,
    required: Seq<Seq<char>>,
    r: Result<AccessDecision>,
)
    requires
        c.wf(),
        has_principal(c.roster(), pid),
        holds_all(principal_of(c.roster(), pid).grants(), required),
        check_result(&c, pid, required, ComputationPath::Matroid, r),
    ensures
        ({
            let parts = check_parts(c.registry(), principal_of(c.roster(), pid), required);
            let k = c.gr().0;
            let n = c.gr().1;
            let dim = k * (n - k);
            let total = total_codim(parts);
            &&& (exists|i: int|
                1 <= i < parts.len() && matroid_intersection_cardinality(
                    normal_form(#[trigger] parts[i - 1]),
                    normal_form(parts[i]),
                    k,
                    n,
                ) == 0) ==> (r matches Ok(AccessDecision::Impossible { conflicting }) && id_views(conflicting@)
                == required)
            &&& (forall|i: int|
                1 <= i < parts.len() ==> matroid_intersection_cardinality(
                    normal_form(#[trigger] parts[i - 1]),
                    normal_form(parts[i]),
                    k,
                    n,
                ) != 0) ==> {
                &&& total > dim ==> r == Result::<AccessDecision>::Ok(AccessDecision::Denied)
                &&& total == dim ==> (r matches Ok(AccessDecision::Impossible { conflicting }) && id_views(
                    conflicting@,
                ) == required)
                &&& total < dim ==> r == Result::<AccessDecision>::Ok(
                    AccessDecision::Underconstrained { dimension: (dim - total) as usize },
                )
            }
        }),
{
    let parts = check_parts(c.registry(), principal_of(c.roster(), pid), required);
    assert(parts.len() > 0);
    assert(grassmannian_dim(c.gr().0 as nat, c.gr().1 as nat) == c.gr().0 * (c.gr().1 - c.gr().0));
}

} // verus!
