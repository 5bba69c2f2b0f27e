//! Multi-Grassmannian access control.
//!
//! A [`MultiController`] manages several [`AccessController`]s, each in its
//! own Grassmannian Gr(k,n) and identified by a label. A capability from one
//! domain translates to another when its partition fits in the target's
//! k×(n−k) box.

use vstd::prelude::*;
use crate::capability::Capability;
use crate::controller::{
    cap_of, check_fits, check_result, grant_effect, has_cap, has_principal, holds_all,
    principal_created, principal_of, register_effect, AccessController,
};
use crate::decision::{decision_of, map_intersection_result, str_views, AccessDecision, ComputationPath};
use crate::engine::{
    class_partitions, engine_fits, first_exceeding, holds_id, lr_multi_intersect, lr_outcome,
    new_schubert_class, partition_accepted, partition_error_text, SchubertClass,
};
use crate::error::{framed, Result, SchubertError};
use crate::principal::PrincipalId;
use crate::util::{
    copy_string, decimal, decimal_string, grassmannian_dim, has_key, keyed, keys_unique,
    lemma_keyed_at, lemma_keyed_push, lemma_keyed_set, owned, seq_sum, str_eq, sum_within,
};

verus! {

/// The label of a domain entry.
pub open spec fn dkey() -> spec_fn((String, AccessController)) -> Seq<char> {
    |d: (String, AccessController)| d.0@
}

/// The controller of a domain entry.
pub open spec fn dval() -> spec_fn((String, AccessController)) -> AccessController {
    |d: (String, AccessController)| d.1
}

/// The Grassmannian of a label entry.
pub open spec fn lkey() -> spec_fn(((usize, usize), String)) -> (usize, usize) {
    |e: ((usize, usize), String)| e.0
}

/// The label of a label entry.
pub open spec fn lval() -> spec_fn(((usize, usize), String)) -> Seq<char> {
    |e: ((usize, usize), String)| e.1@
}

/// The label `add_domain` gives Gr(k,n): `gr{n}_{k}`.
pub open spec fn auto_label(k: usize, n: usize) -> Seq<char> {
    "gr"@ + decimal(n as nat) + "_"@ + decimal(k as nat)
}

/// The text of a lookup of an unknown domain, after its opening words.
pub open spec fn missing_domain_text(opening: Seq<char>, label: Seq<char>) -> Seq<char> {
    opening + label + "' not found"@
}

/// The partition fits in the k×(n−k) box of Gr(k,n): at most k parts, the
/// first at most n−k, and the codimension at most k(n−k).
pub open spec fn box_fits(p: Seq<usize>, k: usize, n: usize) -> bool {
    &&& p.len() <= k
    &&& (p.len() == 0 || p[0] <= n - k)
    &&& seq_sum(p) <= grassmannian_dim(k as nat, n as nat)
}

/// A cross-domain check stops at a capability whose partition does not fit
/// the target box (the empty partition fits every box).
pub open spec fn cross_blocked(p: Seq<usize>, k: usize, n: usize) -> bool {
    !box_fits(p, k, n)
}

/// `i` is the first capability a cross-domain check stops at: blocked, or
/// rejected by the target Grassmannian.
pub open spec fn cross_stop(ps: Seq<Seq<usize>>, k: usize, n: usize, i: int) -> bool {
    &&& 0 <= i < ps.len()
    &&& (cross_blocked(ps[i], k, n) || !partition_accepted(ps[i], k, n))
    &&& forall|j: int| 0 <= j < i ==> !cross_blocked(#[trigger] ps[j], k, n) && partition_accepted(ps[j], k, n)
}

/// The registered partitions of the required capabilities, in order.
pub open spec fn required_parts(reg: Seq<Capability>, required: Seq<Seq<char>>) -> Seq<Seq<usize>> {
    Seq::new(required.len(), |i: int| cap_of(reg, required[i]).partition@)
}

/// The classes a cross-domain check intersects: the identity position, then
/// each required partition.
pub open spec fn cross_parts(reg: Seq<Capability>, required: Seq<Seq<char>>) -> Seq<Seq<usize>> {
    seq![Seq::<usize>::empty()] + required_parts(reg, required)
}

/// What a cross-domain check returns: an error for an unknown domain or
/// principal, a denial when a required capability is not held, or at the
/// first one that does not translate to the target box, the target
/// Grassmannian's rejection of a translated partition, and otherwise the
/// Littlewood-Richardson decision in the target Grassmannian.
pub open spec fn cross_result(
    m: &MultiController,
    pid: Seq<char>,
    required: Seq<Seq<char>>,
    src: Seq<char>,
    tgt: Seq<char>,
    r: Result<AccessDecision>,
) -> bool {
    let dm = m.domain_map();
    if !dm.contains_key(src) {
        r matches Err(SchubertError::Generic(s)) && s@ == missing_domain_text("source domain '"@, src)
    } else if !dm.contains_key(tgt) {
        r matches Err(SchubertError::Generic(s)) && s@ == missing_domain_text("target domain '"@, tgt)
    } else {
        let source = dm[src];
        let k = dm[tgt].gr().0;
        let n = dm[tgt].gr().1;
        let ps = required_parts(source.registry(), required);
        if !has_principal(source.roster(), pid) {
            r matches Err(SchubertError::PrincipalNotFound(x)) && x@ == pid
        } else if !holds_all(principal_of(source.roster(), pid).grants(), required) {
            r == Result::<AccessDecision>::Ok(AccessDecision::Denied)
        } else if exists|i: int| cross_stop(ps, k, n, i) {
            let i = choose|i: int| cross_stop(ps, k, n, i);
            if cross_blocked(ps[i], k, n) {
                r == Result::<AccessDecision>::Ok(AccessDecision::Denied)
            } else {
                r matches Err(SchubertError::InvalidPartition { partition, k: ek, n: en, reason })
                    && partition@ == ps[i] && ek == k && en == n && exists|j: int|
                    first_exceeding(ps[i], (n - k) as nat, j) && reason@ == partition_error_text(
                        ps[i][j] as nat,
                        (n - k) as nat,
                    )
            }
        } else {
            r matches Ok(d) && decision_of(
                lr_outcome(cross_parts(source.registry(), required), k, n),
                required,
                ComputationPath::LittlewoodRichardson,
                d,
            )
        }
    }
}

/// A fully translated cross-domain check stays within the engine's
/// arithmetic in the target Grassmannian.
pub open spec fn cross_fits(
    m: &MultiController,
    required: Seq<Seq<char>>,
    src: Seq<char>,
    tgt: Seq<char>,
) -> bool {
    let dm = m.domain_map();
    dm.contains_key(src) && dm.contains_key(tgt) && (forall|i: int|
        0 <= i < required.len() ==> !cross_blocked(
            #[trigger] required_parts(dm[src].registry(), required)[i],
            dm[tgt].gr().0,
            dm[tgt].gr().1,
        ) && partition_accepted(required_parts(dm[src].registry(), required)[i], dm[tgt].gr().0, dm[tgt].gr().1))
        ==> engine_fits(cross_parts(dm[src].registry(), required), dm[tgt].gr().0, dm[tgt].gr().1)
}

/// The identifiers of the registered capabilities whose partitions fit the
/// k×(n−k) box, in registration order.
pub open spec fn translatable_ids(reg: Seq<Capability>, k: usize, n: usize) -> Seq<Seq<char>>
    decreases reg.len(),
{
    if reg.len() == 0 {
        Seq::empty()
    } else {
        let rest = translatable_ids(reg.drop_last(), k, n);
        if box_fits(reg.last().partition@, k, n) {
            rest.push(reg.last().id.0@)
        } else {
            rest
        }
    }
}

/// Whether the partition fits the k×(n−k) box of Gr(k,n).
fn fits_box(p: &[usize], k: usize, n: usize) -> (r: bool)
    requires
        k < n,
    ensures
        r == box_fits(p@, k, n),
{
    p.len() <= k && (p.len() == 0 || p[0] <= n - k) && crate::util::sum_within_dim(p, k, n)
}

/// When some capability is blocked or rejected, a cross-domain check has a
/// first stop.
proof fn lemma_first_stop(ps: Seq<Seq<usize>>, k: usize, n: usize, i: int)
    requires
        0 <= i < ps.len(),
        cross_blocked(ps[i], k, n) || !partition_accepted(ps[i], k, n),
    ensures
        exists|j: int| cross_stop(ps, k, n, j),
    decreases i,
{
    if exists|j: int| 0 <= j < i && (cross_blocked(#[trigger] ps[j], k, n) || !partition_accepted(ps[j], k, n)) {
        let j = choose|j: int| 0 <= j < i && (cross_blocked(#[trigger] ps[j], k, n) || !partition_accepted(ps[j], k, n));
        lemma_first_stop(ps, k, n, j);
    } else {
        assert(cross_stop(ps, k, n, i));
    }
}

/// A cross-domain check stops at one capability at most.
proof fn lemma_cross_stop_unique(ps: Seq<Seq<usize>>, k: usize, n: usize, i: int, j: int)
    requires
        cross_stop(ps, k, n, i),
        cross_stop(ps, k, n, j),
    ensures
        i == j,
{
    if i < j {
        assert(!cross_blocked(ps[i], k, n) && partition_accepted(ps[i], k, n));
    } else if j < i {
        assert(!cross_blocked(ps[j], k, n) && partition_accepted(ps[j], k, n));
    }
}

/// A capability a well-placed principal holds is registered.
proof fn lemma_held_registered(c: AccessController, pid: Seq<char>, id: Seq<char>)
    requires
        c.wf(),
        has_principal(c.roster(), pid),
        holds_id(principal_of(c.roster(), pid).grants(), id),
    ensures
        has_cap(c.registry(), id),
{
    let ps = c.roster();
    let i = choose|i: int| 0 <= i < ps.len() && #[trigger] ps[i].id.0@ == pid;
    let p = principal_of(ps, pid);
    assert(crate::controller::principal_ok(p, c.registry(), c.gr().0, c.gr().1));
    let g = choose|g: int| 0 <= g < p.grants().len() && #[trigger] p.grants()[g].0 == id;
    assert(has_cap(c.registry(), p.grants()[g].0));
}


/// Manages multiple access control domains, each in a different Grassmannian.
///
/// Domains are identified by a label (e.g. `"gr4_2"` for Gr(2,4)).
/// Principals, capabilities and grants are scoped to one domain; cross-domain
/// checks validate whether capabilities of one domain apply in another.
pub struct MultiController {
    domains: Vec<(String, AccessController)>,
    grassmannian_labels: Vec<((usize, usize), String)>,
}

impl MultiController {
    /// The domains, each label with its controller.
    pub closed spec fn domain_map(&self) -> Map<Seq<char>, AccessController> {
        keyed(self.domains@, dkey(), dval())
    }

    /// The label last given to each Grassmannian.
    pub closed spec fn label_map(&self) -> Map<(usize, usize), Seq<char>> {
        keyed(self.grassmannian_labels@, lkey(), lval())
    }

    /// Well-formedness: labels unique, every controller well formed, and the
    /// label of each Grassmannian names a domain of that Grassmannian.
    pub closed spec fn wf(&self) -> bool {
        &&& keys_unique(self.domains@, dkey())
        &&& keys_unique(self.grassmannian_labels@, lkey())
        &&& forall|i: int| 0 <= i < self.domains@.len() ==> (#[trigger] self.domains@[i]).1.wf()
        &&& forall|g: (usize, usize)| #[trigger] self.label_map().contains_key(g)
            ==> self.domain_map().contains_key(self.label_map()[g])
                && self.domain_map()[self.label_map()[g]].gr() == g
    }

    /// The label recorded for a Grassmannian always names a domain of that
    /// Grassmannian, whatever operations came before.
    pub proof fn law_label_names_domain(&self, k: usize, n: usize)
        requires
            self.wf(),
            self.label_map().contains_key((k, n)),
        ensures
            self.domain_map().contains_key(self.label_map()[(k, n)]),
            self.domain_map()[self.label_map()[(k, n)]].gr() == (k, n),
    {
    }

    /// Every domain's controller is well formed.
    pub proof fn lemma_domains_wf(&self, label: Seq<char>)
        requires
            self.wf(),
            self.domain_map().contains_key(label),
        ensures
            self.domain_map()[label].wf(),
    {
        let d = self.domains@;
        let i = choose|i: int| 0 <= i < d.len() && #[trigger] dkey()(d[i]) == label;
        lemma_keyed_at(d, dkey(), dval(), i);
    }

    /// Create a new empty multi-controller.
    pub fn new() -> (r: Self)
        ensures
            r.wf(),
            r.domain_map() == Map::<Seq<char>, AccessController>::empty(),
            r.label_map() == Map::<(usize, usize), Seq<char>>::empty(),
    {
        let r = MultiController { domains: Vec::new(), grassmannian_labels: Vec::new() };
        assert(r.domain_map() =~= Map::<Seq<char>, AccessController>::empty());
        assert(r.label_map() =~= Map::<(usize, usize), Seq<char>>::empty());
        r
    }

    /// Replacing one domain's controller by a well-formed one of the same
    /// Grassmannian keeps the multi-controller well formed and updates that
    /// domain alone.
    proof fn lemma_replaced(pre: &MultiController, post: &MultiController, i: int, x: (String, AccessController))
        requires
            pre.wf(),
            0 <= i < pre.domains@.len(),
            x.0@ == pre.domains@[i].0@,
            x.1.wf(),
            x.1.gr() == pre.domains@[i].1.gr(),
            post.domains@ == pre.domains@.update(i, x),
            post.grassmannian_labels@ == pre.grassmannian_labels@,
        ensures
            post.wf(),
            post.domain_map() == pre.domain_map().insert(x.0@, x.1),
            post.label_map() == pre.label_map(),
    {
        let d = pre.domains@;
        lemma_keyed_set(d, dkey(), dval(), i, x);
        lemma_keyed_at(d, dkey(), dval(), i);
        assert forall|j: int| 0 <= j < post.domains@.len() implies (#[trigger] post.domains@[j]).1.wf() by {
            if j != i {
                assert(post.domains@[j] == d[j]);
            }
        }
        assert(post.label_map() == pre.label_map());
        assert forall|g: (usize, usize)| #[trigger] post.label_map().contains_key(g) implies post.domain_map().contains_key(
            post.label_map()[g],
        ) && post.domain_map()[post.label_map()[g]].gr() == g by {
            assert(pre.label_map().contains_key(g));
        }
    }

    /// Create a principal in the domain with this label.
    pub fn create_principal(&mut self, id: &str, domain_label: &str) -> (r: Result<PrincipalId>)
        requires
            old(self).wf(),
        ensures
            final(self).wf(),
            final(self).label_map() == old(self).label_map(),
            !old(self).domain_map().contains_key(domain_label@) ==> (r matches Err(SchubertError::Generic(s))
                && s@ == missing_domain_text("domain '"@, domain_label@)) && final(self).domain_map()
                == old(self).domain_map(),
            old(self).domain_map().contains_key(domain_label@) ==> {
                let after = final(self).domain_map()[domain_label@];
                &&& final(self).domain_map() == old(self).domain_map().insert(domain_label@, after)
                &&& principal_created(old(self).domain_map()[domain_label@], after, id@, r)
            },
    {
        let ghost pre = *self;
        let i = match self.find_domain(domain_label) {
            None => {
                return Err(SchubertError::Generic(framed("domain '", &owned(domain_label), "' not found")));
            },
            Some(i) => i,
        };
        let (label, mut c) = self.domains.remove(i);
        proof {
            assert(pre.domains@[i as int] == (label, c));
            assert(c.wf()) by { assert(pre.domains@[i as int].1.wf()); }
        }
        let r = c.create_principal(id);
        self.domains.insert(i, (label, c));
        proof {
            assert(self.domains@ =~= pre.domains@.update(i as int, (label, c)));
            MultiController::lemma_replaced(&pre, self, i as int, (label, c));
        }
        r
    }

    /// Grant a capability to a principal in the domain with this label.
    pub fn grant_in_domain(&mut self, principal_id: &PrincipalId, capability_id: &str, domain_label: &str) -> (r: Result<()>)
        requires
            old(self).wf(),
        ensures
            final(self).wf(),
            final(self).label_map() == old(self).label_map(),
            !old(self).domain_map().contains_key(domain_label@) ==> (r matches Err(SchubertError::Generic(s))
                && s@ == missing_domain_text("domain '"@, domain_label@)) && final(self).domain_map()
                == old(self).domain_map(),
            old(self).domain_map().contains_key(domain_label@) ==> {
                let after = final(self).domain_map()[domain_label@];
                &&& final(self).domain_map() == old(self).domain_map().insert(domain_label@, after)
                &&& after.wf()
                &&& grant_effect(old(self).domain_map()[domain_label@], after, principal_id.0@, capability_id@, r)
            },
    {
        let ghost pre = *self;
        let i = match self.find_domain(domain_label) {
            None => {
                return Err(SchubertError::Generic(framed("domain '", &owned(domain_label), "' not found")));
            },
            Some(i) => i,
        };
        let (label, mut c) = self.domains.remove(i);
        proof {
            assert(pre.domains@[i as int] == (label, c));
            assert(c.wf()) by { assert(pre.domains@[i as int].1.wf()); }
        }
        let r = c.grant(principal_id, capability_id);
        self.domains.insert(i, (label, c));
        proof {
            assert(self.domains@ =~= pre.domains@.update(i as int, (label, c)));
            MultiController::lemma_replaced(&pre, self, i as int, (label, c));
        }
        r
    }

    /// Register a capability in the domain with this label.
    pub fn register_in_domain(&mut self, cap: Capability, domain_label: &str) -> (r: Result<()>)
        requires
            old(self).wf(),
        ensures
            final(self).wf(),
            final(self).label_map() == old(self).label_map(),
            !old(self).domain_map().contains_key(domain_label@) ==> (r matches Err(SchubertError::Generic(s))
                && s@ == missing_domain_text("domain '"@, domain_label@)) && final(self).domain_map()
                == old(self).domain_map(),
            old(self).domain_map().contains_key(domain_label@) ==> {
                let after = final(self).domain_map()[domain_label@];
                &&& final(self).domain_map() == old(self).domain_map().insert(domain_label@, after)
                &&& after.wf()
                &&& register_effect(old(self).domain_map()[domain_label@], after, cap, r)
            },
    {
        let ghost pre = *self;
        let i = match self.find_domain(domain_label) {
            None => {
                return Err(SchubertError::Generic(framed("domain '", &owned(domain_label), "' not found")));
            },
            Some(i) => i,
        };
        let (label, mut c) = self.domains.remove(i);
        proof {
            assert(pre.domains@[i as int] == (label, c));
            assert(c.wf()) by { assert(pre.domains@[i as int].1.wf()); }
        }
        let r = c.register_capability(cap);
        self.domains.insert(i, (label, c));
        proof {
            assert(self.domains@ =~= pre.domains@.update(i as int, (label, c)));
            MultiController::lemma_replaced(&pre, self, i as int, (label, c));
        }
        r
    }

    /// Check access within the domain with this label, on the
    /// Littlewood-Richardson path.
    pub fn check_in_domain(&self, principal_id: &PrincipalId, required: &[&str], domain_label: &str) -> (r: Result<AccessDecision>)
        requires
            self.wf(),
            self.domain_map().contains_key(domain_label@) ==> check_fits(
                &self.domain_map()[domain_label@],
                principal_id.0@,
                str_views(required@),
            ),
        ensures
            !self.domain_map().contains_key(domain_label@) ==> (r matches Err(SchubertError::Generic(s))
                && s@ == missing_domain_text("domain '"@, domain_label@)),
            self.domain_map().contains_key(domain_label@) ==> check_result(
                &self.domain_map()[domain_label@],
                principal_id.0@,
                str_views(required@),
                ComputationPath::LittlewoodRichardson,
                r,
            ),
    {
        match self.find_domain(domain_label) {
            None => {
                Err(SchubertError::Generic(framed("domain '", &owned(domain_label), "' not found")))
            },
            Some(i) => {
                proof {
                    assert(self.domains@[i as int].1.wf());
                }
                self.domains[i].1.check(principal_id, required)
            },
        }
    }

    /// The controller of the domain with this label, to change in place.
    pub fn domain_mut(&mut self, label: &str) -> (r: Option<&mut AccessController>)
        requires
            old(self).wf(),
        ensures
            (r is Some) == old(self).domain_map().contains_key(label@),
            r is None ==> *final(self) == *old(self),
            r matches Some(c) ==> *c == old(self).domain_map()[label@]
                && final(self).domain_map() == old(self).domain_map().insert(label@, *final(c))
                && final(self).label_map() == old(self).label_map(),
    {
        match self.find_domain(label) {
            None => None,
            Some(i) => {
                proof {
                    let d = self.domains@;
                    assert forall|x: AccessController| #[trigger] keyed(d.update(i as int, (d[i as int].0, x)), dkey(), dval())
                        == keyed(d, dkey(), dval()).insert(label@, x) by {
                        lemma_keyed_set(d, dkey(), dval(), i as int, (d[i as int].0, x));
                    }
                }
                Some(&mut self.domains[i].1)
            },
        }
    }

    /// Check whether a principal of one domain may access resources in
    /// another: the principal must hold every required capability in the
    /// source domain, and each one's partition must translate into the
    /// target Grassmannian's box; the translated classes are then intersected
    /// there, from the identity position.
    pub fn check_cross_domain(
        &self,
        principal_id: &PrincipalId,
        required: &[&str],
        source_domain: &str,
        target_domain: &str,
    ) -> (r: Result<AccessDecision>)
        requires
            self.wf(),
            cross_fits(self, str_views(required@), source_domain@, target_domain@),
        ensures
            cross_result(self, principal_id.0@, str_views(required@), source_domain@, target_domain@, r),
    {
        let ghost req = str_views(required@);
        let si = match self.find_domain(source_domain) {
            None => {
                return Err(SchubertError::Generic(framed("source domain '", &owned(source_domain), "' not found")));
            },
            Some(i) => i,
        };
        let ti = match self.find_domain(target_domain) {
            None => {
                return Err(SchubertError::Generic(framed("target domain '", &owned(target_domain), "' not found")));
            },
            Some(i) => i,
        };
        let source = &self.domains[si].1;
        let target = &self.domains[ti].1;
        proof {
            assert(self.domains@[si as int].1.wf());
            assert(self.domains@[ti as int].1.wf());
        }
        let principal = match source.principal(principal_id) {
            None => return Err(SchubertError::PrincipalNotFound(principal_id.to_string())),
            Some(p) => p,
        };
        let mut j: usize = 0;
        while j < required.len()
            invariant
                j <= required@.len(),
                req == str_views(required@),
                self.domain_map().contains_key(source_domain@),
                self.domain_map().contains_key(target_domain@),
                *source == self.domain_map()[source_domain@],
                has_principal(source.roster(), principal_id.0@),
                *principal == principal_of(source.roster(), principal_id.0@),
                forall|a: int| 0 <= a < j ==> holds_id(principal.grants(), #[trigger] req[a]),
            decreases required.len() - j,
        {
            if !principal.holds(required[j]) {
                assert(!holds_id(principal.grants(), req[j as int]));
                return Ok(AccessDecision::Denied);
            }
            j = j + 1;
        }
        let (tk, tn) = target.grassmannian();
        let ghost reg = source.registry();
        let ghost ps = required_parts(reg, req);
        let mut classes: Vec<SchubertClass> = Vec::new();
        match new_schubert_class(Vec::new(), tk, tn) {
            Ok(c) => classes.push(c),
            Err(m) => return Err(SchubertError::Enumerative(m)),
        }
        let mut j: usize = 0;
        while j < required.len()
            invariant
                self.wf(),
                source.wf(),
                target.wf(),
                self.domain_map().contains_key(source_domain@),
                self.domain_map().contains_key(target_domain@),
                *source == self.domain_map()[source_domain@],
                *target == self.domain_map()[target_domain@],
                (tk, tn) == target.gr(),
                *principal == principal_of(source.roster(), principal_id.0@),
                has_principal(source.roster(), principal_id.0@),
                holds_all(principal.grants(), req),
                j <= required@.len(),
                req == str_views(required@),
                reg == source.registry(),
                ps == required_parts(reg, req),
                class_partitions(classes@) == seq![Seq::<usize>::empty()] + ps.subrange(0, j as int),
                forall|a: int| 0 <= a < j ==> !cross_blocked(#[trigger] ps[a], tk, tn) && partition_accepted(ps[a], tk, tn),
            decreases required.len() - j,
        {
            proof {
                assert(holds_id(principal.grants(), req[j as int]));
                lemma_held_registered(*source, principal_id.0@, req[j as int]);
            }
            let cap = match source.capability(required[j]) {
                None => return Err(SchubertError::CapabilityNotFound(owned(required[j]))),
                Some(c) => c,
            };
            assert(cap.partition@ == ps[j as int]);
            let ok = fits_box(cap.partition.as_slice(), tk, tn);
            if !ok {
                proof {
                    assert(cross_stop(ps, tk, tn, j as int));
                    let c = choose|i: int| cross_stop(ps, tk, tn, i);
                    lemma_cross_stop_unique(ps, tk, tn, c, j as int);
                }
                return Ok(AccessDecision::Denied);
            }
            match cap.to_schubert_class((tk, tn)) {
                Err(e) => {
                    proof {
                        assert(cross_stop(ps, tk, tn, j as int));
                        let c = choose|i: int| cross_stop(ps, tk, tn, i);
                        lemma_cross_stop_unique(ps, tk, tn, c, j as int);
                    }
                    return Err(e);
                },
                Ok(c) => {
                    let ghost before = classes@;
                    classes.push(c);
                    proof {
                        assert(class_partitions(classes@) =~= class_partitions(before).push(ps[j as int]));
                        assert(ps.subrange(0, j + 1) =~= ps.subrange(0, j as int).push(ps[j as int]));
                        assert(class_partitions(classes@) =~= seq![Seq::<usize>::empty()] + ps.subrange(0, j + 1));
                    }
                },
            }
            j = j + 1;
        }
        proof {
            assert(ps.subrange(0, j as int) =~= ps);
            assert(class_partitions(classes@) =~= cross_parts(reg, req));
            assert(!exists|i: int| cross_stop(ps, tk, tn, i));
        }
        let result = lr_multi_intersect(classes.as_slice(), tk, tn);
        Ok(map_intersection_result(result, required, ComputationPath::LittlewoodRichardson))
    }

    /// The identifiers of the source domain's capabilities whose partitions
    /// fit the target Grassmannian's box, in registration order.
    pub fn translatable_capabilities(&self, source_domain: &str, target_domain: &str) -> (r: Result<Vec<String>>)
        requires
            self.wf(),
        ensures
            !self.domain_map().contains_key(source_domain@) ==> (r matches Err(SchubertError::Generic(s))
                && s@ == missing_domain_text("source domain '"@, source_domain@)),
            self.domain_map().contains_key(source_domain@) && !self.domain_map().contains_key(target_domain@)
                ==> (r matches Err(SchubertError::Generic(s)) && s@ == missing_domain_text("target domain '"@, target_domain@)),
            (r is Ok) == (self.domain_map().contains_key(source_domain@) && self.domain_map().contains_key(target_domain@)),
            r matches Ok(v) ==> crate::composition::string_views(v@) == translatable_ids(
                self.domain_map()[source_domain@].registry(),
                self.domain_map()[target_domain@].gr().0,
                self.domain_map()[target_domain@].gr().1,
            ),
    {
        let si = match self.find_domain(source_domain) {
            None => {
                return Err(SchubertError::Generic(framed("source domain '", &owned(source_domain), "' not found")));
            },
            Some(i) => i,
        };
        let ti = match self.find_domain(target_domain) {
            None => {
                return Err(SchubertError::Generic(framed("target domain '", &owned(target_domain), "' not found")));
            },
            Some(i) => i,
        };
        let source = &self.domains[si].1;
        let target = &self.domains[ti].1;
        proof {
            assert(self.domains@[ti as int].1.wf());
        }
        let (tk, tn) = target.grassmannian();
        let caps = source.capabilities();
        let ghost reg = source.registry();
        let mut out: Vec<String> = Vec::new();
        let mut i: usize = 0;
        while i < caps.len()
            invariant
                target.wf(),
                (tk, tn) == target.gr(),
                reg == source.registry(),
                caps@.len() == reg.len(),
                forall|a: int| 0 <= a < caps@.len() ==> *(#[trigger] caps@[a]) == reg[a],
                i <= caps@.len(),
                crate::composition::string_views(out@) == translatable_ids(reg.subrange(0, i as int), tk, tn),
            decreases caps.len() - i,
        {
            let cap = caps[i];
            proof {
                assert(reg.subrange(0, i + 1).drop_last() =~= reg.subrange(0, i as int));
                assert(reg.subrange(0, i + 1).last() == reg[i as int]);
            }
            if fits_box(cap.partition.as_slice(), tk, tn) {
                let ghost before = out@;
                out.push(cap.id.to_string());
                proof {
                    assert(crate::composition::string_views(out@) =~= crate::composition::string_views(before).push(
                        reg[i as int].id.0@,
                    ));
                }
            }
            i = i + 1;
        }
        proof {
            assert(reg.subrange(0, i as int) =~= reg);
        }
        Ok(out)
    }

    /// The index of the domain with this label.
    fn find_domain(&self, label: &str) -> (r: Option<usize>)
        requires
            self.wf(),
        ensures
            (r is Some) == self.domain_map().contains_key(label@),
            r matches Some(i) ==> i < self.domains@.len() && self.domains@[i as int].0@ == label@
                && self.domain_map()[label@] == self.domains@[i as int].1,
    {
        let mut i: usize = 0;
        while i < self.domains.len()
            invariant
                self.wf(),
                i <= self.domains@.len(),
                forall|j: int| 0 <= j < i ==> #[trigger] self.domains@[j].0@ != label@,
            decreases self.domains.len() - i,
        {
            if str_eq(self.domains[i].0.as_str(), label) {
                proof {
                    assert(dkey()(self.domains@[i as int]) == label@);
                    lemma_keyed_at(self.domains@, dkey(), dval(), i as int);
                }
                return Some(i);
            }
            i = i + 1;
        }
        proof {
            if has_key(self.domains@, dkey(), label@) {
                let j = choose|j: int| 0 <= j < self.domains@.len() && #[trigger] dkey()(self.domains@[j]) == label@;
                assert(self.domains@[j].0@ != label@);
            }
        }
        None
    }

    /// Add a domain for Gr(k,n) under a label of the caller's choosing.
    ///
    /// A label names one domain; the label becomes the one recorded for
    /// Gr(k,n), replacing an earlier one.
    pub fn add_domain_named(&mut self, k: usize, n: usize, label: &str) -> (r: Result<()>)
        requires
            old(self).wf(),
            k * (n - k) <= usize::MAX,
        ensures
            final(self).wf(),
            old(self).domain_map().contains_key(label@) ==> (r matches Err(SchubertError::Generic(s))
                && s@ == "domain '"@ + label@ + "' already exists"@),
            !old(self).domain_map().contains_key(label@) && !(k >= 1 && n >= 2 && k < n) ==> (r matches Err(
                SchubertError::InvalidGrassmannian { k: ek, n: en, reason },
            ) && ek == k && en == n && reason@ == "require k ≥ 1, n ≥ 2, k < n"@),
            (r is Ok) == (!old(self).domain_map().contains_key(label@) && k >= 1 && n >= 2 && k < n),
            r is Err ==> final(self).domain_map() == old(self).domain_map() && final(self).label_map()
                == old(self).label_map(),
            r is Ok ==> {
                let c = final(self).domain_map()[label@];
                &&& final(self).domain_map() == old(self).domain_map().insert(label@, c)
                &&& c.gr() == (k, n)
                &&& c.registry() == Seq::<Capability>::empty()
                &&& c.roster().len() == 0
                &&& final(self).label_map() == old(self).label_map().insert((k, n), label@)
            },
    {
        if self.find_domain(label).is_some() {
            return Err(SchubertError::Generic(framed("domain '", &owned(label), "' already exists")));
        }
        let controller = match AccessController::new(k, n) {
            Ok(c) => c,
            Err(e) => return Err(e),
        };
        let ghost before = self.domains@;
        let ghost lbefore = self.grassmannian_labels@;
        let ghost old_dm = self.domain_map();
        let ghost old_lm = self.label_map();
        let entry = (owned(label), controller);
        proof {
            lemma_keyed_push(before, dkey(), dval(), entry);
        }
        self.domains.push(entry);
        match self.find_label_in(k, n) {
            Some(j) => {
                let e = ((k, n), owned(label));
                proof {
                    lemma_keyed_set(lbefore, lkey(), lval(), j as int, e);
                }
                self.grassmannian_labels.set(j, e);
            },
            None => {
                let e = ((k, n), owned(label));
                proof {
                    lemma_keyed_push(lbefore, lkey(), lval(), e);
                }
                self.grassmannian_labels.push(e);
            },
        }
        proof {
            let d = self.domains@;
            assert forall|i: int| 0 <= i < d.len() implies (#[trigger] d[i]).1.wf() by {
                if i < before.len() {
                    assert(d[i] == before[i]);
                }
            }
            assert(self.domain_map() == old_dm.insert(label@, entry.1));
            assert(self.label_map() == old_lm.insert((k, n), label@));
            assert forall|g: (usize, usize)| #[trigger] self.label_map().contains_key(g) implies self.domain_map().contains_key(
                self.label_map()[g],
            ) && self.domain_map()[self.label_map()[g]].gr() == g by {
                if g != (k, n) {
                    assert(old_lm.contains_key(g));
                    assert(old_dm.contains_key(old_lm[g]));
                    assert(old_lm[g] != label@);
                }
            }
        }
        Ok(())
    }

    /// The index of the label entry of this Grassmannian, among the label
    /// entries alone.
    fn find_label_in(&self, k: usize, n: usize) -> (r: Option<usize>)
        requires
            keys_unique(self.grassmannian_labels@, lkey()),
        ensures
            (r is Some) == self.label_map().contains_key((k, n)),
            r matches Some(i) ==> i < self.grassmannian_labels@.len()
                && self.grassmannian_labels@[i as int].0 == (k, n),
    {
        let mut i: usize = 0;
        while i < self.grassmannian_labels.len()
            invariant
                i <= self.grassmannian_labels@.len(),
                forall|j: int| 0 <= j < i ==> #[trigger] self.grassmannian_labels@[j].0 != (k, n),
            decreases self.grassmannian_labels.len() - i,
        {
            let g = self.grassmannian_labels[i].0;
            if g.0 == k && g.1 == n {
                proof {
                    assert(lkey()(self.grassmannian_labels@[i as int]) == (k, n));
                }
                return Some(i);
            }
            i = i + 1;
        }
        proof {
            if has_key(self.grassmannian_labels@, lkey(), (k, n)) {
                let j = choose|j: int| 0 <= j < self.grassmannian_labels@.len()
                    && #[trigger] lkey()(self.grassmannian_labels@[j]) == (k, n);
                assert(self.grassmannian_labels@[j].0 != (k, n));
            }
        }
        None
    }

    /// Add a domain for Gr(k,n) labelled `gr{n}_{k}`, and return the label.
    pub fn add_domain(&mut self, k: usize, n: usize) -> (r: Result<String>)
        requires
            old(self).wf(),
            k * (n - k) <= usize::MAX,
        ensures
            final(self).wf(),
            old(self).domain_map().contains_key(auto_label(k, n)) ==> (r matches Err(
                SchubertError::Generic(s),
            ) && s@ == "domain '"@ + auto_label(k, n) + "' already exists"@),
            !old(self).domain_map().contains_key(auto_label(k, n)) && !(k >= 1 && n >= 2 && k < n) ==> (r matches Err(
                SchubertError::InvalidGrassmannian { k: ek, n: en, reason },
            ) && ek == k && en == n && reason@ == "require k ≥ 1, n ≥ 2, k < n"@),
            (r is Ok) == (!old(self).domain_map().contains_key(auto_label(k, n)) && k >= 1 && n >= 2 && k < n),
            r matches Ok(l) ==> l@ == auto_label(k, n),
            r is Err ==> final(self).domain_map() == old(self).domain_map() && final(self).label_map()
                == old(self).label_map(),
            r is Ok ==> {
                let c = final(self).domain_map()[auto_label(k, n)];
                &&& final(self).domain_map() == old(self).domain_map().insert(auto_label(k, n), c)
                &&& c.gr() == (k, n)
                &&& c.registry() == Seq::<Capability>::empty()
                &&& c.roster().len() == 0
                &&& final(self).label_map() == old(self).label_map().insert((k, n), auto_label(k, n))
            },
    {
        let mut label = String::from_str("gr");
        let ns = decimal_string(n);
        label.append(ns.as_str());
        label.append("_");
        let ks = decimal_string(k);
        label.append(ks.as_str());
        proof {
            reveal_strlit("gr");
            reveal_strlit("_");
        }
        assert(label@ == auto_label(k, n));
        match self.add_domain_named(k, n, label.as_str()) {
            Ok(()) => Ok(label),
            Err(e) => Err(e),
        }
    }

    /// The controller of the domain with this label.
    pub fn domain(&self, label: &str) -> (r: Option<&AccessController>)
        requires
            self.wf(),
        ensures
            (r is Some) == self.domain_map().contains_key(label@),
            r matches Some(c) ==> *c == self.domain_map()[label@],
    {
        match self.find_domain(label) {
            Some(i) => Some(&self.domains[i].1),
            None => None,
        }
    }

    /// All domain labels, each once.
    pub fn domain_labels(&self) -> (r: Vec<&str>)
        requires
            self.wf(),
        ensures
            str_views(r@).no_duplicates(),
            forall|l: Seq<char>| self.domain_map().contains_key(l) <==> str_views(r@).contains(l),
    {
        let mut out: Vec<&str> = Vec::new();
        let mut i: usize = 0;
        while i < self.domains.len()
            invariant
                self.wf(),
                i <= self.domains@.len(),
                out@.len() == i,
                forall|j: int| 0 <= j < i ==> (#[trigger] out@[j])@ == self.domains@[j].0@,
            decreases self.domains.len() - i,
        {
            out.push(self.domains[i].0.as_str());
            i = i + 1;
        }
        proof {
            let v = str_views(out@);
            let d = self.domains@;
            assert forall|a: int, b: int| 0 <= a < v.len() && 0 <= b < v.len() && a != b implies v[a] != v[b] by {
                assert(dkey()(d[a]) != dkey()(d[b]));
            }
            assert forall|l: Seq<char>| self.domain_map().contains_key(l) <==> v.contains(l) by {
                if self.domain_map().contains_key(l) {
                    let j = choose|j: int| 0 <= j < d.len() && #[trigger] dkey()(d[j]) == l;
                    assert(v[j] == l);
                }
                if v.contains(l) {
                    let j = choose|j: int| 0 <= j < v.len() && v[j] == l;
                    assert(dkey()(d[j]) == l);
                }
            }
        }
        out
    }

    /// The label recorded for Gr(k,n).
    pub fn label_for(&self, k: usize, n: usize) -> (r: Option<&str>)
        requires
            self.wf(),
        ensures
            (r is Some) == self.label_map().contains_key((k, n)),
            r matches Some(l) ==> l@ == self.label_map()[(k, n)],
    {
        match self.find_label(k, n) {
            Some(i) => Some(self.grassmannian_labels[i].1.as_str()),
            None => None,
        }
    }

    /// The labels of all domains whose k×(n−k) box holds the partition, each
    /// once.
    pub fn domains_for_partition(&self, partition: &[usize]) -> (r: Vec<String>)
        requires
            self.wf(),
        ensures
            crate::composition::string_views(r@).no_duplicates(),
            forall|l: Seq<char>| (self.domain_map().contains_key(l) && box_fits(
                partition@,
                self.domain_map()[l].gr().0,
                self.domain_map()[l].gr().1,
            )) <==> crate::composition::string_views(r@).contains(l),
    {
        let mut out: Vec<String> = Vec::new();
        let ghost mut taken: Seq<int> = Seq::empty();
        let mut i: usize = 0;
        while i < self.domains.len()
            invariant
                self.wf(),
                i <= self.domains@.len(),
                out@.len() == taken.len(),
                forall|t: int| 0 <= t < taken.len() ==> 0 <= #[trigger] taken[t] < i,
                forall|t: int, u: int| 0 <= t < u < taken.len() ==> #[trigger] taken[t] < #[trigger] taken[u],
                forall|t: int| 0 <= t < taken.len() ==> (#[trigger] out@[t])@ == self.domains@[taken[t]].0@,
                forall|j: int| 0 <= j < i ==> (box_fits(
                    partition@,
                    (#[trigger] self.domains@[j]).1.gr().0,
                    self.domains@[j].1.gr().1,
                ) <==> exists|t: int| 0 <= t < taken.len() && taken[t] == j),
            decreases self.domains.len() - i,
        {
            let (k, n) = self.domains[i].1.grassmannian();
            proof {
                assert(self.domains@[i as int].1.wf());
            }
            let fits = fits_box(partition, k, n);
            assert(fits == box_fits(partition@, self.domains@[i as int].1.gr().0, self.domains@[i as int].1.gr().1));
            let ghost old_taken = taken;
            if fits {
                out.push(copy_string(&self.domains[i].0));
                proof {
                    taken = taken.push(i as int);
                }
            }
            proof {
                assert forall|j: int| 0 <= j < i + 1 implies (box_fits(
                    partition@,
                    (#[trigger] self.domains@[j]).1.gr().0,
                    self.domains@[j].1.gr().1,
                ) <==> exists|t: int| 0 <= t < taken.len() && taken[t] == j) by {
                    if j == i && fits {
                        assert(taken[taken.len() - 1] == j);
                    } else if j < i {
                        if exists|t: int| 0 <= t < old_taken.len() && old_taken[t] == j {
                            let t = choose|t: int| 0 <= t < old_taken.len() && old_taken[t] == j;
                            assert(taken[t] == j);
                        }
                        if exists|t: int| 0 <= t < taken.len() && taken[t] == j {
                            let t = choose|t: int| 0 <= t < taken.len() && taken[t] == j;
                            assert(t < old_taken.len());
                            assert(old_taken[t] == j);
                        }
                    } else {
                        if exists|t: int| 0 <= t < taken.len() && taken[t] == j {
                            let t = choose|t: int| 0 <= t < taken.len() && taken[t] == j;
                            assert(taken[t] < i);
                        }
                    }
                }
            }
            i = i + 1;
        }
        proof {
            let v = crate::composition::string_views(out@);
            let d = self.domains@;
            assert forall|a: int, b: int| 0 <= a < v.len() && 0 <= b < v.len() && a != b implies v[a] != v[b] by {
                assert(taken[a] != taken[b]);
                assert(dkey()(d[taken[a]]) != dkey()(d[taken[b]]));
            }
            assert forall|l: Seq<char>| (self.domain_map().contains_key(l) && box_fits(
                partition@,
                self.domain_map()[l].gr().0,
                self.domain_map()[l].gr().1,
            )) <==> v.contains(l) by {
                if self.domain_map().contains_key(l) {
                    let j = choose|j: int| 0 <= j < d.len() && #[trigger] dkey()(d[j]) == l;
                    lemma_keyed_at(d, dkey(), dval(), j);
                    if box_fits(partition@, d[j].1.gr().0, d[j].1.gr().1) {
                        let t = choose|t: int| 0 <= t < taken.len() && taken[t] == j;
                        assert(v[t] == l);
                    }
                }
                if v.contains(l) {
                    let t = choose|t: int| 0 <= t < v.len() && v[t] == l;
                    let j = taken[t];
                    assert(dkey()(d[j]) == l);
                    lemma_keyed_at(d, dkey(), dval(), j);
                    assert(exists|u: int| 0 <= u < taken.len() && taken[u] == j);
                }
            }
        }
        out
    }

    /// The index of the label entry of this Grassmannian.
    fn find_label(&self, k: usize, n: usize) -> (r: Option<usize>)
        requires
            self.wf(),
        ensures
            (r is Some) == self.label_map().contains_key((k, n)),
            r matches Some(i) ==> i < self.grassmannian_labels@.len()
                && self.grassmannian_labels@[i as int].0 == (k, n)
                && self.label_map()[(k, n)] == self.grassmannian_labels@[i as int].1@,
    {
        let mut i: usize = 0;
        while i < self.grassmannian_labels.len()
            invariant
                self.wf(),
                i <= self.grassmannian_labels@.len(),
                forall|j: int| 0 <= j < i ==> #[trigger] self.grassmannian_labels@[j].0 != (k, n),
            decreases self.grassmannian_labels.len() - i,
        {
            let g = self.grassmannian_labels[i].0;
            if g.0 == k && g.1 == n {
                proof {
                    assert(lkey()(self.grassmannian_labels@[i as int]) == (k, n));
                    lemma_keyed_at(self.grassmannian_labels@, lkey(), lval(), i as int);
                }
                return Some(i);
            }
            i = i + 1;
        }
        proof {
            if has_key(self.grassmannian_labels@, lkey(), (k, n)) {
                let j = choose|j: int| 0 <= j < self.grassmannian_labels@.len()
                    && #[trigger] lkey()(self.grassmannian_labels@[j]) == (k, n);
                assert(self.grassmannian_labels@[j].0 != (k, n));
            }
        }
        None
    }
}


/// A cross-domain check answers anything but a denial only when every
/// required capability's partition fits the target's k×(n−k) box: it has at
/// most k parts, its first part is at most n−k and its codimension is at
/// most k(n−k). In particular a partition with more than k parts never
/// reaches the target Grassmannian: the check denies (or fails earlier).
pub proof fn law_cross_domain_needs_box(
    m: MultiController,
    pid: Seq<char>,
    required: Seq<Seq<char>>,
    src: Seq<char>,
    tgt: Seq<char>,
    r: Result<AccessDecision>,
    i: int,
)
    requires
        m.wf(),
        cross_result(&m, pid, required, src, tgt, r),
        r matches Ok(d) && d != AccessDecision::Denied,
        0 <= i < required.len(),
    ensures
        m.domain_map().contains_key(src),
        m.domain_map().contains_key(tgt),
        ({
            let p = required_parts(m.domain_map()[src].registry(), required)[i];
            let k = m.domain_map()[tgt].gr().0;
            let n = m.domain_map()[tgt].gr().1;
            &&& p.len() <= k
            &&& (p.len() == 0 || p[0] <= n - k)
            &&& seq_sum(p) <= k * (n - k)
        }),
{
    let dm = m.domain_map();
    let k = dm[tgt].gr().0;
    let n = dm[tgt].gr().1;
    let ps = required_parts(dm[src].registry(), required);
    m.lemma_domains_wf(tgt);
    assert(grassmannian_dim(k as nat, n as nat) == k * (n - k));
    assert(!exists|c: int| cross_stop(ps, k, n, c)) by {
        if exists|c: int| cross_stop(ps, k, n, c) {
            let c = choose|c: int| cross_stop(ps, k, n, c);
            assert(cross_blocked(ps[c], k, n) ==> r == Result::<AccessDecision>::Ok(AccessDecision::Denied));
        }
    }
    if cross_blocked(ps[i], k, n) {
        lemma_first_stop(ps, k, n, i);
    }
    assert(box_fits(ps[i], k, n));
}

/// The domains found for a partition are exactly the domains whose box
/// holds it: at most k parts, first part at most n−k, codimension at most
/// k(n−k).
pub proof fn law_domains_for_partition_box(
    m: MultiController,
    partition: Seq<usize>,
    r: Seq<Seq<char>>,
    l: Seq<char>,
)
    requires
        m.wf(),
        forall|x: Seq<char>| (m.domain_map().contains_key(x) && box_fits(
            partition,
            m.domain_map()[x].gr().0,
            m.domain_map()[x].gr().1,
        )) <==> #[trigger] r.contains(x),
    ensures
        r.contains(l) <==> ({
            let k = m.domain_map()[l].gr().0;
            let n = m.domain_map()[l].gr().1;
            &&& m.domain_map().contains_key(l)
            &&& partition.len() <= k
            &&& (partition.len() == 0 || partition[0] <= n - k)
            &&& seq_sum(partition) <= k * (n - k)
        }),
{
    if m.domain_map().contains_key(l) {
        m.lemma_domains_wf(l);
        assert(grassmannian_dim(m.domain_map()[l].gr().0 as nat, m.domain_map()[l].gr().1 as nat)
            == m.domain_map()[l].gr().0 * (m.domain_map()[l].gr().1 - m.domain_map()[l].gr().0));
    }
    assert(r.contains(l) <==> (m.domain_map().contains_key(l) && box_fits(
        partition,
        m.domain_map()[l].gr().0,
        m.domain_map()[l].gr().1,
    )));
}

/// The translatable capabilities are exactly the registered ones whose
/// partition fits the k×(n−k) box: at most k parts, first part at most n−k,
/// codimension at most k(n−k).
pub proof fn law_translatable_box(reg: Seq<Capability>, k: usize, n: usize, x: Seq<char>)
    requires
        k < n,
    ensures
        translatable_ids(reg, k, n).contains(x) <==> exists|i: int|
            0 <= i < reg.len() && (#[trigger] reg[i]).id.0@ == x && reg[i].partition@.len() <= k && (
            reg[i].partition@.len() == 0 || reg[i].partition@[0] <= n - k) && seq_sum(reg[i].partition@)
                <= k * (n - k),
    decreases reg.len(),
{
    if reg.len() > 0 {
        let rest = reg.drop_last();
        law_translatable_box(rest, k, n, x);
        let last = reg.last();
        assert(grassmannian_dim(k as nat, n as nat) == k * (n - k));
        assert forall|i: int| 0 <= i < rest.len() implies #[trigger] rest[i] == reg[i] by {}
        if translatable_ids(reg, k, n).contains(x) {
            if translatable_ids(rest, k, n).contains(x) {
                let i = choose|i: int|
                    0 <= i < rest.len() && (#[trigger] rest[i]).id.0@ == x && rest[i].partition@.len() <= k && (
                    rest[i].partition@.len() == 0 || rest[i].partition@[0] <= n - k) && seq_sum(rest[i].partition@)
                        <= k * (n - k);
                assert(reg[i] == rest[i]);
            } else {
                assert(box_fits(last.partition@, k, n));
                assert(translatable_ids(reg, k, n) == translatable_ids(rest, k, n).push(last.id.0@));
                assert(last.id.0@ == x);
                assert(reg[reg.len() - 1] == last);
            }
        } else {
            let t = translatable_ids(rest, k, n);
            assert(!t.contains(x)) by {
                if t.contains(x) {
                    let j = choose|j: int| 0 <= j < t.len() && t[j] == x;
                    if box_fits(last.partition@, k, n) {
                        assert(translatable_ids(reg, k, n) == t.push(last.id.0@));
                        assert(translatable_ids(reg, k, n)[j] == x);
                    }
                }
            }
            assert forall|i: int| 0 <= i < reg.len() && (#[trigger] reg[i]).id.0@ == x implies !(
            reg[i].partition@.len() <= k && (reg[i].partition@.len() == 0 || reg[i].partition@[0] <= n - k)
                && seq_sum(reg[i].partition@) <= k * (n - k)) by {
                if i < reg.len() - 1 {
                    assert(rest[i] == reg[i]);
                } else {
                    if box_fits(last.partition@, k, n) {
                        assert(translatable_ids(reg, k, n) == translatable_ids(rest, k, n).push(last.id.0@));
                        assert(translatable_ids(reg, k, n).last() == x);
                    }
                }
            }
        }
    }
}


/// A cross-domain check by a principal holding every required capability,
/// whose partitions all fit the target's box (at most k parts, first part
/// at most n−k, codimension at most k(n−k)) and are accepted there, answers
/// with the Littlewood-Richardson decision in the target Grassmannian.
pub proof fn law_cross_domain_translates(
    m: MultiController,
    pid: Seq<char>,
    required: Seq<Seq<char>>,
    src: Seq<char>,
    tgt: Seq<char>,
    r: Result<AccessDecision>,
)
    requires
        m.wf(),
        cross_result(&m, pid, required, src, tgt, r),
        m.domain_map().contains_key(src),
        m.domain_map().contains_key(tgt),
        has_principal(m.domain_map()[src].roster(), pid),
        holds_all(principal_of(m.domain_map()[src].roster(), pid).grants(), required),
        forall|i: int|
            0 <= i < required.len() ==> {
                let p = #[trigger] required_parts(m.domain_map()[src].registry(), required)[i];
                let k = m.domain_map()[tgt].gr().0;
                let n = m.domain_map()[tgt].gr().1;
                &&& p.len() <= k
                &&& (p.len() == 0 || p[0] <= n - k)
                &&& seq_sum(p) <= k * (n - k)
                &&& partition_accepted(p, k, n)
            },
    ensures
        r matches Ok(d) && decision_of(
            lr_outcome(cross_parts(m.domain_map()[src].registry(), required), m.domain_map()[tgt].gr().0, m.domain_map()[tgt].gr().1),
            required,
            ComputationPath::LittlewoodRichardson,
            d,
        ),
{
    let dm = m.domain_map();
    let k = dm[tgt].gr().0;
    let n = dm[tgt].gr().1;
    let ps = required_parts(dm[src].registry(), required);
    m.lemma_domains_wf(tgt);
    assert(grassmannian_dim(k as nat, n as nat) == k * (n - k));
    assert(!exists|c: int| cross_stop(ps, k, n, c)) by {
        if exists|c: int| cross_stop(ps, k, n, c) {
            let c = choose|c: int| cross_stop(ps, k, n, c);
            assert(box_fits(ps[c], k, n));
        }
    }
}

} // verus!
