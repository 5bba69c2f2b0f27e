//! Access controller managing principals, capabilities, and checks.
//!
//! The controller owns a fixed Grassmannian Gr(k,n), a registry of
//! capabilities (each identifier at most once) and the principals (each
//! identifier at most once). Every principal's namespace lives in the
//! controller's Grassmannian, at the identity position, and every
//! capability it holds was registered with the same partition.

use vstd::prelude::*;
use crate::audit::{AuditSink, DecisionRecord};
use crate::capability::{Capability, CapabilityId};
use crate::decision::{
    decision_of, ids_of, map_intersection_result, str_views, AccessDecision, ComputationPath,
};
use crate::engine::{
    all_plain, class_partitions, engine_fits, normal_form, normalize_partition, lemma_normal_form_bounded, first_grant, holds_id, localized_intersect,
    lr_multi_intersect, lr_outcome, matroid_intersection_cardinality, matroid_pair_cardinality,
    namespace_frame, namespace_grant, namespace_grants, namespace_list, namespace_position,
    namespace_revoke, new_namespace, partition_accepted, tropical_intersect, tropical_outcome,
    IntersectionResult, SchubertClass,
};
use crate::error::{Result, SchubertError};
use crate::principal::{now_millis, Principal, PrincipalId};
use crate::util::{copy_sizes, copy_string, grassmannian_dim, owned, parts_at_most, seq_sum, str_eq, total_codim};

verus! {

// ── Registry and roster model ─────────────────────────────────────────

/// Some registered capability has this identifier.
pub open spec fn has_cap(reg: Seq<Capability>, id: Seq<char>) -> bool {
    exists|i: int| 0 <= i < reg.len() && #[trigger] reg[i].id.0@ == id
}

/// The registered capability with this identifier.
pub open spec fn cap_of(reg: Seq<Capability>, id: Seq<char>) -> Capability {
    reg[choose|i: int| 0 <= i < reg.len() && #[trigger] reg[i].id.0@ == id]
}

/// No two registered capabilities share an identifier.
pub open spec fn unique_caps(reg: Seq<Capability>) -> bool {
    forall|i: int, j: int|
        0 <= i < reg.len() && 0 <= j < reg.len() && i != j ==> #[trigger] reg[i].id.0@
            != #[trigger] reg[j].id.0@
}

/// Some principal has this identifier.
pub open spec fn has_principal(ps: Seq<Principal>, id: Seq<char>) -> bool {
    exists|i: int| 0 <= i < ps.len() && #[trigger] ps[i].id.0@ == id
}

/// The index of the principal with this identifier.
pub open spec fn principal_pos(ps: Seq<Principal>, id: Seq<char>) -> int {
    choose|i: int| 0 <= i < ps.len() && #[trigger] ps[i].id.0@ == id
}

/// The principal with this identifier.
pub open spec fn principal_of(ps: Seq<Principal>, id: Seq<char>) -> Principal {
    ps[principal_pos(ps, id)]
}

/// No two principals share an identifier.
pub open spec fn unique_principals(ps: Seq<Principal>) -> bool {
    forall|i: int, j: int|
        0 <= i < ps.len() && 0 <= j < ps.len() && i != j ==> #[trigger] ps[i].id.0@
            != #[trigger] ps[j].id.0@
}

/// A principal is well placed in Gr(k,n) over a registry: its namespace is
/// at the identity position of Gr(k,n), carries no dependencies or
/// conflicts, each held capability was registered with the same partition,
/// which Gr(k,n) accepts, and each tracked identifier is held.
pub open spec fn principal_ok(p: Principal, reg: Seq<Capability>, k: usize, n: usize) -> bool {
    &&& namespace_frame(p.namespace) == (k, n, Seq::<usize>::empty())
    &&& all_plain(p.grants())
    &&& forall|i: int|
        0 <= i < p.grants().len() ==> {
            let g = #[trigger] p.grants()[i];
            &&& has_cap(reg, g.0)
            &&& cap_of(reg, g.0).partition@ == g.1
            &&& partition_accepted(g.1, k, n)
        }
    &&& forall|i: int|
        0 <= i < p.granted_capability_ids@.len() ==> holds_id(
            p.grants(),
            (#[trigger] p.granted_capability_ids@[i])@,
        )
}

/// Principal `new` is `old` with one more grant of `id` with `partition`,
/// tracked as well.
pub open spec fn granted_once(old: Principal, new: Principal, id: Seq<char>, partition: Seq<usize>) -> bool {
    &&& new.id == old.id
    &&& new.created_at == old.created_at
    &&& namespace_frame(new.namespace) == namespace_frame(old.namespace)
    &&& new.grants() == old.grants().push((id, partition, true))
    &&& new.granted_capability_ids@.len() == old.granted_capability_ids@.len() + 1
    &&& forall|i: int|
        0 <= i < old.granted_capability_ids@.len() ==> (#[trigger] new.granted_capability_ids@[i])
            == old.granted_capability_ids@[i]
    &&& new.granted_capability_ids@.last()@ == id
}

/// The tracked identifiers with every copy of `id` removed, in order.
pub open spec fn without_id(ids: Seq<String>, id: Seq<char>) -> Seq<String> {
    ids.filter(other_than(id))
}

/// The predicate of strings other than `id`.
pub open spec fn other_than(id: Seq<char>) -> spec_fn(String) -> bool {
    |s: String| s@ != id
}

/// Principal `new` is `old` with the first grant of `id` removed and every
/// tracked copy of `id` dropped.
pub open spec fn revoked_once(old: Principal, new: Principal, id: Seq<char>) -> bool {
    &&& new.id == old.id
    &&& new.created_at == old.created_at
    &&& namespace_frame(new.namespace) == namespace_frame(old.namespace)
    &&& exists|i: int| first_grant(old.grants(), id, i) && new.grants() == old.grants().remove(i)
    &&& new.granted_capability_ids@ == without_id(old.granted_capability_ids@, id)
}

/// What `grant` does: the capability is looked up first, then the
/// principal; on success the principal holds one more copy of it.
pub open spec fn grant_effect(
    before: AccessController,
    after: AccessController,
    pid: Seq<char>,
    cid: Seq<char>,
    r: Result<()>,
) -> bool {
    &&& after.gr() == before.gr()
    &&& after.registry() == before.registry()
    &&& !has_cap(before.registry(), cid) ==> (r matches Err(
        SchubertError::CapabilityNotFound(s),
    ) && s@ == cid)
    &&& has_cap(before.registry(), cid) && !has_principal(
        before.roster(),
        pid,
    ) ==> (r matches Err(SchubertError::PrincipalNotFound(s)) && s@ == pid)
    &&& has_cap(before.registry(), cid) && has_principal(
        before.roster(),
        pid,
    ) && !partition_accepted(
        cap_of(before.registry(), cid).partition@,
        before.gr().0,
        before.gr().1,
    ) ==> (r matches Err(SchubertError::Enumerative(_)))
    &&& (r is Ok) == (has_cap(before.registry(), cid) && has_principal(
        before.roster(),
        pid,
    ) && partition_accepted(
        cap_of(before.registry(), cid).partition@,
        before.gr().0,
        before.gr().1,
    ))
    &&& r is Err ==> after.roster() == before.roster()
    &&& r is Ok ==> {
        let i = principal_pos(before.roster(), pid);
        &&& after.roster().len() == before.roster().len()
        &&& forall|j: int|
            0 <= j < before.roster().len() && j != i ==> #[trigger] after.roster()[j]
                == before.roster()[j]
        &&& granted_once(
            before.roster()[i],
            after.roster()[i],
            cid,
            cap_of(before.registry(), cid).partition@,
        )
    }
}

/// What `revoke` does: on success the first copy of the capability leaves
/// the principal's namespace and every tracked copy is dropped.
pub open spec fn revoke_effect(
    before: AccessController,
    after: AccessController,
    pid: Seq<char>,
    cid: Seq<char>,
    r: Result<()>,
) -> bool {
    &&& after.gr() == before.gr()
    &&& after.registry() == before.registry()
    &&& !has_principal(before.roster(), pid) ==> (r matches Err(
        SchubertError::PrincipalNotFound(s),
    ) && s@ == pid)
    &&& has_principal(before.roster(), pid) && !holds_id(
        principal_of(before.roster(), pid).grants(),
        cid,
    ) ==> (r matches Err(SchubertError::CapabilityNotHeld { principal, capability })
        && principal@ == pid && capability@ == cid)
    &&& (r is Ok) == (has_principal(before.roster(), pid) && holds_id(
        principal_of(before.roster(), pid).grants(),
        cid,
    ))
    &&& r is Err ==> after.roster() == before.roster()
    &&& r is Ok ==> {
        let i = principal_pos(before.roster(), pid);
        &&& after.roster().len() == before.roster().len()
        &&& forall|j: int|
            0 <= j < before.roster().len() && j != i ==> #[trigger] after.roster()[j]
                == before.roster()[j]
        &&& revoked_once(before.roster()[i], after.roster()[i], cid)
    }
}

/// What `register_capability` does: an identifier is registered once, with
/// a partition the Grassmannian accepts; on success the capability is
/// appended to the registry.
pub open spec fn register_effect(
    before: AccessController,
    after: AccessController,
    cap: Capability,
    r: Result<()>,
) -> bool {
    &&& after.gr() == before.gr()
    &&& after.roster() == before.roster()
    &&& has_cap(before.registry(), cap.id.0@) ==> (r matches Err(
        SchubertError::CapabilityExists(s),
    ) && s@ == cap.id.0@)
    &&& !has_cap(before.registry(), cap.id.0@) && !partition_accepted(
        cap.partition@,
        before.gr().0,
        before.gr().1,
    ) ==> (r matches Err(SchubertError::InvalidPartition { partition, k, n, .. })
        && partition@ == cap.partition@ && k == before.gr().0 && n == before.gr().1)
    &&& (r is Ok) == (!has_cap(before.registry(), cap.id.0@) && partition_accepted(
        cap.partition@,
        before.gr().0,
        before.gr().1,
    ))
    &&& r is Ok ==> after.registry() == before.registry().push(cap)
    &&& r is Err ==> after.registry() == before.registry()
}

/// What `create_principal` does: an identifier names one principal; on
/// success a principal with no capabilities is appended to the roster.
pub open spec fn principal_created(
    before: AccessController,
    after: AccessController,
    id: Seq<char>,
    r: Result<PrincipalId>,
) -> bool {
    &&& after.gr() == before.gr()
    &&& after.registry() == before.registry()
    &&& (r is Ok) == !has_principal(before.roster(), id)
    &&& r matches Err(e) ==> (e matches SchubertError::PrincipalExists(s) && s@ == id)
    &&& r is Err ==> after.roster() == before.roster()
    &&& r matches Ok(pid) ==> pid.0@ == id && after.roster().len() == before.roster().len() + 1
        && after.roster().drop_last() == before.roster() && {
        let p = after.roster().last();
        &&& p.id.0@ == id
        &&& p.grants() == Seq::<(Seq<char>, Seq<usize>, bool)>::empty()
        &&& p.granted_capability_ids@ == Seq::<String>::empty()
    }
}

/// The intersection an admitted check computes stays within the engine's
/// arithmetic.
pub open spec fn check_fits(c: &AccessController, pid: Seq<char>, required: Seq<Seq<char>>) -> bool {
    has_principal(c.roster(), pid) && holds_all(principal_of(c.roster(), pid).grants(), required)
        ==> engine_fits(check_parts(c.registry(), principal_of(c.roster(), pid), required), c.gr().0, c.gr().1)
}

/// Access controller for quantitative capability-based authorization.
///
/// Manages principals, capabilities, and access decisions within a fixed
/// Grassmannian Gr(k,n).
pub struct AccessController {
    grassmannian: (usize, usize),
    capabilities: Vec<Capability>,
    principals: Vec<Principal>,
    audit_sink: Option<Box<dyn AuditSink>>,
}

impl AccessController {
    /// The Grassmannian (k, n).
    pub closed spec fn gr(&self) -> (usize, usize) {
        self.grassmannian
    }

    /// The registered capabilities.
    pub closed spec fn registry(&self) -> Seq<Capability> {
        self.capabilities@
    }

    /// The principals.
    pub closed spec fn roster(&self) -> Seq<Principal> {
        self.principals@
    }

    /// The installed audit sink, if any.
    pub closed spec fn sink(&self) -> Option<Box<dyn AuditSink>> {
        self.audit_sink
    }

    /// Well-formedness: 1 ≤ k < n with k(n−k) representable, identifiers
    /// unique, and every principal well placed.
    pub open spec fn wf(&self) -> bool {
        let (k, n) = self.gr();
        &&& 1 <= k < n
        &&& unique_caps(self.registry())
        &&& unique_principals(self.roster())
        &&& forall|i: int|
            0 <= i < self.roster().len() ==> principal_ok(
                #[trigger] self.roster()[i],
                self.registry(),
                k,
                n,
            )
    }

    /// Create a new access controller for Gr(k,n); requires k ≥ 1, n ≥ 2, k < n.
    pub fn new(k: usize, n: usize) -> (r: Result<Self>)
        ensures
            (r is Ok) == (k >= 1 && n >= 2 && k < n),
            r matches Ok(c) ==> c.wf() && c.gr() == (k, n) && c.registry() == Seq::<
                Capability,
            >::empty() && c.roster() == Seq::<Principal>::empty(),
            r matches Err(e) ==> e matches SchubertError::InvalidGrassmannian { k: ek, n: en, reason }
                && ek == k && en == n && reason@ == "require k ≥ 1, n ≥ 2, k < n"@,
    {
        if k == 0 || n < 2 || k >= n {
            return Err(
                SchubertError::InvalidGrassmannian {
                    k,
                    n,
                    reason: owned("require k ≥ 1, n ≥ 2, k < n"),
                },
            );
        }
        let c = AccessController {
            grassmannian: (k, n),
            capabilities: Vec::new(),
            principals: Vec::new(),
            audit_sink: None,
        };
        Ok(c)
    }

    /// A controller over Gr(k,n) with the given registry and principals,
    /// which must already be well placed.
    pub(crate) fn from_parts(k: usize, n: usize, capabilities: Vec<Capability>, principals: Vec<Principal>) -> (r: Self)
        requires
            1 <= k < n,
            grassmannian_dim(k as nat, n as nat) <= usize::MAX,
            unique_caps(capabilities@),
            unique_principals(principals@),
            forall|i: int| 0 <= i < principals@.len() ==> principal_ok(#[trigger] principals@[i], capabilities@, k, n),
        ensures
            r.wf(),
            r.gr() == (k, n),
            r.registry() == capabilities@,
            r.roster() == principals@,
    {
        AccessController { grassmannian: (k, n), capabilities, principals, audit_sink: None }
    }

    /// Return the Grassmannian parameters Gr(k,n).
    pub fn grassmannian(&self) -> (r: (usize, usize))
        ensures
            r == self.gr(),
    {
        self.grassmannian
    }

    /// Install an audit sink for recording access decisions.
    ///
    /// The sink receives every decision made by a check; its failures never
    /// affect access decisions.
    pub fn set_audit_sink(&mut self, sink: Box<dyn AuditSink>)
        ensures
            final(self).gr() == old(self).gr(),
            final(self).registry() == old(self).registry(),
            final(self).roster() == old(self).roster(),
            final(self).sink() == Some(sink),
    {
        let installed = Some(sink);
        self.audit_sink = installed;
    }

    /// The index of the registered capability with this identifier.
    fn find_capability(&self, id: &str) -> (r: Option<usize>)
        ensures
            r matches Some(i) ==> i < self.registry().len() && self.registry()[i as int].id.0@ == id@,
            r is None ==> !has_cap(self.registry(), id@),
    {
        let mut i: usize = 0;
        while i < self.capabilities.len()
            invariant
                i <= self.capabilities@.len(),
                forall|j: int| 0 <= j < i ==> #[trigger] self.capabilities@[j].id.0@ != id@,
            decreases self.capabilities.len() - i,
        {
            if str_eq(self.capabilities[i].id.0.as_str(), id) {
                return Some(i);
            }
            i = i + 1;
        }
        None
    }

    /// The index of the principal with this identifier.
    fn find_principal(&self, id: &str) -> (r: Option<usize>)
        ensures
            r matches Some(i) ==> i < self.roster().len() && self.roster()[i as int].id.0@ == id@,
            r is None ==> !has_principal(self.roster(), id@),
    {
        let mut i: usize = 0;
        while i < self.principals.len()
            invariant
                i <= self.principals@.len(),
                forall|j: int| 0 <= j < i ==> #[trigger] self.principals@[j].id.0@ != id@,
            decreases self.principals.len() - i,
        {
            if str_eq(self.principals[i].id.0.as_str(), id) {
                return Some(i);
            }
            i = i + 1;
        }
        proof {
            if has_principal(self.roster(), id@) {
                let j = choose|j: int| 0 <= j < self.roster().len() && #[trigger] self.roster()[j].id.0@ == id@;
                assert(self.principals@[j].id.0@ != id@);
            }
        }
        None
    }

    // ── Capability registry ────────────────────────────────────────

    /// Register a capability. The partition is validated against the
    /// Grassmannian; an identifier can be registered once.
    pub fn register_capability(&mut self, cap: Capability) -> (r: Result<()>)
        requires
            old(self).wf(),
        ensures
            final(self).wf(),
            register_effect(*old(self), *final(self), cap, r),
    {
        if self.find_capability(cap.id.0.as_str()).is_some() {
            return Err(SchubertError::CapabilityExists(cap.id.to_string()));
        }
        match cap.to_schubert_class(self.grassmannian) {
            Err(e) => Err(e),
            Ok(_) => {
                let ghost old_reg = self.capabilities@;
                self.capabilities.push(cap);
                proof {
                    let reg = self.capabilities@;
                    assert forall|i: int| 0 <= i < reg.len() - 1 implies reg[i] == old_reg[i] by {}
                    assert forall|id: Seq<char>| has_cap(old_reg, id) implies has_cap(reg, id)
                        && cap_of(reg, id) == cap_of(old_reg, id) by {
                        let j = choose|j: int| 0 <= j < old_reg.len() && #[trigger] old_reg[j].id.0@ == id;
                        assert(reg[j].id.0@ == id);
                        let c = choose|i: int| 0 <= i < reg.len() && #[trigger] reg[i].id.0@ == id;
                        let d = choose|i: int| 0 <= i < old_reg.len() && #[trigger] old_reg[i].id.0@ == id;
                        assert(c == d);
                    }
                    assert forall|i: int| 0 <= i < self.principals@.len() implies principal_ok(
                        #[trigger] self.principals@[i],
                        reg,
                        self.grassmannian.0,
                        self.grassmannian.1,
                    ) by {
                        let p = self.principals@[i];
                        assert(principal_ok(p, old_reg, self.grassmannian.0, self.grassmannian.1));
                        assert forall|g: int| 0 <= g < p.grants().len() implies {
                            let x = #[trigger] p.grants()[g];
                            &&& has_cap(reg, x.0)
                            &&& cap_of(reg, x.0).partition@ == x.1
                            &&& partition_accepted(x.1, self.grassmannian.0, self.grassmannian.1)
                        } by {
                            let x = p.grants()[g];
                            assert(has_cap(old_reg, x.0));
                        }
                    }
                }
                Ok(())
            },
        }
    }

    // ── Principal management ───────────────────────────────────────

    /// Create a new principal with no granted capabilities, at the identity
    /// position (empty partition) of the Grassmannian.
    pub fn create_principal(&mut self, id: &str) -> (r: Result<PrincipalId>)
        requires
            old(self).wf(),
        ensures
            final(self).wf(),
            principal_created(*old(self), *final(self), id@, r),
    {
        if self.find_principal(id).is_some() {
            return Err(SchubertError::PrincipalExists(owned(id)));
        }
        let p = match Principal::new(id, self.grassmannian.0, self.grassmannian.1) {
            Ok(p) => p,
            Err(e) => return Err(e),
        };
        let ghost old_ps = self.principals@;
        self.principals.push(p);
        proof {
            let ps = self.principals@;
            assert(ps.drop_last() =~= old_ps);
            assert forall|i: int, j: int|
                0 <= i < ps.len() && 0 <= j < ps.len() && i != j implies #[trigger] ps[i].id.0@
                != #[trigger] ps[j].id.0@ by {
                if i < old_ps.len() && j < old_ps.len() {
                    assert(old_ps[i] == ps[i] && old_ps[j] == ps[j]);
                } else if i < old_ps.len() {
                    assert(old_ps[i].id.0@ != id@);
                } else {
                    assert(old_ps[j].id.0@ != id@);
                }
            }
            assert forall|i: int| 0 <= i < ps.len() implies principal_ok(
                #[trigger] ps[i],
                self.capabilities@,
                self.grassmannian.0,
                self.grassmannian.1,
            ) by {
                if i < old_ps.len() {
                    assert(old_ps[i] == ps[i]);
                }
            }
        }
        Ok(PrincipalId::new(id))
    }

    /// Grant a registered capability to a principal.
    ///
    /// The capability is looked up first, then the principal. Granting a
    /// capability the principal already holds adds a second copy.
    pub fn grant(&mut self, principal_id: &PrincipalId, capability_id: &str) -> (r: Result<()>)
        requires
            old(self).wf(),
        ensures
            final(self).wf(),
            final(self).gr() == old(self).gr(),
            final(self).registry() == old(self).registry(),
            grant_effect(*old(self), *final(self), principal_id.0@, capability_id@, r),
    {
        let ci = match self.find_capability(capability_id) {
            None => return Err(SchubertError::CapabilityNotFound(owned(capability_id))),
            Some(i) => i,
        };
        let pi = match self.find_principal(principal_id.as_str()) {
            None => return Err(SchubertError::PrincipalNotFound(principal_id.to_string())),
            Some(i) => i,
        };
        proof {
            let reg = self.capabilities@;
            let c = choose|i: int| 0 <= i < reg.len() && #[trigger] reg[i].id.0@ == capability_id@;
            assert(c == ci);
            let ps = self.principals@;
            let q = choose|i: int| 0 <= i < ps.len() && #[trigger] ps[i].id.0@ == principal_id.0@;
            assert(q == pi);
        }
        let (k, n) = self.grassmannian;
        let partition = copy_sizes(&self.capabilities[ci].partition);
        match crate::engine::new_schubert_class(copy_sizes(&partition), k, n) {
            Err(reason) => return Err(SchubertError::Enumerative(reason)),
            Ok(_) => {},
        }
        let ghost old_ps = self.principals@;
        let ghost old_p = self.principals@[pi as int];
        assert(principal_ok(old_p, self.capabilities@, k, n));
        let label = copy_string(&self.capabilities[ci].label);
        let p = &mut self.principals[pi];
        let granted = namespace_grant(&mut p.namespace, capability_id, label.as_str(), &partition);
        if granted.is_err() {
            return Err(SchubertError::Enumerative(owned("namespace refused the grant")));
        }
        p.granted_capability_ids.push(owned(capability_id));
        proof {
            let ps = self.principals@;
            let np = ps[pi as int];
            let reg = self.capabilities@;
            assert(granted_once(old_p, np, capability_id@, partition@));
            assert forall|j: int| 0 <= j < ps.len() && j != pi implies #[trigger] ps[j] == old_ps[j] by {}
            assert forall|i: int, j: int|
                0 <= i < ps.len() && 0 <= j < ps.len() && i != j implies #[trigger] ps[i].id.0@
                != #[trigger] ps[j].id.0@ by {
                assert(old_ps[i].id == ps[i].id && old_ps[j].id == ps[j].id);
            }
            assert(principal_ok(np, reg, k, n)) by {
                assert forall|g: int| 0 <= g < np.grants().len() implies {
                    let x = #[trigger] np.grants()[g];
                    &&& has_cap(reg, x.0)
                    &&& cap_of(reg, x.0).partition@ == x.1
                    &&& partition_accepted(x.1, k, n)
                } by {
                    if g < old_p.grants().len() {
                        assert(np.grants()[g] == old_p.grants()[g]);
                    } else {
                        assert(reg[ci as int].id.0@ == capability_id@);
                        let c = choose|i: int| 0 <= i < reg.len() && #[trigger] reg[i].id.0@ == capability_id@;
                        assert(c == ci);
                    }
                }
                assert forall|t: int| 0 <= t < np.granted_capability_ids@.len() implies holds_id(
                    np.grants(),
                    (#[trigger] np.granted_capability_ids@[t])@,
                ) by {
                    if t < old_p.granted_capability_ids@.len() {
                        assert(np.granted_capability_ids@[t] == old_p.granted_capability_ids@[t]);
                        let w = choose|w: int| 0 <= w < old_p.grants().len() && #[trigger] old_p.grants()[w].0
                            == old_p.granted_capability_ids@[t]@;
                        assert(np.grants()[w] == old_p.grants()[w]);
                    } else {
                        let last = old_p.grants().len() as int;
                        assert(np.grants()[last].0 == capability_id@);
                    }
                }
            }
            assert forall|i: int| 0 <= i < ps.len() implies principal_ok(
                #[trigger] ps[i],
                reg,
                k,
                n,
            ) by {
                if i != pi {
                    assert(ps[i] == old_ps[i]);
                }
            }
        }
        Ok(())
    }

    /// Revoke a capability from a principal: its first copy leaves the
    /// namespace and every tracked copy of the identifier is dropped.
    pub fn revoke(&mut self, principal_id: &PrincipalId, capability_id: &str) -> (r: Result<()>)
        requires
            old(self).wf(),
        ensures
            final(self).wf(),
            final(self).gr() == old(self).gr(),
            final(self).registry() == old(self).registry(),
            revoke_effect(*old(self), *final(self), principal_id.0@, capability_id@, r),
    {
        let pi = match self.find_principal(principal_id.as_str()) {
            None => return Err(SchubertError::PrincipalNotFound(principal_id.to_string())),
            Some(i) => i,
        };
        proof {
            let ps = self.principals@;
            let q = choose|i: int| 0 <= i < ps.len() && #[trigger] ps[i].id.0@ == principal_id.0@;
            assert(q == pi);
        }
        if !self.principals[pi].holds(capability_id) {
            return Err(
                SchubertError::CapabilityNotHeld {
                    principal: principal_id.to_string(),
                    capability: owned(capability_id),
                },
            );
        }
        let ghost old_ps = self.principals@;
        let ghost old_p = self.principals@[pi as int];
        let ghost k = self.grassmannian.0;
        let ghost n = self.grassmannian.1;
        assert(principal_ok(old_p, self.capabilities@, k, n));
        let p = &mut self.principals[pi];
        let removed = namespace_revoke(&mut p.namespace, capability_id);
        let kept = without_tracked(&p.granted_capability_ids, capability_id);
        p.granted_capability_ids = kept;
        proof {
            let ps = self.principals@;
            let np = ps[pi as int];
            let reg = self.capabilities@;
            assert(removed);
            let ri = choose|i: int| first_grant(old_p.grants(), capability_id@, i) && np.grants()
                == old_p.grants().remove(i);
            assert(revoked_once(old_p, np, capability_id@));
            assert forall|j: int| 0 <= j < ps.len() && j != pi implies #[trigger] ps[j] == old_ps[j] by {}
            assert forall|i: int, j: int|
                0 <= i < ps.len() && 0 <= j < ps.len() && i != j implies #[trigger] ps[i].id.0@
                != #[trigger] ps[j].id.0@ by {
                assert(old_ps[i].id == ps[i].id && old_ps[j].id == ps[j].id);
            }
            assert(principal_ok(np, reg, k, n)) by {
                assert forall|g: int| 0 <= g < np.grants().len() implies {
                    let x = #[trigger] np.grants()[g];
                    &&& has_cap(reg, x.0)
                    &&& cap_of(reg, x.0).partition@ == x.1
                    &&& partition_accepted(x.1, k, n)
                } by {
                    if g < ri {
                        assert(np.grants()[g] == old_p.grants()[g]);
                    } else {
                        assert(np.grants()[g] == old_p.grants()[g + 1]);
                    }
                }
                assert(all_plain(np.grants())) by {
                    assert forall|g: int| 0 <= g < np.grants().len() implies #[trigger] np.grants()[g].2 by {
                        if g < ri {
                            assert(np.grants()[g] == old_p.grants()[g]);
                        } else {
                            assert(np.grants()[g] == old_p.grants()[g + 1]);
                        }
                    }
                }
                let pred = other_than(capability_id@);
                assert forall|t: int| 0 <= t < np.granted_capability_ids@.len() implies holds_id(
                    np.grants(),
                    (#[trigger] np.granted_capability_ids@[t])@,
                ) by {
                    let s = np.granted_capability_ids@[t];
                    old_p.granted_capability_ids@.lemma_filter_pred(pred, t);
                    assert(np.granted_capability_ids@.contains(s));
                    old_p.granted_capability_ids@.lemma_filter_contains_rev(pred, s);
                    let u = choose|u: int| 0 <= u < old_p.granted_capability_ids@.len()
                        && old_p.granted_capability_ids@[u] == s;
                    assert(holds_id(old_p.grants(), old_p.granted_capability_ids@[u]@));
                    let w = choose|w: int| 0 <= w < old_p.grants().len() && #[trigger] old_p.grants()[w].0 == s@;
                    assert(w != ri);
                    if w < ri {
                        assert(np.grants()[w] == old_p.grants()[w]);
                    } else {
                        assert(np.grants()[w - 1] == old_p.grants()[w]);
                    }
                }
            }
            assert forall|i: int| 0 <= i < ps.len() implies principal_ok(
                #[trigger] ps[i],
                reg,
                k,
                n,
            ) by {
                if i != pi {
                    assert(ps[i] == old_ps[i]);
                }
            }
        }
        Ok(())
    }

    /// Look up a registered capability by its identifier.
    pub fn capability(&self, id: &str) -> (r: Option<&Capability>)
        ensures
            (r is Some) == has_cap(self.registry(), id@),
            r matches Some(c) ==> self.wf() ==> *c == cap_of(self.registry(), id@),
            r matches Some(c) ==> c.id.0@ == id@,
    {
        match self.find_capability(id) {
            None => None,
            Some(i) => {
                proof {
                    if self.wf() {
                        let reg = self.capabilities@;
                        let c = choose|j: int| 0 <= j < reg.len() && #[trigger] reg[j].id.0@ == id@;
                        assert(c == i);
                    }
                }
                Some(&self.capabilities[i])
            },
        }
    }

    /// All registered capabilities, in registration order.
    pub fn capabilities(&self) -> (r: Vec<&Capability>)
        ensures
            r@.len() == self.registry().len(),
            forall|i: int| 0 <= i < r@.len() ==> *(#[trigger] r@[i]) == self.registry()[i],
    {
        let mut out: Vec<&Capability> = Vec::new();
        let mut i: usize = 0;
        while i < self.capabilities.len()
            invariant
                i <= self.capabilities@.len(),
                out@.len() == i,
                forall|j: int| 0 <= j < i ==> *(#[trigger] out@[j]) == self.capabilities@[j],
            decreases self.capabilities.len() - i,
        {
            out.push(&self.capabilities[i]);
            i = i + 1;
        }
        out
    }

    /// All principals, in creation order.
    pub fn principals_in_order(&self) -> (r: Vec<&Principal>)
        ensures
            r@.len() == self.roster().len(),
            forall|i: int| 0 <= i < r@.len() ==> *(#[trigger] r@[i]) == self.roster()[i],
    {
        let mut out: Vec<&Principal> = Vec::new();
        let mut i: usize = 0;
        while i < self.principals.len()
            invariant
                i <= self.principals@.len(),
                out@.len() == i,
                forall|j: int| 0 <= j < i ==> *(#[trigger] out@[j]) == self.principals@[j],
            decreases self.principals.len() - i,
        {
            out.push(&self.principals[i]);
            i = i + 1;
        }
        out
    }

    /// Look up a principal by ID.
    pub fn principal(&self, id: &PrincipalId) -> (r: Option<&Principal>)
        requires
            self.wf(),
        ensures
            (r is Some) == has_principal(self.roster(), id.0@),
            r matches Some(p) ==> *p == principal_of(self.roster(), id.0@),
    {
        match self.find_principal(id.as_str()) {
            None => None,
            Some(i) => {
                proof {
                    let ps = self.principals@;
                    let c = choose|j: int| 0 <= j < ps.len() && #[trigger] ps[j].id.0@ == id.0@;
                    assert(c == i);
                }
                Some(&self.principals[i])
            },
        }
    }

    /// Return capability metadata for a principal, in grant order.
    pub fn principal_capabilities(&self, id: &PrincipalId) -> (r: Result<Vec<&Capability>>)
        requires
            self.wf(),
        ensures
            (r is Ok) == has_principal(self.roster(), id.0@),
            r matches Err(e) ==> (e matches SchubertError::PrincipalNotFound(s) && s@ == id.0@),
            r matches Ok(v) ==> {
                let g = principal_of(self.roster(), id.0@).grants();
                &&& v@.len() == g.len()
                &&& forall|i: int| 0 <= i < v@.len() ==> *(#[trigger] v@[i]) == cap_of(self.registry(), g[i].0)
            },
    {
        let p = match self.principal(id) {
            None => return Err(SchubertError::PrincipalNotFound(id.to_string())),
            Some(p) => p,
        };
        let ghost g = p.grants();
        proof {
            let ps = self.principals@;
            let q = principal_pos(ps, id.0@);
            assert(principal_ok(ps[q], self.capabilities@, self.grassmannian.0, self.grassmannian.1));
        }
        let list = namespace_list(&p.namespace);
        let mut out: Vec<&Capability> = Vec::new();
        let mut i: usize = 0;
        while i < list.len()
            invariant
                self.wf(),
                i <= list@.len(),
                list@.len() == g.len(),
                forall|j: int| 0 <= j < list@.len() ==> (#[trigger] list@[j]).0@ == g[j].0,
                forall|j: int| 0 <= j < g.len() ==> has_cap(self.registry(), (#[trigger] g[j]).0),
                out@.len() == i,
                forall|j: int| 0 <= j < i ==> *(#[trigger] out@[j]) == cap_of(self.registry(), g[j].0),
            decreases list.len() - i,
        {
            assert(list@[i as int].0@ == g[i as int].0);
            match self.find_capability(list[i].0.as_str()) {
                None => return Err(SchubertError::CapabilityNotFound(copy_string(&list[i].0))),
                Some(ci) => {
                    proof {
                        let reg = self.capabilities@;
                        let c = choose|j: int| 0 <= j < reg.len() && #[trigger] reg[j].id.0@ == g[i as int].0;
                        assert(c == ci);
                    }
                    out.push(&self.capabilities[ci]);
                },
            }
            i = i + 1;
        }
        Ok(out)
    }

    /// The dimension left to a principal: k(n−k) minus the codimensions of
    /// the capabilities it holds.
    pub fn effective_dimension(&self, principal_id: &PrincipalId) -> (r: Result<isize>)
        requires
            self.wf(),
            grassmannian_dim(self.gr().0 as nat, self.gr().1 as nat) <= isize::MAX,
            has_principal(self.roster(), principal_id.0@) ==> total_codim(
                grant_partitions(principal_of(self.roster(), principal_id.0@).grants()),
            ) <= isize::MAX,
        ensures
            (r is Ok) == has_principal(self.roster(), principal_id.0@),
            r matches Err(e) ==> (e matches SchubertError::PrincipalNotFound(s) && s@ == principal_id.0@),
            r matches Ok(d) ==> d == grassmannian_dim(self.gr().0 as nat, self.gr().1 as nat)
                - total_codim(grant_partitions(principal_of(self.roster(), principal_id.0@).grants())),
    {
        let p = match self.principal(principal_id) {
            None => return Err(SchubertError::PrincipalNotFound(principal_id.to_string())),
            Some(p) => p,
        };
        let ghost parts = grant_partitions(p.grants());
        let (k, n) = self.grassmannian;
        let dim = k * (n - k);
        let list = namespace_list(&p.namespace);
        let mut total: usize = 0;
        let mut i: usize = 0;
        while i < list.len()
            invariant
                i <= list@.len(),
                list@.len() == parts.len(),
                forall|j: int| 0 <= j < list@.len() ==> (#[trigger] list@[j]).1@ == parts[j],
                total == total_codim(parts.subrange(0, i as int)),
                total_codim(parts) <= isize::MAX,
            decreases list.len() - i,
        {
            proof {
                crate::util::lemma_total_codim_push(parts.subrange(0, i as int), parts[i as int]);
                assert(parts.subrange(0, i as int).push(parts[i as int]) =~= parts.subrange(0, i + 1));
                crate::util::lemma_total_codim_prefix(parts, i + 1);
            }
            let c = crate::util::sum_parts(list[i].1.as_slice());
            total = total + c;
            i = i + 1;
        }
        proof {
            assert(parts.subrange(0, i as int) =~= parts);
        }
        Ok(dim as isize - total as isize)
    }

    // ── Access checks ──────────────────────────────────────────────

    /// The Schubert classes an access check intersects: the principal's
    /// position, then each required capability's class, in order.
    fn resolve_required_classes(&self, pi: usize, required: &[&str]) -> (r: Result<Vec<SchubertClass>>)
        requires
            self.wf(),
            pi < self.roster().len(),
            holds_all(self.roster()[pi as int].grants(), str_views(required@)),
        ensures
            r matches Ok(all) && class_partitions(all@) == check_parts(
                self.registry(),
                self.roster()[pi as int],
                str_views(required@),
            ) && forall|j: int|
                0 <= j < all@.len() ==> partition_accepted(
                    (#[trigger] all@[j]).partition@,
                    self.gr().0,
                    self.gr().1,
                ),
    {
        let (k, n) = self.grassmannian;
        let p = &self.principals[pi];
        let ghost reg = self.capabilities@;
        let ghost req = str_views(required@);
        assert(principal_ok(*p, reg, k, n));
        let mut all: Vec<SchubertClass> = Vec::new();
        all.push(SchubertClass { partition: namespace_position(&p.namespace), grassmannian_dim: (k, n) });
        let mut i: usize = 0;
        while i < required.len()
            invariant
                self.wf(),
                pi < self.roster().len(),
                *p == self.roster()[pi as int],
                reg == self.registry(),
                (k, n) == self.gr(),
                req == str_views(required@),
                principal_ok(*p, reg, k, n),
                holds_all(p.grants(), req),
                i <= required@.len(),
                all@.len() == i + 1,
                all@[0].partition@ == namespace_frame(p.namespace).2,
                forall|j: int| 1 <= j <= i ==> (#[trigger] all@[j]).partition@ == cap_of(reg, req[j - 1]).partition@,
                forall|j: int| 0 <= j < all@.len() ==> partition_accepted((#[trigger] all@[j]).partition@, k, n),
            decreases required.len() - i,
        {
            assert(holds_id(p.grants(), req[i as int]));
            let ghost w = choose|w: int| 0 <= w < p.grants().len() && #[trigger] p.grants()[w].0 == req[i as int];
            assert(p.grants()[w].0 == req[i as int]);
            let ci = match self.find_capability(required[i]) {
                None => return Err(SchubertError::CapabilityNotFound(owned(required[i]))),
                Some(ci) => ci,
            };
            proof {
                let c = choose|j: int| 0 <= j < reg.len() && #[trigger] reg[j].id.0@ == req[i as int];
                assert(c == ci);
            }
            let cls = match self.capabilities[ci].to_schubert_class((k, n)) {
                Err(e) => return Err(e),
                Ok(c) => c,
            };
            all.push(cls);
            i = i + 1;
        }
        proof {
            assert(class_partitions(all@) =~= check_parts(reg, *p, req));
        }
        Ok(all)
    }

    /// Matroid path: consecutive classes must have Schubert matroids with
    /// non-empty intersection; otherwise the codimension bookkeeping decides.
    fn compute_matroid(&self, all: &Vec<SchubertClass>, required: &[&str]) -> (r: Result<AccessDecision>)
        requires
            self.wf(),
            forall|j: int| 0 <= j < all@.len() ==> partition_accepted((#[trigger] all@[j]).partition@, self.gr().0, self.gr().1),
            total_codim(class_partitions(all@)) <= usize::MAX,
            grassmannian_dim(self.gr().0 as nat, self.gr().1 as nat) <= usize::MAX,
        ensures
            r matches Ok(d) && matroid_decision(
                class_partitions(all@),
                str_views(required@),
                self.gr().0,
                self.gr().1,
                d,
            ),
    {
        let (k, n) = self.grassmannian;
        let dim = k * (n - k);
        let ghost parts = class_partitions(all@);
        if all.len() == 0 {
            return Ok(AccessDecision::Underconstrained { dimension: dim });
        }
        let mut i: usize = 1;
        while i < all.len()
            invariant
                1 <= i <= all@.len(),
                1 <= k < n,
                (k, n) == self.gr(),
                parts == class_partitions(all@),
                forall|j: int| 0 <= j < all@.len() ==> partition_accepted((#[trigger] all@[j]).partition@, k, n),
                forall|j: int| 1 <= j < i ==> matroid_intersection_cardinality(
                    normal_form(#[trigger] parts[j - 1]),
                    normal_form(parts[j]),
                    k,
                    n,
                ) != 0,
            decreases all.len() - i,
        {
            assert(partition_accepted(all@[i - 1].partition@, k, n));
            assert(partition_accepted(all@[i as int].partition@, k, n));
            let prev = normalize_partition(all[i - 1].partition.as_slice());
            let cur = normalize_partition(all[i].partition.as_slice());
            proof {
                assert(parts_at_most(all@[i - 1].partition@, (n - k) as nat));
                assert(parts_at_most(all@[i as int].partition@, (n - k) as nat));
                lemma_normal_form_bounded(all@[i - 1].partition@, (n - k) as nat);
                lemma_normal_form_bounded(all@[i as int].partition@, (n - k) as nat);
            }
            match matroid_pair_cardinality(prev.as_slice(), cur.as_slice(), k, n) {
                Err(e) => return Err(SchubertError::Enumerative(crate::error::prefixed("Computation error: ", &e))),
                Ok(card) => {
                    if card == 0 {
                        proof {
                            assert(matroid_intersection_cardinality(normal_form(parts[i - 1]), normal_form(parts[i as int]), k, n) == 0);
                            assert(matroid_blocked(parts, k, n));
                            assert(parts.len() > 0);
                        }
                        let d = AccessDecision::Impossible { conflicting: ids_of(required) };
                        assert(matroid_decision(parts, str_views(required@), k, n, d));
                        return Ok(d);
                    }
                },
            }
            i = i + 1;
        }
        proof {
            assert forall|j: int| 1 <= j < parts.len() implies matroid_intersection_cardinality(
                normal_form(#[trigger] parts[j - 1]),
                normal_form(parts[j]),
                k,
                n,
            ) != 0 by {}
            assert(!matroid_blocked(parts, k, n));
        }
        let total = class_codim_sum(all);
        if total > dim {
            Ok(AccessDecision::Denied)
        } else if total == dim {
            Ok(AccessDecision::Impossible { conflicting: ids_of(required) })
        } else {
            Ok(AccessDecision::Underconstrained { dimension: dim - total })
        }
    }

    /// Check access with an explicit computation path.
    ///
    /// A principal that does not hold every required capability is denied.
    /// Otherwise its position and the required classes are intersected by the
    /// engine of the path: Littlewood-Richardson and localization count
    /// exactly, tropical counts tropically, the matroid path only tells
    /// impossibility and dimensions apart. The decision is recorded in the
    /// audit sink, if one is installed.
    pub fn check_with_path(&self, principal_id: &PrincipalId, required: &[&str], path: ComputationPath) -> (r: Result<AccessDecision>)
        requires
            self.wf(),
            has_principal(self.roster(), principal_id.0@) && holds_all(
                principal_of(self.roster(), principal_id.0@).grants(),
                str_views(required@),
            ) ==> crate::engine::path_fits(
                path,
                check_parts(
                    self.registry(),
                    principal_of(self.roster(), principal_id.0@),
                    str_views(required@),
                ),
                self.gr().0,
                self.gr().1,
            ),
        ensures
            check_result(self, principal_id.0@, str_views(required@), path, r),
    {
        let pi = match self.find_principal(principal_id.as_str()) {
            None => return Err(SchubertError::PrincipalNotFound(principal_id.to_string())),
            Some(i) => i,
        };
        proof {
            let ps = self.principals@;
            let q = choose|i: int| 0 <= i < ps.len() && #[trigger] ps[i].id.0@ == principal_id.0@;
            assert(q == pi);
        }
        let ghost req = str_views(required@);
        let mut i: usize = 0;
        while i < required.len()
            invariant
                pi < self.roster().len(),
                self.roster()[pi as int] == principal_of(self.roster(), principal_id.0@),
                has_principal(self.roster(), principal_id.0@),
                req == str_views(required@),
                i <= required@.len(),
                forall|j: int| 0 <= j < i ==> holds_id(self.roster()[pi as int].grants(), #[trigger] req[j]),
            decreases required.len() - i,
        {
            if !self.principals[pi].holds(required[i]) {
                proof {
                    assert(req[i as int] == required@[i as int]@);
                    assert(!holds_id(self.roster()[pi as int].grants(), req[i as int]));
                    assert(!holds_all(self.roster()[pi as int].grants(), req));
                }
                return Ok(AccessDecision::Denied);
            }
            i = i + 1;
        }
        let all = match self.resolve_required_classes(pi, required) {
            Err(e) => return Err(e),
            Ok(all) => all,
        };
        let (k, n) = self.grassmannian;
        let decision = match path {
            ComputationPath::LittlewoodRichardson => {
                map_intersection_result(lr_multi_intersect(all.as_slice(), k, n), required, path)
            },
            ComputationPath::Localization => match localized_intersect(all.as_slice(), k, n) {
                Err(e) => return Err(SchubertError::Enumerative(e)),
                Ok(res) => map_intersection_result(res, required, path),
            },
            ComputationPath::Tropical => {
                map_intersection_result(tropical_intersect(all.as_slice(), k, n), required, path)
            },
            ComputationPath::Matroid => match self.compute_matroid(&all, required) {
                Err(e) => return Err(e),
                Ok(d) => d,
            },
        };
        match &self.audit_sink {
            Some(sink) => {
                let record = DecisionRecord {
                    principal: principal_id.clone(),
                    capabilities: ids_of(required),
                    decision: decision.clone(),
                    timestamp: now_millis(),
                };
                let _ = sink.record(&record);
            },
            None => {},
        }
        Ok(decision)
    }

    /// Check whether a principal satisfies a set of capability requirements,
    /// on the Littlewood-Richardson path.
    pub fn check(&self, principal_id: &PrincipalId, required: &[&str]) -> (r: Result<AccessDecision>)
        requires
            self.wf(),
            check_fits(self, principal_id.0@, str_views(required@)),
        ensures
            check_result(
                self,
                principal_id.0@,
                str_views(required@),
                ComputationPath::LittlewoodRichardson,
                r,
            ),
    {
        self.check_with_path(principal_id, required, ComputationPath::LittlewoodRichardson)
    }

    /// Check access with automatic path selection: Littlewood-Richardson for
    /// n ≤ 8 and fewer than six required capabilities, localization otherwise.
    pub fn check_auto(&self, principal_id: &PrincipalId, required: &[&str]) -> (r: Result<AccessDecision>)
        requires
            self.wf(),
            has_principal(self.roster(), principal_id.0@) && holds_all(
                principal_of(self.roster(), principal_id.0@).grants(),
                str_views(required@),
            ) ==> engine_fits(
                check_parts(
                    self.registry(),
                    principal_of(self.roster(), principal_id.0@),
                    str_views(required@),
                ),
                self.gr().0,
                self.gr().1,
            ),
        ensures
            check_result(
                self,
                principal_id.0@,
                str_views(required@),
                auto_path(self.gr().1, required@.len()),
                r,
            ),
    {
        let n = self.grassmannian.1;
        let path = if n <= 8 && required.len() < 6 {
            ComputationPath::LittlewoodRichardson
        } else {
            ComputationPath::Localization
        };
        self.check_with_path(principal_id, required, path)
    }

    /// Whether the principal at `pi` holds every required capability.
    fn holds_each(&self, pi: usize, required: &[&str]) -> (r: bool)
        requires
            pi < self.roster().len(),
        ensures
            r == holds_all(self.roster()[pi as int].grants(), str_views(required@)),
    {
        let ghost req = str_views(required@);
        let mut i: usize = 0;
        while i < required.len()
            invariant
                pi < self.roster().len(),
                req == str_views(required@),
                i <= required@.len(),
                forall|j: int| 0 <= j < i ==> holds_id(self.roster()[pi as int].grants(), #[trigger] req[j]),
            decreases required.len() - i,
        {
            if !self.principals[pi].holds(required[i]) {
                assert(req[i as int] == required@[i as int]@);
                return false;
            }
            i = i + 1;
        }
        true
    }

    /// Check access for several (principal, requirements) queries, the
    /// intersections computed together in parallel on the
    /// Littlewood-Richardson path. An unknown principal, or one that does
    /// not hold every required capability, is denied.
    pub fn check_batch(&self, queries: &[(&PrincipalId, &[&str])]) -> (r: Vec<Result<AccessDecision>>)
        requires
            self.wf(),
            forall|q: int|
                0 <= q < queries@.len() ==> batch_query_fits(self, (#[trigger] queries@[q]).0.0@, str_views(queries@[q].1@)),
        ensures
            r@.len() == queries@.len(),
            forall|q: int|
                0 <= q < queries@.len() ==> batch_result(
                    self,
                    (#[trigger] queries@[q]).0.0@,
                    str_views(queries@[q].1@),
                    r@[q],
                ),
    {
        let (k, n) = self.grassmannian;
        let mut batches: Vec<Vec<SchubertClass>> = Vec::new();
        let mut slots: Vec<Option<usize>> = Vec::new();
        let mut i: usize = 0;
        while i < queries.len()
            invariant
                self.wf(),
                (k, n) == self.gr(),
                i <= queries@.len(),
                slots@.len() == i,
                forall|q: int|
                    0 <= q < queries@.len() ==> batch_query_fits(self, (#[trigger] queries@[q]).0.0@, str_views(queries@[q].1@)),
                forall|b: int|
                    0 <= b < batches@.len() ==> engine_fits(class_partitions(#[trigger] batches@[b]@), k, n),
                forall|q: int|
                    0 <= q < i ==> match #[trigger] slots@[q] {
                        None => !query_admitted(self, queries@[q].0.0@, str_views(queries@[q].1@)),
                        Some(b) => b < batches@.len() && query_admitted(self, queries@[q].0.0@, str_views(queries@[q].1@))
                            && class_partitions(batches@[b as int]@) == check_parts(
                            self.registry(),
                            principal_of(self.roster(), queries@[q].0.0@),
                            str_views(queries@[q].1@),
                        ),
                    },
            decreases queries.len() - i,
        {
            let (pid, required) = queries[i];
            let ghost old_slots = slots@;
            let ghost old_batches = batches@;
            match self.find_principal(pid.as_str()) {
                None => {
                    slots.push(None);
                },
                Some(pi) => {
                    proof {
                        let ps = self.principals@;
                        let c = choose|j: int| 0 <= j < ps.len() && #[trigger] ps[j].id.0@ == pid.0@;
                        assert(c == pi);
                    }
                    if self.holds_each(pi, required) {
                        match self.resolve_required_classes(pi, required) {
                            Err(_) => {
                                slots.push(None);
                                assert(false);
                            },
                            Ok(all) => {
                                slots.push(Some(batches.len()));
                                batches.push(all);
                            },
                        }
                    } else {
                        slots.push(None);
                    }
                },
            }
            proof {
                assert forall|q: int| 0 <= q <= i implies match #[trigger] slots@[q] {
                    None => !query_admitted(self, queries@[q].0.0@, str_views(queries@[q].1@)),
                    Some(b) => b < batches@.len() && query_admitted(self, queries@[q].0.0@, str_views(queries@[q].1@))
                        && class_partitions(batches@[b as int]@) == check_parts(
                        self.registry(),
                        principal_of(self.roster(), queries@[q].0.0@),
                        str_views(queries@[q].1@),
                    ),
                } by {
                    if q < i {
                        assert(slots@[q] == old_slots[q]);
                        if let Some(b) = slots@[q] {
                            assert(batches@[b as int] == old_batches[b as int]);
                        }
                    }
                }
            }
            i = i + 1;
        }
        let results = crate::engine::lr_multi_intersect_batch(&batches, k, n);
        let mut out: Vec<Result<AccessDecision>> = Vec::new();
        let mut j: usize = 0;
        while j < queries.len()
            invariant
                self.wf(),
                (k, n) == self.gr(),
                j <= queries@.len(),
                slots@.len() == queries@.len(),
                results@.len() == batches@.len(),
                forall|b: int|
                    0 <= b < batches@.len() ==> #[trigger] results@[b] == lr_outcome(class_partitions(batches@[b]@), k, n),
                forall|q: int|
                    0 <= q < queries@.len() ==> match #[trigger] slots@[q] {
                        None => !query_admitted(self, queries@[q].0.0@, str_views(queries@[q].1@)),
                        Some(b) => b < batches@.len() && query_admitted(self, queries@[q].0.0@, str_views(queries@[q].1@))
                            && class_partitions(batches@[b as int]@) == check_parts(
                            self.registry(),
                            principal_of(self.roster(), queries@[q].0.0@),
                            str_views(queries@[q].1@),
                        ),
                    },
                out@.len() == j,
                forall|q: int|
                    0 <= q < j ==> batch_result(self, queries@[q].0.0@, str_views(queries@[q].1@), #[trigger] out@[q]),
            decreases queries.len() - j,
        {
            let (_, required) = queries[j];
            let ghost qj = j as int;
            match slots[j] {
                None => {
                    out.push(Ok(AccessDecision::Denied));
                },
                Some(b) => {
                    assert(results@[b as int] == lr_outcome(class_partitions(batches@[b as int]@), k, n));
                    let d = map_intersection_result(results[b], required, ComputationPath::LittlewoodRichardson);
                    out.push(Ok(d));
                },
            }
            assert(batch_result(self, queries@[qj].0.0@, str_views(queries@[qj].1@), out@[qj]));
            j = j + 1;
        }
        out
    }

    /// Compose several principal pairs; each tuple is (principal A, output
    /// capability, principal B, input capability).
    pub fn compose_batch(&self, pairs: &[(&PrincipalId, &str, &PrincipalId, &str)]) -> (r: Vec<Result<crate::composition::CompositionResult>>)
        requires
            self.wf(),
            forall|q: int|
                0 <= q < pairs@.len() ==> crate::composition::compose_fits(
                    self,
                    (#[trigger] pairs@[q]).0.0@,
                    pairs@[q].1@,
                    pairs@[q].2.0@,
                    pairs@[q].3@,
                ),
        ensures
            r@.len() == pairs@.len(),
            forall|q: int|
                0 <= q < pairs@.len() ==> crate::composition::compose_result(
                    self,
                    (#[trigger] pairs@[q]).0.0@,
                    pairs@[q].1@,
                    pairs@[q].2.0@,
                    pairs@[q].3@,
                    r@[q],
                ),
    {
        let mut out: Vec<Result<crate::composition::CompositionResult>> = Vec::new();
        let mut i: usize = 0;
        while i < pairs.len()
            invariant
                self.wf(),
                i <= pairs@.len(),
                forall|q: int|
                    0 <= q < pairs@.len() ==> crate::composition::compose_fits(
                        self,
                        (#[trigger] pairs@[q]).0.0@,
                        pairs@[q].1@,
                        pairs@[q].2.0@,
                        pairs@[q].3@,
                    ),
                out@.len() == i,
                forall|q: int|
                    0 <= q < i ==> crate::composition::compose_result(
                        self,
                        pairs@[q].0.0@,
                        pairs@[q].1@,
                        pairs@[q].2.0@,
                        pairs@[q].3@,
                        #[trigger] out@[q],
                    ),
            decreases pairs.len() - i,
        {
            let (a, out_cap, b, in_cap) = pairs[i];
            assert(crate::composition::compose_fits(self, pairs@[i as int].0.0@, pairs@[i as int].1@, pairs@[i as int].2.0@, pairs@[i as int].3@));
            let res = crate::composition::compose(self, a, out_cap, b, in_cap);
            out.push(res);
            i = i + 1;
        }
        out
    }
}


/// A query's principal exists and holds every required capability.
pub open spec fn query_admitted(c: &AccessController, pid: Seq<char>, required: Seq<Seq<char>>) -> bool {
    has_principal(c.roster(), pid) && holds_all(principal_of(c.roster(), pid).grants(), required)
}

/// An admitted query stays within the engine's arithmetic.
pub open spec fn batch_query_fits(c: &AccessController, pid: Seq<char>, required: Seq<Seq<char>>) -> bool {
    query_admitted(c, pid, required) ==> engine_fits(
        check_parts(c.registry(), principal_of(c.roster(), pid), required),
        c.gr().0,
        c.gr().1,
    )
}

/// What a batch check returns for one query: a denial unless the query is
/// admitted, otherwise the Littlewood-Richardson decision.
pub open spec fn batch_result(
    c: &AccessController,
    pid: Seq<char>,
    required: Seq<Seq<char>>,
    r: Result<AccessDecision>,
) -> bool {
    if !query_admitted(c, pid, required) {
        r == Result::<AccessDecision>::Ok(AccessDecision::Denied)
    } else {
        r matches Ok(d) && decision_of(
            lr_outcome(check_parts(c.registry(), principal_of(c.roster(), pid), required), c.gr().0, c.gr().1),
            required,
            ComputationPath::LittlewoodRichardson,
            d,
        )
    }
}

/// The sum of the codimensions of a list of classes.
fn class_codim_sum(all: &Vec<SchubertClass>) -> (r: usize)
    requires
        total_codim(class_partitions(all@)) <= usize::MAX,
    ensures
        r == total_codim(class_partitions(all@)),
{
    let ghost parts = class_partitions(all@);
    let mut total: usize = 0;
    let mut i: usize = 0;
    while i < all.len()
        invariant
            i <= all@.len(),
            parts == class_partitions(all@),
            total == total_codim(parts.subrange(0, i as int)),
            total_codim(parts) <= usize::MAX,
        decreases all.len() - i,
    {
        proof {
            crate::util::lemma_total_codim_push(parts.subrange(0, i as int), parts[i as int]);
            assert(parts.subrange(0, i as int).push(parts[i as int]) =~= parts.subrange(0, i + 1));
            crate::util::lemma_total_codim_prefix(parts, i + 1);
        }
        let c = crate::util::sum_parts(all[i].partition.as_slice());
        total = total + c;
        i = i + 1;
    }
    proof {
        assert(parts.subrange(0, i as int) =~= parts);
    }
    total
}

/// Every required identifier is held.
pub open spec fn holds_all(g: Seq<(Seq<char>, Seq<usize>, bool)>, required: Seq<Seq<char>>) -> bool {
    forall|i: int| 0 <= i < required.len() ==> holds_id(g, #[trigger] required[i])
}

/// The partitions an access check intersects: the principal's position,
/// then the registered partition of each required capability.
pub open spec fn check_parts(reg: Seq<Capability>, p: Principal, required: Seq<Seq<char>>) -> Seq<Seq<usize>> {
    seq![namespace_frame(p.namespace).2] + Seq::new(
        required.len(),
        |i: int| cap_of(reg, required[i]).partition@,
    )
}

/// Some consecutive pair of partitions has Schubert matroids whose
/// intersection is empty.
pub open spec fn matroid_blocked(parts: Seq<Seq<usize>>, k: usize, n: usize) -> bool {
    exists|i: int|
        1 <= i < parts.len() && matroid_intersection_cardinality(
            normal_form(#[trigger] parts[i - 1]),
            normal_form(parts[i]),
            k,
            n,
        ) == 0
}

/// The decision of the matroid path: impossible when a consecutive pair
/// blocks or the codimensions exactly fill the dimension (the matroid cannot
/// count), denied when they exceed it, under-constrained otherwise.
pub open spec fn matroid_decision(
    parts: Seq<Seq<usize>>,
    required: Seq<Seq<char>>,
    k: usize,
    n: usize,
    d: AccessDecision,
) -> bool {
    let dim = grassmannian_dim(k as nat, n as nat);
    let total = total_codim(parts);
    if parts.len() == 0 {
        d == AccessDecision::Underconstrained { dimension: dim as usize }
    } else if matroid_blocked(parts, k, n) || total == dim {
        d matches AccessDecision::Impossible { conflicting } && crate::decision::id_views(
            conflicting@,
        ) == required
    } else if total > dim {
        d == AccessDecision::Denied
    } else {
        d == AccessDecision::Underconstrained { dimension: (dim - total) as usize }
    }
}

/// The decision computation path `path` gives for the partitions.
pub open spec fn path_decision(
    path: ComputationPath,
    parts: Seq<Seq<usize>>,
    required: Seq<Seq<char>>,
    k: usize,
    n: usize,
    d: AccessDecision,
) -> bool {
    match path {
        ComputationPath::LittlewoodRichardson => decision_of(lr_outcome(parts, k, n), required, path, d),
        ComputationPath::Localization => decision_of(lr_outcome(parts, k, n), required, path, d),
        ComputationPath::Tropical => decision_of(tropical_outcome(parts, k, n), required, path, d),
        ComputationPath::Matroid => matroid_decision(parts, required, k, n, d),
    }
}

/// What a check returns: an error for an unknown principal, a denial when
/// some required capability is not held, otherwise the decision of the path.
pub open spec fn check_result(
    c: &AccessController,
    pid: Seq<char>,
    required: Seq<Seq<char>>,
    path: ComputationPath,
    r: Result<AccessDecision>,
) -> bool {
    if !has_principal(c.roster(), pid) {
        r matches Err(e) && e matches SchubertError::PrincipalNotFound(s) && s@ == pid
    } else if !holds_all(principal_of(c.roster(), pid).grants(), required) {
        r == Result::<AccessDecision>::Ok(AccessDecision::Denied)
    } else {
        r matches Ok(d) && path_decision(
            path,
            check_parts(c.registry(), principal_of(c.roster(), pid), required),
            required,
            c.gr().0,
            c.gr().1,
            d,
        )
    }
}

/// The path automatic selection picks for Gr(·,n) and a number of required
/// capabilities.
pub open spec fn auto_path(n: usize, count: nat) -> ComputationPath {
    if n <= 8 && count < 6 {
        ComputationPath::LittlewoodRichardson
    } else {
        ComputationPath::Localization
    }
}

/// The tracked identifiers other than `id`, in order.
fn without_tracked(ids: &Vec<String>, id: &str) -> (r: Vec<String>)
    ensures
        r@ == without_id(ids@, id@),
{
    let mut out: Vec<String> = Vec::new();
    let mut i: usize = 0;
    while i < ids.len()
        invariant
            i <= ids@.len(),
            out@ == without_id(ids@.subrange(0, i as int), id@),
        decreases ids.len() - i,
    {
        proof {
            let pred = other_than(id@);
            ids@.subrange(0, i as int).lemma_filter_push(ids@[i as int], pred);
            assert(ids@.subrange(0, i as int).push(ids@[i as int]) =~= ids@.subrange(0, i + 1));
        }
        if !str_eq(ids[i].as_str(), id) {
            out.push(copy_string(&ids[i]));
        }
        i = i + 1;
    }
    proof {
        assert(ids@.subrange(0, i as int) =~= ids@);
    }
    out
}
/// The partitions of a list of grants, in order.
pub open spec fn grant_partitions(g: Seq<(Seq<char>, Seq<usize>, bool)>) -> Seq<Seq<usize>> {
    Seq::new(g.len(), |i: int| g[i].1)
}

} // verus!
