//! Operadic composition of principals.
//!
//! Two principals can be composed when one's output capability matches the
//! other's input capability. The composition consumes the interface
//! capabilities and merges the remaining access spaces, producing a
//! multiplicity that counts how many configurations survive the gluing.

use vstd::prelude::*;
use crate::controller::{has_principal, principal_of, AccessController};
use crate::engine::{
    first_grant, glue_value, grant_ids, holds_id, interface_fits, interface_multiplicity,
    namespace_frame, namespace_grants, namespace_list,
};
use crate::error::{Result, SchubertError};
use crate::principal::{Principal, PrincipalId};
use crate::util::{copy_string, owned};

verus! {

/// Capabilities forming the operadic interface of a composition `A ∘_S B`.
#[derive(Debug, Clone)]
pub struct InterfaceCapabilities {
    /// Principal A's output capability (consumed by the composition).
    pub output: String,
    /// Principal B's input capability (consumed by the composition).
    pub input: String,
}


/// Result of composing two principals via a shared interface.
#[derive(Debug, Clone)]
pub struct CompositionResult {
    /// Number of configurations for the composed access space (the
    /// pushforward degree of the gluing).
    pub multiplicity: u64,
    /// Non-interface capability IDs retained by the composition.
    pub retained_capabilities: Vec<String>,
}

/// The identifiers of a list of grants except the one at `skip`.
pub open spec fn ids_without(g: Seq<(Seq<char>, Seq<usize>, bool)>, skip: int) -> Seq<Seq<char>> {
    grant_ids(g.remove(skip))
}

/// The index of the first grant with this identifier.
pub open spec fn first_index(g: Seq<(Seq<char>, Seq<usize>, bool)>, id: Seq<char>) -> int {
    choose|i: int| first_grant(g, id, i)
}

/// The views of a list of strings.
pub open spec fn string_views(s: Seq<String>) -> Seq<Seq<char>> {
    Seq::new(s.len(), |i: int| s[i]@)
}

/// The index of the first grant with this identifier, if any.
fn first_grant_index(p: &Principal, id: &str) -> (r: Option<usize>)
    ensures
        r matches Some(i) ==> first_grant(p.grants(), id@, i as int),
        r is None ==> !holds_id(p.grants(), id@),
{
    let list = namespace_list(&p.namespace);
    let mut i: usize = 0;
    while i < list.len()
        invariant
            i <= list@.len(),
            list@.len() == p.grants().len(),
            forall|j: int| 0 <= j < list@.len() ==> (#[trigger] list@[j]).0@ == p.grants()[j].0,
            forall|j: int| 0 <= j < i ==> #[trigger] p.grants()[j].0 != id@,
        decreases list.len() - i,
    {
        if crate::util::str_eq(list[i].0.as_str(), id) {
            assert(list@[i as int].0@ == p.grants()[i as int].0);
            return Some(i);
        }
        assert(list@[i as int].0@ == p.grants()[i as int].0);
        i = i + 1;
    }
    None
}

/// The identifiers a principal holds, except the grant at `skip`, appended
/// to `out`.
fn push_ids_except(p: &Principal, skip: usize, out: &mut Vec<String>)
    requires
        skip < p.grants().len(),
    ensures
        string_views(final(out)@) == string_views(old(out)@) + ids_without(p.grants(), skip as int),
{
    let list = namespace_list(&p.namespace);
    let ghost start = string_views(out@);
    let ghost g = p.grants();
    let mut i: usize = 0;
    while i < list.len()
        invariant
            i <= list@.len(),
            skip < g.len(),
            list@.len() == g.len(),
            forall|j: int| 0 <= j < list@.len() ==> (#[trigger] list@[j]).0@ == g[j].0,
            string_views(out@) == start + kept_ids(g, skip as int, i as int),
        decreases list.len() - i,
    {
        let ghost before = string_views(out@);
        assert(list@[i as int].0@ == g[i as int].0);
        if i != skip {
            let s = copy_string(&list[i].0);
            out.push(s);
            assert(string_views(out@) =~= before.push(g[i as int].0));
        } else {
            assert(string_views(out@) =~= before);
        }
        assert(kept_ids(g, skip as int, i + 1) =~= if i as int != skip as int {
            kept_ids(g, skip as int, i as int).push(g[i as int].0)
        } else {
            kept_ids(g, skip as int, i as int)
        });
        i = i + 1;
    }
    proof {
        lemma_kept_ids(g, skip as int, g.len() as int);
        assert(g.subrange(0, g.len() as int) =~= g);
    }
}

proof fn lemma_kept_ids(g: Seq<(Seq<char>, Seq<usize>, bool)>, skip: int, upto: int)
    requires
        0 <= skip < g.len(),
        0 <= upto <= g.len(),
    ensures
        kept_ids(g, skip, upto) == if upto <= skip {
            grant_ids(g.subrange(0, upto))
        } else {
            grant_ids(g.subrange(0, upto).remove(skip))
        },
    decreases upto,
{
    if upto == 0 {
        assert(grant_ids(g.subrange(0, 0)) =~= Seq::<Seq<char>>::empty());
    } else {
        lemma_kept_ids(g, skip, upto - 1);
        if upto - 1 == skip {
            assert(g.subrange(0, upto).remove(skip) =~= g.subrange(0, skip));
        } else if upto - 1 < skip {
            assert(grant_ids(g.subrange(0, upto)) =~= grant_ids(g.subrange(0, upto - 1)).push(g[upto - 1].0));
        } else {
            assert(grant_ids(g.subrange(0, upto).remove(skip)) =~= grant_ids(
                g.subrange(0, upto - 1).remove(skip),
            ).push(g[upto - 1].0));
        }
    }
}

/// The identifiers of the first `upto` grants, except the one at `skip`.
pub open spec fn kept_ids(g: Seq<(Seq<char>, Seq<usize>, bool)>, skip: int, upto: int) -> Seq<Seq<char>>
    decreases upto,
{
    if upto <= 0 {
        Seq::empty()
    } else if upto - 1 == skip {
        kept_ids(g, skip, upto - 1)
    } else {
        kept_ids(g, skip, upto - 1).push(g[upto - 1].0)
    }
}

/// Compose two principals via a shared interface capability.
///
/// Principal A's output capability is consumed as principal B's input. The
/// composed result retains the other capabilities of both (A's first, in
/// grant order; only the first copy of each interface is consumed).
pub fn compose(
    acl: &AccessController,
    principal_a: &PrincipalId,
    output_cap: &str,
    principal_b: &PrincipalId,
    input_cap: &str,
) -> (r: Result<CompositionResult>)
    requires
        acl.wf(),
        compose_fits(acl, principal_a.0@, output_cap@, principal_b.0@, input_cap@),
    ensures
        compose_result(acl, principal_a.0@, output_cap@, principal_b.0@, input_cap@, r),
{
    let a = match acl.principal(principal_a) {
        None => return Err(SchubertError::PrincipalNotFound(principal_a.to_string())),
        Some(a) => a,
    };
    let b = match acl.principal(principal_b) {
        None => return Err(SchubertError::PrincipalNotFound(principal_b.to_string())),
        Some(b) => b,
    };
    if !a.holds(output_cap) {
        return Err(
            SchubertError::CapabilityNotHeld {
                principal: principal_a.to_string(),
                capability: owned(output_cap),
            },
        );
    }
    if !b.holds(input_cap) {
        return Err(
            SchubertError::CapabilityNotHeld {
                principal: principal_b.to_string(),
                capability: owned(input_cap),
            },
        );
    }
    let output_idx = match first_grant_index(a, output_cap) {
        None => return Err(
            SchubertError::CapabilityNotHeld {
                principal: principal_a.to_string(),
                capability: owned(output_cap),
            },
        ),
        Some(i) => i,
    };
    let input_idx = match first_grant_index(b, input_cap) {
        None => return Err(
            SchubertError::CapabilityNotHeld {
                principal: principal_b.to_string(),
                capability: owned(input_cap),
            },
        ),
        Some(i) => i,
    };
    proof {
        let ps = acl.roster();
        let qa = crate::controller::principal_pos(ps, principal_a.0@);
        assert(crate::controller::principal_ok(ps[qa], acl.registry(), acl.gr().0, acl.gr().1));
        assert(output_idx as int == first_index(a.grants(), output_cap@));
        assert(input_idx as int == first_index(b.grants(), input_cap@));
    }
    let multiplicity = match interface_multiplicity(
        &a.namespace,
        output_cap,
        output_idx,
        &b.namespace,
        input_cap,
        input_idx,
    ) {
        Err(e) => return Err(SchubertError::CompositionFailed(e)),
        Ok(m) => m,
    };
    let mut retained: Vec<String> = Vec::new();
    push_ids_except(a, output_idx, &mut retained);
    push_ids_except(b, input_idx, &mut retained);
    Ok(CompositionResult { multiplicity, retained_capabilities: retained })
}

/// The interface codimensions a composition sums stay representable: the
/// output's and the input's, and their sum when they are glued.
pub open spec fn compose_fits(acl: &AccessController, a: Seq<char>, out: Seq<char>, b: Seq<char>, inp: Seq<char>) -> bool {
    has_principal(acl.roster(), a) && has_principal(acl.roster(), b) ==> {
        let ga = principal_of(acl.roster(), a).grants();
        let gb = principal_of(acl.roster(), b).grants();
        interface_fits(ga, out, first_index(ga, out) as usize, gb, inp, first_index(gb, inp) as usize)
    }
}

/// What `compose` returns.
pub open spec fn compose_result(
    acl: &AccessController,
    a: Seq<char>,
    out: Seq<char>,
    b: Seq<char>,
    inp: Seq<char>,
    r: Result<CompositionResult>,
) -> bool {
    if !has_principal(acl.roster(), a) {
        r matches Err(e) && e matches SchubertError::PrincipalNotFound(s) && s@ == a
    } else if !has_principal(acl.roster(), b) {
        r matches Err(e) && e matches SchubertError::PrincipalNotFound(s) && s@ == b
    } else {
        let ga = principal_of(acl.roster(), a).grants();
        let gb = principal_of(acl.roster(), b).grants();
        if !holds_id(ga, out) {
            r matches Err(e) && e matches SchubertError::CapabilityNotHeld { principal, capability }
                && principal@ == a && capability@ == out
        } else if !holds_id(gb, inp) {
            r matches Err(e) && e matches SchubertError::CapabilityNotHeld { principal, capability }
                && principal@ == b && capability@ == inp
        } else {
            let oi = first_index(ga, out);
            let ii = first_index(gb, inp);
            r matches Ok(c) && c.multiplicity == glue_value(
                ga,
                out,
                oi as usize,
                gb,
                inp,
                ii as usize,
                acl.gr().0,
                acl.gr().1,
            ) && string_views(c.retained_capabilities@) == ids_without(ga, oi) + ids_without(gb, ii)
        }
    }
}

/// Whether two principals are composable: A holds `output_cap` and B holds
/// `input_cap`. Does not compute the composition.
pub fn are_composable(
    acl: &AccessController,
    principal_a: &PrincipalId,
    output_cap: &str,
    principal_b: &PrincipalId,
    input_cap: &str,
) -> (r: bool)
    requires
        acl.wf(),
    ensures
        r == (has_principal(acl.roster(), principal_a.0@) && holds_id(
            principal_of(acl.roster(), principal_a.0@).grants(),
            output_cap@,
        ) && has_principal(acl.roster(), principal_b.0@) && holds_id(
            principal_of(acl.roster(), principal_b.0@).grants(),
            input_cap@,
        )),
{
    let a_ok = match acl.principal(principal_a) {
        None => false,
        Some(a) => a.holds(output_cap),
    };
    let b_ok = match acl.principal(principal_b) {
        None => false,
        Some(b) => b.holds(input_cap),
    };
    a_ok && b_ok
}

} // verus!
