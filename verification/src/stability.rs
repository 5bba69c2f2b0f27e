//! Namespace views that stability analysis compares: a namespace with one
//! capability taken out, and two namespaces merged.

use vstd::prelude::*;
use amari_enumerative::Namespace;
use crate::engine::{
    all_plain, first_grant, holds_id, namespace_frame, namespace_grant_from, namespace_grants, namespace_has,
    namespace_revoke,
};
use crate::error::{Result, SchubertError};

verus! {

/// The grants of `base` followed by each grant of `additions` whose
/// identifier is not yet held, in order.
pub open spec fn merged_grants(
    base: Seq<(Seq<char>, Seq<usize>, bool)>,
    additions: Seq<(Seq<char>, Seq<usize>, bool)>,
) -> Seq<(Seq<char>, Seq<usize>, bool)>
    decreases additions.len(),
{
    if additions.len() == 0 {
        base
    } else {
        let m = merged_grants(base, additions.drop_last());
        if holds_id(m, additions.last().0) {
            m
        } else {
            m.push(additions.last())
        }
    }
}

/// A copy of a namespace with the first copy of one capability revoked (the
/// retained view of a principal that gives that capability up); unchanged
/// when the capability is not held or another capability depends on it.
pub fn retained_namespace(namespace: &Namespace, remove_cap: &str) -> (r: Namespace)
    ensures
        namespace_frame(r) == namespace_frame(*namespace),
        namespace_grants(r) == namespace_grants(*namespace) || exists|i: int|
            first_grant(namespace_grants(*namespace), remove_cap@, i) && namespace_grants(r) == namespace_grants(
                *namespace,
            ).remove(i),
        all_plain(namespace_grants(*namespace)) ==> (holds_id(namespace_grants(*namespace), remove_cap@)
            <==> namespace_grants(r) != namespace_grants(*namespace)),
{
    let mut ns = namespace.clone();
    let removed = namespace_revoke(&mut ns, remove_cap);
    proof {
        if removed {
            let g = namespace_grants(*namespace);
            let i = choose|i: int| first_grant(g, remove_cap@, i) && namespace_grants(ns) == g.remove(i);
            assert(namespace_grants(ns).len() == g.len() - 1);
        }
    }
    ns
}

/// Merges two namespaces: `base` with every capability of `additions` that
/// it does not hold yet, in order. Fails only when a capability conflicts
/// or misses a dependency, which cannot happen when neither side carries
/// dependencies or conflicts.
pub fn merge_namespaces(base: &Namespace, additions: &Namespace) -> (r: Result<Namespace>)
    ensures
        all_plain(namespace_grants(*base)) && all_plain(namespace_grants(*additions)) ==> r is Ok,
        r matches Ok(ns) ==> namespace_frame(ns) == namespace_frame(*base) && namespace_grants(ns)
            == merged_grants(namespace_grants(*base), namespace_grants(*additions)),
{
    let ghost add = namespace_grants(*additions);
    let ghost b0 = namespace_grants(*base);
    let mut merged = base.clone();
    let list = crate::engine::namespace_list(additions);
    let count = list.len();
    let mut i: usize = 0;
    assert(add.subrange(0, 0) =~= Seq::<(Seq<char>, Seq<usize>, bool)>::empty());
    while i < count
        invariant
            count == add.len(),
            list@.len() == add.len(),
            forall|t: int| 0 <= t < list@.len() ==> (#[trigger] list@[t]).0@ == add[t].0,
            add == namespace_grants(*additions),
            b0 == namespace_grants(*base),
            i <= count,
            namespace_frame(merged) == namespace_frame(*base),
            namespace_grants(merged) == merged_grants(b0, add.subrange(0, i as int)),
            all_plain(b0) && all_plain(add) ==> all_plain(namespace_grants(merged)),
        decreases count - i,
    {
        let ghost sub1 = add.subrange(0, i + 1);
        proof {
            assert(sub1.drop_last() =~= add.subrange(0, i as int));
            assert(sub1.last() == add[i as int]);
        }
        if !namespace_has(&merged, list[i].0.as_str()) {
            let ghost before = namespace_grants(merged);
            match namespace_grant_from(&mut merged, additions, i) {
                Err(e) => {
                    return Err(SchubertError::Enumerative(crate::error::prefixed("Schubert calculus error: ", &e)));
                },
                Ok(()) => {},
            }
            proof {
                if all_plain(b0) && all_plain(add) {
                    assert forall|t: int| 0 <= t < namespace_grants(merged).len() implies #[trigger] namespace_grants(
                        merged,
                    )[t].2 by {
                        if t < before.len() {
                            assert(namespace_grants(merged)[t] == before[t]);
                        } else {
                            assert(namespace_grants(merged)[t] == add[i as int]);
                        }
                    }
                }
            }
        }
        i = i + 1;
    }
    assert(add.subrange(0, i as int) =~= add);
    Ok(merged)
}

} // verus!
