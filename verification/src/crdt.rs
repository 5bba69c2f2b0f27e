//! Distributed access control via CRDTs.
//!
//! Each node keeps a [`VersionVector`] of grant operations. Capability
//! grants are [`CrdtGrant`]s with last-write-wins semantics: nodes exchange
//! their state and merge it with [`CrdtState::merge`], and access checks are
//! computed from the merged, eventually-consistent state.

use vstd::prelude::*;
use vstd::std_specs::cmp::PartialEqSpecImpl;
use crate::capability::{Capability, CapabilityId};
use crate::controller::{
    cap_of, check_parts, check_result, has_cap, has_principal, holds_all, principal_of, principal_pos,
    unique_caps, AccessController,
};
use crate::engine::{holds_id, namespace_frame};
use crate::decision::{decision_of, str_views, AccessDecision, ComputationPath};
use crate::engine::{engine_fits, lr_outcome, partition_accepted};
use crate::error::{Result, SchubertError};
use crate::principal::{now_millis, PrincipalId};
use crate::util::{
    copy_sizes, copy_string, grassmannian_dim, has_key, keyed, keys_unique, lemma_keyed_at,
    lemma_keyed_push, lemma_keyed_set, owned, str_eq,
};

verus! {

// ── Version vectors ───────────────────────────────────────────────────

/// The counter a version map holds for a node (0 when absent).
pub open spec fn count(m: Map<Seq<char>, u64>, node: Seq<char>) -> u64 {
    if m.contains_key(node) { m[node] } else { 0 }
}

/// `a` happens before `b`: no counter of `a` exceeds `b`'s and at least one
/// is smaller.
pub open spec fn happens_before_spec(a: Map<Seq<char>, u64>, b: Map<Seq<char>, u64>) -> bool {
    &&& forall|k: Seq<char>| #[trigger] count(a, k) <= count(b, k)
    &&& exists|k: Seq<char>| #[trigger] count(a, k) < count(b, k)
}

/// The pointwise maximum of two version maps.
pub open spec fn merge_spec(a: Map<Seq<char>, u64>, b: Map<Seq<char>, u64>) -> Map<Seq<char>, u64> {
    Map::new(
        |k: Seq<char>| a.contains_key(k) || b.contains_key(k),
        |k: Seq<char>| if count(a, k) >= count(b, k) { count(a, k) } else { count(b, k) },
    )
}

/// A version vector — a map from node ID to operation counter.
///
/// Standard vector clock semantics: `a` happens-before `b` if all entries
/// in `a` are ≤ `b` and at least one is <.
#[derive(Debug)]
pub struct VersionVector {
    counters: Vec<(String, u64)>,
}

/// The entries of a counter list: each node once.
pub open spec fn entries_ok(c: Seq<(String, u64)>) -> bool {
    forall|i: int, j: int|
        0 <= i < c.len() && 0 <= j < c.len() && i != j ==> #[trigger] c[i].0@ != #[trigger] c[j].0@
}

/// The map a counter list denotes.
pub open spec fn entries_map(c: Seq<(String, u64)>) -> Map<Seq<char>, u64> {
    Map::new(
        |k: Seq<char>| exists|i: int| 0 <= i < c.len() && #[trigger] c[i].0@ == k,
        |k: Seq<char>| c[choose|i: int| 0 <= i < c.len() && #[trigger] c[i].0@ == k].1,
    )
}

proof fn lemma_entries_at(c: Seq<(String, u64)>, i: int)
    requires
        entries_ok(c),
        0 <= i < c.len(),
    ensures
        entries_map(c).contains_key(c[i].0@),
        entries_map(c)[c[i].0@] == c[i].1,
{
    let k = c[i].0@;
    assert(c[i].0@ == k);
    let j = choose|j: int| 0 <= j < c.len() && #[trigger] c[j].0@ == k;
    assert(j == i);
}

proof fn lemma_entries_push(c: Seq<(String, u64)>, s: String, v: u64)
    requires
        entries_ok(c),
        !entries_map(c).contains_key(s@),
    ensures
        entries_ok(c.push((s, v))),
        entries_map(c.push((s, v))) == entries_map(c).insert(s@, v),
{
    let d = c.push((s, v));
    assert forall|i: int| 0 <= i < c.len() implies #[trigger] c[i].0@ != s@ by {
        if c[i].0@ == s@ {
            lemma_entries_at(c, i);
        }
    }
    assert(entries_ok(d)) by {
        assert forall|i: int, j: int|
            0 <= i < d.len() && 0 <= j < d.len() && i != j implies #[trigger] d[i].0@ != #[trigger] d[j].0@ by {
            if i < c.len() && j < c.len() {
                assert(d[i] == c[i] && d[j] == c[j]);
            } else if i < c.len() {
                assert(d[i] == c[i]);
            } else {
                assert(d[j] == c[j]);
            }
        }
    }
    assert forall|k: Seq<char>| #[trigger] entries_map(d).contains_key(k) == entries_map(c).insert(s@, v).contains_key(k) by {
        if entries_map(c).contains_key(k) {
            let j = choose|j: int| 0 <= j < c.len() && #[trigger] c[j].0@ == k;
            assert(d[j] == c[j]);
        }
        if k == s@ {
            assert(d[c.len() as int].0@ == k);
        }
        if entries_map(d).contains_key(k) && k != s@ {
            let j = choose|j: int| 0 <= j < d.len() && #[trigger] d[j].0@ == k;
            assert(j < c.len());
            assert(c[j] == d[j]);
        }
    }
    assert forall|k: Seq<char>| #[trigger] entries_map(d).contains_key(k) implies entries_map(d)[k]
        == entries_map(c).insert(s@, v)[k] by {
        let j = choose|j: int| 0 <= j < d.len() && #[trigger] d[j].0@ == k;
        lemma_entries_at(d, j);
        if j < c.len() {
            assert(c[j] == d[j]);
            lemma_entries_at(c, j);
        }
    }
    assert(entries_map(d) =~= entries_map(c).insert(s@, v));
}

proof fn lemma_entries_set(c: Seq<(String, u64)>, i: int, v: u64)
    requires
        entries_ok(c),
        0 <= i < c.len(),
    ensures
        entries_ok(c.update(i, (c[i].0, v))),
        entries_map(c.update(i, (c[i].0, v))) == entries_map(c).insert(c[i].0@, v),
{
    let d = c.update(i, (c[i].0, v));
    let s = c[i].0@;
    assert(entries_ok(d)) by {
        assert forall|a: int, b: int|
            0 <= a < d.len() && 0 <= b < d.len() && a != b implies #[trigger] d[a].0@ != #[trigger] d[b].0@ by {
            assert(d[a].0 == c[a].0 && d[b].0 == c[b].0);
        }
    }
    lemma_entries_at(c, i);
    assert forall|k: Seq<char>| #[trigger] entries_map(d).contains_key(k) == entries_map(c).insert(s, v).contains_key(k) by {
        if entries_map(c).contains_key(k) {
            let j = choose|j: int| 0 <= j < c.len() && #[trigger] c[j].0@ == k;
            assert(d[j].0 == c[j].0);
        }
        if entries_map(d).contains_key(k) {
            let j = choose|j: int| 0 <= j < d.len() && #[trigger] d[j].0@ == k;
            assert(d[j].0 == c[j].0);
        }
    }
    assert forall|k: Seq<char>| #[trigger] entries_map(d).contains_key(k) implies entries_map(d)[k]
        == entries_map(c).insert(s, v)[k] by {
        let j = choose|j: int| 0 <= j < d.len() && #[trigger] d[j].0@ == k;
        lemma_entries_at(d, j);
        if j != i {
            assert(c[j] == d[j]);
            lemma_entries_at(c, j);
        }
    }
    assert(entries_map(d) =~= entries_map(c).insert(s, v));
}

/// A copy of a counter list.
fn copy_entries(c: &Vec<(String, u64)>) -> (r: Vec<(String, u64)>)
    ensures
        r@ == c@,
{
    let mut out: Vec<(String, u64)> = Vec::new();
    let mut i: usize = 0;
    while i < c.len()
        invariant
            i <= c@.len(),
            out@ == c@.subrange(0, i as int),
        decreases c.len() - i,
    {
        let s = copy_string(&c[i].0);
        out.push((s, c[i].1));
        assert(out@ =~= c@.subrange(0, i + 1));
        i = i + 1;
    }
    assert(c@.subrange(0, i as int) =~= c@);
    out
}

impl Clone for VersionVector {
    fn clone(&self) -> (r: Self)
        ensures
            r@ == self@,
    {
        proof {
            use_type_invariant(self);
        }
        VersionVector { counters: copy_entries(&self.counters) }
    }
}

impl View for VersionVector {
    type V = Map<Seq<char>, u64>;

    closed spec fn view(&self) -> Map<Seq<char>, u64> {
        entries_map(self.counters@)
    }
}

impl VersionVector {
    #[verifier::type_invariant]
    spec fn inv(self) -> bool {
        entries_ok(self.counters@)
    }

    /// Create a new empty version vector.
    pub fn new() -> (r: Self)
        ensures
            r@ == Map::<Seq<char>, u64>::empty(),
    {
        let r = VersionVector { counters: Vec::new() };
        assert(r@ =~= Map::<Seq<char>, u64>::empty());
        r
    }

    /// The index of a node's entry.
    fn find(&self, node_id: &str) -> (r: Option<usize>)
        ensures
            r matches Some(i) ==> i < self.counters@.len() && self.counters@[i as int].0@ == node_id@
                && self@.contains_key(node_id@) && self@[node_id@] == self.counters@[i as int].1,
            r is None ==> !self@.contains_key(node_id@),
    {
        proof {
            use_type_invariant(self);
        }
        let mut i: usize = 0;
        while i < self.counters.len()
            invariant
                entries_ok(self.counters@),
                i <= self.counters@.len(),
                forall|j: int| 0 <= j < i ==> #[trigger] self.counters@[j].0@ != node_id@,
            decreases self.counters.len() - i,
        {
            if str_eq(self.counters[i].0.as_str(), node_id) {
                proof {
                    lemma_entries_at(self.counters@, i as int);
                }
                return Some(i);
            }
            i = i + 1;
        }
        None
    }

    /// Increment the counter for a node.
    pub fn increment(&mut self, node_id: &str)
        requires
            count(old(self)@, node_id@) < u64::MAX,
        ensures
            final(self)@ == old(self)@.insert(node_id@, (count(old(self)@, node_id@) + 1) as u64),
    {
        proof {
            use_type_invariant(&*self);
        }
        let ghost before = self.counters@;
        match self.find(node_id) {
            Some(i) => {
                let v = self.counters[i].1;
                let key = copy_string(&self.counters[i].0);
                let mut c = copy_entries(&self.counters);
                proof {
                    assert(c@ == before);
                    lemma_entries_set(before, i as int, (v + 1) as u64);
                }
                c.set(i, (key, v + 1));
                assert(c@ =~= before.update(i as int, (before[i as int].0, (v + 1) as u64)));
                self.counters = c;
            },
            None => {
                let mut c = copy_entries(&self.counters);
                let key = owned(node_id);
                proof {
                    lemma_entries_push(before, key, 1);
                }
                c.push((key, 1));
                self.counters = c;
            },
        }
    }

    /// Get the counter for a node (0 when the node has none).
    pub fn get(&self, node_id: &str) -> (r: u64)
        ensures
            r == count(self@, node_id@),
    {
        match self.find(node_id) {
            Some(i) => self.counters[i].1,
            None => 0,
        }
    }

    /// Raise a node's counter to at least `val`.
    fn raise_to(&mut self, node_id: &str, val: u64)
        ensures
            final(self)@ == old(self)@.insert(
                node_id@,
                if count(old(self)@, node_id@) >= val { count(old(self)@, node_id@) } else { val },
            ),
    {
        proof {
            use_type_invariant(&*self);
        }
        let ghost before = self.counters@;
        match self.find(node_id) {
            Some(i) => {
                let cur = self.counters[i].1;
                if val > cur {
                    let key = copy_string(&self.counters[i].0);
                    let mut c = copy_entries(&self.counters);
                    proof {
                        lemma_entries_set(before, i as int, val);
                    }
                    c.set(i, (key, val));
                    assert(c@ =~= before.update(i as int, (before[i as int].0, val)));
                    self.counters = c;
                } else {
                    assert(self@ =~= self@.insert(node_id@, cur));
                }
            },
            None => {
                let mut c = copy_entries(&self.counters);
                let key = owned(node_id);
                proof {
                    lemma_entries_push(before, key, val);
                }
                c.push((key, val));
                self.counters = c;
            },
        }
    }

    /// Check if this vector happens-before another: no counter exceeds the
    /// other's and at least one is smaller.
    pub fn happens_before(&self, other: &Self) -> (r: bool)
        ensures
            r == happens_before_spec(self@, other@),
    {
        proof {
            use_type_invariant(self);
            use_type_invariant(other);
        }
        let mut any_less = false;
        let mut i: usize = 0;
        while i < self.counters.len()
            invariant
                entries_ok(self.counters@),
                i <= self.counters@.len(),
                forall|j: int| 0 <= j < i ==> count(self@, #[trigger] self.counters@[j].0@) <= count(other@, self.counters@[j].0@),
                any_less ==> exists|j: int| 0 <= j < i && count(self@, #[trigger] self.counters@[j].0@) < count(other@, self.counters@[j].0@),
                !any_less ==> forall|j: int| 0 <= j < i ==> count(self@, #[trigger] self.counters@[j].0@) == count(other@, self.counters@[j].0@),
            decreases self.counters.len() - i,
        {
            proof {
                lemma_entries_at(self.counters@, i as int);
            }
            let a = self.counters[i].1;
            let b = other.get(self.counters[i].0.as_str());
            if a > b {
                proof {
                    let k = self.counters@[i as int].0@;
                    assert(count(self@, k) > count(other@, k));
                }
                return false;
            }
            if a < b {
                any_less = true;
            }
            i = i + 1;
        }
        let mut j: usize = 0;
        while j < other.counters.len()
            invariant
                entries_ok(self.counters@),
                entries_ok(other.counters@),
                i == self.counters@.len(),
                j <= other.counters@.len(),
                forall|t: int| 0 <= t < i ==> count(self@, #[trigger] self.counters@[t].0@) <= count(other@, self.counters@[t].0@),
                forall|t: int| 0 <= t < j ==> count(self@, #[trigger] other.counters@[t].0@) <= count(other@, other.counters@[t].0@),
                any_less ==> exists|k: Seq<char>| #[trigger] count(self@, k) < count(other@, k),
                !any_less ==> forall|t: int| 0 <= t < i ==> count(self@, #[trigger] self.counters@[t].0@) == count(other@, self.counters@[t].0@),
                !any_less ==> forall|t: int| 0 <= t < j ==> count(self@, #[trigger] other.counters@[t].0@) == count(other@, other.counters@[t].0@),
            decreases other.counters.len() - j,
        {
            proof {
                lemma_entries_at(other.counters@, j as int);
            }
            let b = other.counters[j].1;
            let a = self.get(other.counters[j].0.as_str());
            if a > b {
                proof {
                    let k = other.counters@[j as int].0@;
                    assert(count(self@, k) > count(other@, k));
                }
                return false;
            }
            if a < b {
                proof {
                    let k = other.counters@[j as int].0@;
                    assert(count(self@, k) < count(other@, k));
                }
                any_less = true;
            }
            j = j + 1;
        }
        proof {
            assert forall|k: Seq<char>| #[trigger] count(self@, k) <= count(other@, k) by {
                if self@.contains_key(k) {
                    let t = choose|t: int| 0 <= t < self.counters@.len() && #[trigger] self.counters@[t].0@ == k;
                    assert(count(self@, self.counters@[t].0@) <= count(other@, self.counters@[t].0@));
                } else if other@.contains_key(k) {
                    let t = choose|t: int| 0 <= t < other.counters@.len() && #[trigger] other.counters@[t].0@ == k;
                    assert(count(self@, other.counters@[t].0@) <= count(other@, other.counters@[t].0@));
                }
            }
            if !any_less {
                assert forall|k: Seq<char>| !(#[trigger] count(self@, k) < count(other@, k)) by {
                    if self@.contains_key(k) {
                        let t = choose|t: int| 0 <= t < self.counters@.len() && #[trigger] self.counters@[t].0@ == k;
                        assert(count(self@, self.counters@[t].0@) == count(other@, self.counters@[t].0@));
                    } else if other@.contains_key(k) {
                        let t = choose|t: int| 0 <= t < other.counters@.len() && #[trigger] other.counters@[t].0@ == k;
                        assert(count(self@, other.counters@[t].0@) == count(other@, other.counters@[t].0@));
                    }
                }
            }
        }
        any_less
    }

    /// Whether this vector has seen every operation of `other`: no counter
    /// of `other` exceeds this one's.
    pub fn covers(&self, other: &Self) -> (r: bool)
        ensures
            r == version_le(other@, self@),
    {
        proof {
            use_type_invariant(self);
            use_type_invariant(other);
        }
        let mut j: usize = 0;
        while j < other.counters.len()
            invariant
                entries_ok(other.counters@),
                j <= other.counters@.len(),
                forall|t: int| 0 <= t < j ==> count(other@, #[trigger] other.counters@[t].0@) <= count(self@, other.counters@[t].0@),
            decreases other.counters.len() - j,
        {
            proof {
                lemma_entries_at(other.counters@, j as int);
            }
            let b = other.counters[j].1;
            let a = self.get(other.counters[j].0.as_str());
            if b > a {
                proof {
                    let k = other.counters@[j as int].0@;
                    assert(count(other@, k) > count(self@, k));
                }
                return false;
            }
            j = j + 1;
        }
        proof {
            assert forall|k: Seq<char>| #[trigger] count(other@, k) <= count(self@, k) by {
                if other@.contains_key(k) {
                    let t = choose|t: int| 0 <= t < other.counters@.len() && #[trigger] other.counters@[t].0@ == k;
                    assert(count(other@, other.counters@[t].0@) <= count(self@, other.counters@[t].0@));
                }
            }
        }
        true
    }

    /// Merge two version vectors (pointwise max).
    pub fn merge(&self, other: &Self) -> (r: Self)
        ensures
            r@ == merge_spec(self@, other@),
    {
        proof {
            use_type_invariant(self);
            use_type_invariant(other);
        }
        let mut result = self.clone();
        let mut j: usize = 0;
        while j < other.counters.len()
            invariant
                entries_ok(other.counters@),
                j <= other.counters@.len(),
                result@ == merge_spec(self@, entries_map(other.counters@.subrange(0, j as int))),
            decreases other.counters.len() - j,
        {
            let ghost pre = other.counters@.subrange(0, j as int);
            let ghost k = other.counters@[j as int].0@;
            let ghost v = other.counters@[j as int].1;
            proof {
                assert(entries_ok(pre));
                assert(!entries_map(pre).contains_key(k)) by {
                    if entries_map(pre).contains_key(k) {
                        let t = choose|t: int| 0 <= t < pre.len() && #[trigger] pre[t].0@ == k;
                        assert(other.counters@[t].0@ == k);
                    }
                }
                lemma_entries_push(pre, other.counters@[j as int].0, v);
                assert(pre.push(other.counters@[j as int]) =~= other.counters@.subrange(0, j + 1));
            }
            result.raise_to(other.counters[j].0.as_str(), other.counters[j].1);
            proof {
                let post = entries_map(other.counters@.subrange(0, j + 1));
                assert(post == entries_map(pre).insert(k, v));
                assert(result@ =~= merge_spec(self@, post));
            }
            j = j + 1;
        }
        proof {
            assert(other.counters@.subrange(0, j as int) =~= other.counters@);
        }
        result
    }
}

impl PartialEq for VersionVector {
    fn eq(&self, other: &Self) -> (r: bool) {
        proof {
            use_type_invariant(self);
            use_type_invariant(other);
        }
        let mut i: usize = 0;
        while i < self.counters.len()
            invariant
                entries_ok(self.counters@),
                i <= self.counters@.len(),
                forall|t: int| 0 <= t < i ==> other@.contains_key(#[trigger] self.counters@[t].0@)
                    && other@[self.counters@[t].0@] == self.counters@[t].1,
            decreases self.counters.len() - i,
        {
            proof {
                lemma_entries_at(self.counters@, i as int);
            }
            match other.find(self.counters[i].0.as_str()) {
                None => {
                    return false;
                },
                Some(o) => {
                    if other.counters[o].1 != self.counters[i].1 {
                        return false;
                    }
                },
            }
            i = i + 1;
        }
        let mut j: usize = 0;
        while j < other.counters.len()
            invariant
                entries_ok(other.counters@),
                j <= other.counters@.len(),
                forall|t: int| 0 <= t < j ==> self@.contains_key(#[trigger] other.counters@[t].0@),
            decreases other.counters.len() - j,
        {
            if self.find(other.counters[j].0.as_str()).is_none() {
                proof {
                    lemma_entries_at(other.counters@, j as int);
                }
                return false;
            }
            j = j + 1;
        }
        proof {
            assert forall|k: Seq<char>| #[trigger] self@.contains_key(k) implies other@.contains_key(k) && other@[k]
                == self@[k] by {
                let t = choose|t: int| 0 <= t < self.counters@.len() && #[trigger] self.counters@[t].0@ == k;
                lemma_entries_at(self.counters@, t);
            }
            assert forall|k: Seq<char>| #[trigger] other@.contains_key(k) implies self@.contains_key(k) by {
                let t = choose|t: int| 0 <= t < other.counters@.len() && #[trigger] other.counters@[t].0@ == k;
            }
            assert(self@ =~= other@);
        }
        true
    }
}

impl PartialEqSpecImpl for VersionVector {
    open spec fn obeys_eq_spec() -> bool {
        true
    }

    open spec fn eq_spec(&self, other: &Self) -> bool {
        self@ == other@
    }
}

impl Eq for VersionVector {}

/// Merging version vectors is commutative.
pub proof fn law_merge_commutative(a: Map<Seq<char>, u64>, b: Map<Seq<char>, u64>)
    ensures
        merge_spec(a, b) == merge_spec(b, a),
{
    assert(merge_spec(a, b) =~= merge_spec(b, a));
}

/// Merging version vectors is associative.
pub proof fn law_merge_associative(a: Map<Seq<char>, u64>, b: Map<Seq<char>, u64>, c: Map<Seq<char>, u64>)
    ensures
        merge_spec(merge_spec(a, b), c) == merge_spec(a, merge_spec(b, c)),
{
    assert(merge_spec(merge_spec(a, b), c) =~= merge_spec(a, merge_spec(b, c)));
}

/// Merging a version vector with itself changes nothing.
pub proof fn law_merge_idempotent(a: Map<Seq<char>, u64>)
    ensures
        merge_spec(a, a) == a,
{
    assert(merge_spec(a, a) =~= a);
}

/// A merge is an upper bound of both sides: no counter of either exceeds it.
pub proof fn law_merge_upper_bound(a: Map<Seq<char>, u64>, b: Map<Seq<char>, u64>, node: Seq<char>)
    ensures
        count(a, node) <= count(merge_spec(a, b), node),
        count(b, node) <= count(merge_spec(a, b), node),
{
}

/// Happens-before is a strict order: irreflexive, asymmetric and transitive.
pub proof fn law_happens_before_strict(a: Map<Seq<char>, u64>, b: Map<Seq<char>, u64>, c: Map<Seq<char>, u64>)
    ensures
        !happens_before_spec(a, a),
        happens_before_spec(a, b) ==> !happens_before_spec(b, a),
        happens_before_spec(a, b) && happens_before_spec(b, c) ==> happens_before_spec(a, c),
{
    if happens_before_spec(a, b) && happens_before_spec(b, a) {
        let k = choose|k: Seq<char>| #[trigger] count(a, k) < count(b, k);
        assert(count(b, k) <= count(a, k));
    }
    if happens_before_spec(a, b) && happens_before_spec(b, c) {
        let k = choose|k: Seq<char>| #[trigger] count(a, k) < count(b, k);
        assert(count(b, k) <= count(c, k));
        assert forall|x: Seq<char>| #[trigger] count(a, x) <= count(c, x) by {
            assert(count(a, x) <= count(b, x));
            assert(count(b, x) <= count(c, x));
        }
    }
}


// ── Grants and state ──────────────────────────────────────────────────

/// A capability grant in a CRDT state, stamped with the version vector and
/// timestamp of the operation that made it; `active` is false once revoked.
#[derive(Debug, Clone)]
pub struct CrdtGrant {
    /// The principal receiving this grant.
    pub principal: PrincipalId,
    /// The capability being granted.
    pub capability: CapabilityId,
    /// Version vector at the time of grant.
    pub version: VersionVector,
    /// Timestamp of grant (for tiebreaking).
    pub timestamp_ms: u64,
    /// Whether this grant is active (false = revoked).
    pub active: bool,
}

/// The (principal, capability) key of a grant.
pub open spec fn gkey() -> spec_fn(CrdtGrant) -> (Seq<char>, Seq<char>) {
    |g: CrdtGrant| (g.principal.0@, g.capability.0@)
}

/// What a grant records: its version, timestamp and whether it is active.
pub open spec fn gval() -> spec_fn(CrdtGrant) -> (Map<Seq<char>, u64>, u64, bool) {
    |g: CrdtGrant| (g.version@, g.timestamp_ms, g.active)
}

/// No counter of `a` exceeds `b`'s.
pub open spec fn version_le(a: Map<Seq<char>, u64>, b: Map<Seq<char>, u64>) -> bool {
    forall|k: Seq<char>| #[trigger] count(a, k) <= count(b, k)
}

/// An incoming record `inc` replaces the record `cur` it meets under the
/// same key when it is newer: its version happens after `cur`'s, or neither
/// version happens before the other (equal or concurrent versions) and its
/// timestamp is later. On equal versions and timestamps the current record
/// stays.
pub open spec fn supersedes(
    inc: (Map<Seq<char>, u64>, u64, bool),
    cur: (Map<Seq<char>, u64>, u64, bool),
) -> bool {
    happens_before_spec(cur.0, inc.0) || (!happens_before_spec(inc.0, cur.0) && inc.1 > cur.1)
}

/// Whether a record with the given version and timestamp leaves the current
/// record `cur` in place.
fn keeps_current(version: &VersionVector, timestamp_ms: u64, cur: &CrdtGrant) -> (r: bool)
    ensures
        r == !supersedes((version@, timestamp_ms, true), gval()(*cur)),
{
    proof {
        law_happens_before_strict(version@, cur.version@, version@);
    }
    version.happens_before(&cur.version) || (!cur.version.happens_before(version)
        && timestamp_ms <= cur.timestamp_ms)
}

/// The ledger after merging `other` into `mine`, key by key.
pub open spec fn merge_ledgers(
    mine: Map<(Seq<char>, Seq<char>), (Map<Seq<char>, u64>, u64, bool)>,
    other: Map<(Seq<char>, Seq<char>), (Map<Seq<char>, u64>, u64, bool)>,
) -> Map<(Seq<char>, Seq<char>), (Map<Seq<char>, u64>, u64, bool)> {
    Map::new(
        |k: (Seq<char>, Seq<char>)| mine.contains_key(k) || other.contains_key(k),
        |k: (Seq<char>, Seq<char>)|
            if other.contains_key(k) && (!mine.contains_key(k) || supersedes(other[k], mine[k])) {
                other[k]
            } else {
                mine[k]
            },
    )
}

/// A copy of a grant.
fn copy_grant(g: &CrdtGrant) -> (r: CrdtGrant)
    ensures
        gkey()(r) == gkey()(*g),
        gval()(r) == gval()(*g),
{
    CrdtGrant {
        principal: PrincipalId(copy_string(&g.principal.0)),
        capability: CapabilityId(copy_string(&g.capability.0)),
        version: g.version.clone(),
        timestamp_ms: g.timestamp_ms,
        active: g.active,
    }
}

/// A copy of a capability.
pub(crate) fn copy_capability(c: &Capability) -> (r: Capability)
    ensures
        r.id.0@ == c.id.0@,
        r.label@ == c.label@,
        r.description@ == c.description@,
        r.partition@ == c.partition@,
        r.kind == c.kind,
{
    Capability {
        id: CapabilityId(copy_string(&c.id.0)),
        label: copy_string(&c.label),
        description: copy_string(&c.description),
        partition: copy_sizes(&c.partition),
        kind: c.kind,
    }
}

/// The fields of a capability.
pub open spec fn cap_view(c: Capability) -> (Seq<char>, Seq<char>, Seq<char>, Seq<usize>, crate::capability::CapabilityKind) {
    (c.id.0@, c.label@, c.description@, c.partition@, c.kind)
}

/// CRDT-based access control state.
///
/// Maintains an eventually-consistent set of capability grants, one per
/// (principal, capability), that can be merged across distributed nodes.
#[derive(Debug)]
pub struct CrdtState {
    grassmannian: (usize, usize),
    capabilities: Vec<Capability>,
    grants: Vec<CrdtGrant>,
    version: VersionVector,
    max_staleness_ms: Option<u64>,
}

/// A copy of a list of capabilities.
fn copy_capabilities(v: &Vec<Capability>) -> (r: Vec<Capability>)
    ensures
        r@.len() == v@.len(),
        forall|i: int| 0 <= i < v@.len() ==> cap_view(#[trigger] r@[i]) == cap_view(v@[i]),
{
    let mut out: Vec<Capability> = Vec::new();
    let mut i: usize = 0;
    while i < v.len()
        invariant
            i <= v@.len(),
            out@.len() == i,
            forall|j: int| 0 <= j < i ==> cap_view(#[trigger] out@[j]) == cap_view(v@[j]),
        decreases v.len() - i,
    {
        out.push(copy_capability(&v[i]));
        i = i + 1;
    }
    out
}

/// A copy of a list of grants.
fn copy_grants(v: &Vec<CrdtGrant>) -> (r: Vec<CrdtGrant>)
    ensures
        r@.len() == v@.len(),
        forall|i: int|
            0 <= i < v@.len() ==> gkey()(#[trigger] r@[i]) == gkey()(v@[i]) && gval()(r@[i]) == gval()(v@[i]),
{
    let mut out: Vec<CrdtGrant> = Vec::new();
    let mut i: usize = 0;
    while i < v.len()
        invariant
            i <= v@.len(),
            out@.len() == i,
            forall|j: int|
                0 <= j < i ==> gkey()(#[trigger] out@[j]) == gkey()(v@[j]) && gval()(out@[j]) == gval()(v@[j]),
        decreases v.len() - i,
    {
        out.push(copy_grant(&v[i]));
        i = i + 1;
    }
    out
}

impl Clone for CrdtState {
    fn clone(&self) -> (r: Self)
        ensures
            r.gr() == self.gr(),
            r.registry().len() == self.registry().len(),
            forall|i: int|
                0 <= i < self.registry().len() ==> cap_view(#[trigger] r.registry()[i]) == cap_view(
                    self.registry()[i],
                ),
            r.grant_list().len() == self.grant_list().len(),
            forall|i: int|
                0 <= i < self.grant_list().len() ==> gkey()(#[trigger] r.grant_list()[i]) == gkey()(
                    self.grant_list()[i],
                ) && gval()(r.grant_list()[i]) == gval()(self.grant_list()[i]),
            r.clock() == self.clock(),
            r.staleness_limit() == self.staleness_limit(),
    {
        CrdtState {
            grassmannian: self.grassmannian,
            capabilities: copy_capabilities(&self.capabilities),
            grants: copy_grants(&self.grants),
            version: self.version.clone(),
            max_staleness_ms: self.max_staleness_ms,
        }
    }
}

impl CrdtState {
    /// The Grassmannian (k, n).
    pub closed spec fn gr(&self) -> (usize, usize) {
        self.grassmannian
    }

    /// The registered capabilities.
    pub closed spec fn registry(&self) -> Seq<Capability> {
        self.capabilities@
    }

    /// The grants, in the order they were first recorded.
    pub closed spec fn grant_list(&self) -> Seq<CrdtGrant> {
        self.grants@
    }

    /// The state's version vector.
    pub closed spec fn clock(&self) -> Map<Seq<char>, u64> {
        self.version@
    }

    /// The configured staleness limit.
    pub closed spec fn staleness_limit(&self) -> Option<u64> {
        self.max_staleness_ms
    }

    /// The grant record of each (principal, capability).
    pub open spec fn ledger(&self) -> Map<(Seq<char>, Seq<char>), (Map<Seq<char>, u64>, u64, bool)> {
        keyed(self.grant_list(), gkey(), gval())
    }

    /// Well-formedness: 1 ≤ k < n with k(n−k) representable, one capability
    /// per identifier, one grant per key, and no grant newer than the
    /// state's version vector.
    pub open spec fn wf(&self) -> bool {
        &&& 1 <= self.gr().0 < self.gr().1
        &&& unique_caps(self.registry())
        &&& keys_unique(self.grant_list(), gkey())
        &&& forall|k: (Seq<char>, Seq<char>)|
            #[trigger] self.ledger().contains_key(k) ==> version_le(self.ledger()[k].0, self.clock())
    }

    /// Create a new CRDT state for Gr(k,n); requires k ≥ 1, n ≥ 2, k < n.
    pub fn new(k: usize, n: usize) -> (r: Result<Self>)
        ensures
            (r is Ok) == (k >= 1 && n >= 2 && k < n),
            r matches Ok(s) ==> s.wf() && s.gr() == (k, n) && s.registry() == Seq::<Capability>::empty()
                && s.ledger() == Map::<(Seq<char>, Seq<char>), (Map<Seq<char>, u64>, u64, bool)>::empty()
                && s.clock() == Map::<Seq<char>, u64>::empty() && s.staleness_limit() is None,
            r matches Err(e) ==> e matches SchubertError::InvalidGrassmannian { k: ek, n: en, reason }
                && ek == k && en == n && reason@ == "require k ≥ 1, n ≥ 2, k < n"@,
    {
        if k == 0 || n < 2 || k >= n {
            return Err(
                SchubertError::InvalidGrassmannian {
                    k,
                    n,
                    reason: owned("require k ≥ 1, n ≥ 2, k < n"),
                },
            );
        }
        let s = CrdtState {
            grassmannian: (k, n),
            capabilities: Vec::new(),
            grants: Vec::new(),
            version: VersionVector::new(),
            max_staleness_ms: None,
        };
        assert(s.ledger() =~= Map::<(Seq<char>, Seq<char>), (Map<Seq<char>, u64>, u64, bool)>::empty());
        Ok(s)
    }

    fn find_capability(&self, id: &str) -> (r: Option<usize>)
        ensures
            r matches Some(i) ==> i < self.registry().len() && self.registry()[i as int].id.0@ == id@,
            r is None ==> !has_cap(self.registry(), id@),
    {
        let mut i: usize = 0;
        while i < self.capabilities.len()
            invariant
                i <= self.capabilities@.len(),
                forall|j: int| 0 <= j < i ==> #[trigger] self.capabilities@[j].id.0@ != id@,
            decreases self.capabilities.len() - i,
        {
            if str_eq(self.capabilities[i].id.0.as_str(), id) {
                return Some(i);
            }
            i = i + 1;
        }
        None
    }

    fn find_grant(&self, principal: &str, capability: &str) -> (r: Option<usize>)
        requires
            keys_unique(self.grant_list(), gkey()),
        ensures
            r matches Some(i) ==> i < self.grant_list().len() && gkey()(self.grant_list()[i as int])
                == (principal@, capability@) && self.ledger().contains_key((principal@, capability@))
                && self.ledger()[(principal@, capability@)] == gval()(self.grant_list()[i as int]),
            r is None ==> !self.ledger().contains_key((principal@, capability@)),
    {
        let ghost key = (principal@, capability@);
        let mut i: usize = 0;
        while i < self.grants.len()
            invariant
                keys_unique(self.grant_list(), gkey()),
                key == (principal@, capability@),
                i <= self.grants@.len(),
                forall|j: int| 0 <= j < i ==> #[trigger] gkey()(self.grants@[j]) != key,
            decreases self.grants.len() - i,
        {
            assert(gkey()(self.grants@[i as int]) == (self.grants@[i as int].principal.0@, self.grants@[i as int].capability.0@));
            if str_eq(self.grants[i].principal.0.as_str(), principal) && str_eq(
                self.grants[i].capability.0.as_str(),
                capability,
            ) {
                proof {
                    lemma_keyed_at(self.grants@, gkey(), gval(), i as int);
                }
                return Some(i);
            }
            i = i + 1;
        }
        None
    }

    /// Record a grant under its key, replacing any record there.
    fn upsert(&mut self, g: CrdtGrant)
        requires
            keys_unique(old(self).grant_list(), gkey()),
        ensures
            keys_unique(final(self).grant_list(), gkey()),
            final(self).ledger() == old(self).ledger().insert(gkey()(g), gval()(g)),
            final(self).gr() == old(self).gr(),
            final(self).registry() == old(self).registry(),
            final(self).clock() == old(self).clock(),
            final(self).staleness_limit() == old(self).staleness_limit(),
    {
        let ghost before = self.grants@;
        match self.find_grant(g.principal.0.as_str(), g.capability.0.as_str()) {
            Some(i) => {
                proof {
                    lemma_keyed_set(before, gkey(), gval(), i as int, g);
                }
                self.grants.set(i, g);
            },
            None => {
                proof {
                    assert(!has_key(before, gkey(), gkey()(g)));
                    lemma_keyed_push(before, gkey(), gval(), g);
                }
                self.grants.push(g);
            },
        }
    }

    /// Register a capability. The partition is validated against the
    /// Grassmannian; an identifier can be registered once.
    pub fn register_capability(&mut self, cap: Capability) -> (r: Result<()>)
        requires
            old(self).wf(),
        ensures
            final(self).wf(),
            final(self).gr() == old(self).gr(),
            final(self).ledger() == old(self).ledger(),
            final(self).clock() == old(self).clock(),
            final(self).staleness_limit() == old(self).staleness_limit(),
            has_cap(old(self).registry(), cap.id.0@) ==> (r matches Err(
                SchubertError::CapabilityExists(s),
            ) && s@ == cap.id.0@),
            !has_cap(old(self).registry(), cap.id.0@) && !partition_accepted(
                cap.partition@,
                old(self).gr().0,
                old(self).gr().1,
            ) ==> (r matches Err(SchubertError::InvalidPartition { partition, k, n, .. })
                && partition@ == cap.partition@ && k == old(self).gr().0 && n == old(self).gr().1),
            r is Ok <==> !has_cap(old(self).registry(), cap.id.0@) && partition_accepted(
                cap.partition@,
                old(self).gr().0,
                old(self).gr().1,
            ),
            r is Ok ==> final(self).registry() == old(self).registry().push(cap),
            r is Err ==> final(self).registry() == old(self).registry(),
    {
        if self.find_capability(cap.id.0.as_str()).is_some() {
            return Err(SchubertError::CapabilityExists(cap.id.to_string()));
        }
        match cap.to_schubert_class(self.grassmannian) {
            Err(e) => Err(e),
            Ok(_) => {
                let ghost old_reg = self.capabilities@;
                self.capabilities.push(cap);
                proof {
                    let reg = self.capabilities@;
                    assert forall|i: int, j: int|
                        0 <= i < reg.len() && 0 <= j < reg.len() && i != j implies #[trigger] reg[i].id.0@
                        != #[trigger] reg[j].id.0@ by {
                        if i < old_reg.len() && j < old_reg.len() {
                            assert(reg[i] == old_reg[i] && reg[j] == old_reg[j]);
                        } else if i < old_reg.len() {
                            assert(reg[i] == old_reg[i]);
                        } else {
                            assert(reg[j] == old_reg[j]);
                        }
                    }
                    assert(unique_caps(reg));
                    assert(self.ledger() == old(self).ledger());
                    assert(self.clock() == old(self).clock());
                }
                Ok(())
            },
        }
    }

    /// Grant a capability to a principal on a specific node.
    ///
    /// The node's counter is advanced and the grant is stamped with the
    /// resulting version vector; it replaces the principal's record for the
    /// capability unless that record is newer (last write wins, the
    /// timestamp breaking ties between equal versions).
    pub fn grant(&mut self, principal: &str, capability: &str, node_id: &str, timestamp_ms: u64) -> (r: Result<()>)
        requires
            old(self).wf(),
            count(old(self).clock(), node_id@) < u64::MAX,
        ensures
            final(self).wf(),
            crdt_grant_effect(*old(self), *final(self), principal@, capability@, node_id@, timestamp_ms, r),
    {
        if self.find_capability(capability).is_none() {
            return Err(SchubertError::CapabilityNotFound(owned(capability)));
        }
        let ghost before = *self;
        self.version.increment(node_id);
        proof {
            lemma_clock_advance(before.clock(), node_id@);
        }
        let g = CrdtGrant {
            principal: PrincipalId::new(principal),
            capability: CapabilityId::new(capability),
            version: self.version.clone(),
            timestamp_ms,
            active: true,
        };
        proof {
            assert forall|k: (Seq<char>, Seq<char>)| #[trigger] self.ledger().contains_key(k) implies version_le(
                self.ledger()[k].0,
                self.clock(),
            ) by {
                assert(version_le(before.ledger()[k].0, before.clock()));
            }
        }
        match self.find_grant(principal, capability) {
            Some(i) => {
                if keeps_current(&g.version, g.timestamp_ms, &self.grants[i]) {
                    return Ok(());
                }
            },
            None => {},
        }
        let ghost mid = *self;
        let ghost key = (principal@, capability@);
        self.upsert(g);
        proof {
            assert forall|k: (Seq<char>, Seq<char>)| #[trigger] self.ledger().contains_key(k) implies version_le(
                self.ledger()[k].0,
                self.clock(),
            ) by {
                if k != key {
                    assert(mid.ledger().contains_key(k));
                } else {
                    assert forall|x: Seq<char>| #[trigger] count(self.clock(), x) <= count(self.clock(), x) by {}
                }
            }
        }
        Ok(())
    }

    /// Revoke a capability from a principal on a specific node: the record
    /// becomes inactive, stamped with the advanced version vector.
    pub fn revoke(&mut self, principal: &str, capability: &str, node_id: &str, timestamp_ms: u64) -> (r: Result<()>)
        requires
            old(self).wf(),
            count(old(self).clock(), node_id@) < u64::MAX,
        ensures
            final(self).wf(),
            r is Ok,
            crdt_revoke_effect(*old(self), *final(self), principal@, capability@, node_id@, timestamp_ms),
    {
        let ghost before = *self;
        self.version.increment(node_id);
        proof {
            lemma_clock_advance(before.clock(), node_id@);
        }
        let g = CrdtGrant {
            principal: PrincipalId::new(principal),
            capability: CapabilityId::new(capability),
            version: self.version.clone(),
            timestamp_ms,
            active: false,
        };
        proof {
            assert forall|k: (Seq<char>, Seq<char>)| #[trigger] self.ledger().contains_key(k) implies version_le(
                self.ledger()[k].0,
                self.clock(),
            ) by {
                assert(version_le(before.ledger()[k].0, before.clock()));
            }
        }
        let ghost mid = *self;
        let ghost key = (principal@, capability@);
        self.upsert(g);
        proof {
            assert forall|k: (Seq<char>, Seq<char>)| #[trigger] self.ledger().contains_key(k) implies version_le(
                self.ledger()[k].0,
                self.clock(),
            ) by {
                if k != key {
                    assert(mid.ledger().contains_key(k));
                } else {
                    assert forall|x: Seq<char>| #[trigger] count(self.clock(), x) <= count(self.clock(), x) by {}
                }
            }
        }
        Ok(())
    }

    /// Whether a principal holds a capability: its record is active.
    pub fn holds(&self, principal: &PrincipalId, capability: &str) -> (r: bool)
        requires
            self.wf(),
        ensures
            r == crdt_holds(*self, principal.0@, capability@),
    {
        match self.find_grant(principal.0.as_str(), capability) {
            Some(i) => self.grants[i].active,
            None => false,
        }
    }

    /// Get the current version vector.
    pub fn version(&self) -> (r: &VersionVector)
        ensures
            r@ == self.clock(),
    {
        &self.version
    }

    /// Set the maximum allowed staleness; `None` disables staleness gating.
    pub fn set_max_staleness(&mut self, max_staleness_ms: Option<u64>)
        requires
            old(self).wf(),
        ensures
            final(self).wf(),
            final(self).staleness_limit() == max_staleness_ms,
            final(self).gr() == old(self).gr(),
            final(self).registry() == old(self).registry(),
            final(self).ledger() == old(self).ledger(),
            final(self).clock() == old(self).clock(),
    {
        self.max_staleness_ms = max_staleness_ms;
        assert(1 <= self.gr().0 < self.gr().1);
        assert(unique_caps(self.registry()));
        assert(keys_unique(self.grant_list(), gkey()));
        assert(self.ledger() == old(self).ledger());
        assert(self.clock() == old(self).clock());
    }

    /// Whether this state has seen every operation known to `other_version`:
    /// no counter of that version exceeds this state's.
    pub fn is_converged_with(&self, other_version: &VersionVector) -> (r: bool)
        ensures
            r == version_le(other_version@, self.clock()),
    {
        self.version.covers(other_version)
    }

    /// The capabilities a principal actively holds, in record order.
    pub fn active_grants(&self, principal: &PrincipalId) -> (r: Vec<String>)
        ensures
            r@.len() == active_caps(self.grant_list(), principal.0@).len(),
            forall|i: int| 0 <= i < r@.len() ==> (#[trigger] r@[i])@ == active_caps(self.grant_list(), principal.0@)[i],
    {
        let ghost p = principal.0@;
        let mut out: Vec<String> = Vec::new();
        let mut i: usize = 0;
        while i < self.grants.len()
            invariant
                p == principal.0@,
                i <= self.grants@.len(),
                out@.len() == active_caps(self.grants@.subrange(0, i as int), p).len(),
                forall|j: int| 0 <= j < out@.len() ==> (#[trigger] out@[j])@ == active_caps(self.grants@.subrange(0, i as int), p)[j],
            decreases self.grants.len() - i,
        {
            let ghost sub0 = self.grants@.subrange(0, i as int);
            let ghost sub1 = self.grants@.subrange(0, i + 1);
            let ghost g = self.grants@[i as int];
            assert(sub1.drop_last() =~= sub0);
            assert(sub1.last() == g);
            assert(active_caps(sub1, p) == if g.principal.0@ == p && g.active {
                active_caps(sub0, p).push(g.capability.0@)
            } else {
                active_caps(sub0, p)
            });
            if str_eq(self.grants[i].principal.0.as_str(), principal.0.as_str()) && self.grants[i].active {
                out.push(copy_string(&self.grants[i].capability.0));
            }
            assert(out@.len() == active_caps(sub1, p).len());
            i = i + 1;
        }
        assert(self.grants@.subrange(0, i as int) =~= self.grants@);
        out
    }

    /// The age of the oldest active grant: the latest timestamp of any
    /// record minus the oldest active grant's timestamp (0 if that is
    /// later), or `None` when no grant is active.
    pub fn staleness_ms(&self) -> (r: Option<u64>)
        ensures
            r == match oldest_active(self.grant_list()) {
                None => None,
                Some(o) => Some(if latest(self.grant_list()) >= o { (latest(self.grant_list()) - o) as u64 } else { 0u64 }),
            },
    {
        let mut hi: u64 = 0;
        let mut lo: Option<u64> = None;
        let mut i: usize = 0;
        while i < self.grants.len()
            invariant
                i <= self.grants@.len(),
                hi == latest(self.grants@.subrange(0, i as int)),
                lo == oldest_active(self.grants@.subrange(0, i as int)),
            decreases self.grants.len() - i,
        {
            assert(self.grants@.subrange(0, i + 1).drop_last() =~= self.grants@.subrange(0, i as int));
            let t = self.grants[i].timestamp_ms;
            if t > hi {
                hi = t;
            }
            if self.grants[i].active {
                lo = match lo {
                    None => Some(t),
                    Some(x) => Some(if t < x { t } else { x }),
                };
            }
            i = i + 1;
        }
        assert(self.grants@.subrange(0, i as int) =~= self.grants@);
        match lo {
            None => None,
            Some(o) => Some(if hi >= o { hi - o } else { 0 }),
        }
    }

    /// The timestamp of the newest active grant, if any.
    fn newest_active_ts(&self) -> (r: Option<u64>)
        ensures
            r == newest_active(self.grant_list()),
    {
        let mut hi: Option<u64> = None;
        let mut i: usize = 0;
        while i < self.grants.len()
            invariant
                i <= self.grants@.len(),
                hi == newest_active(self.grants@.subrange(0, i as int)),
            decreases self.grants.len() - i,
        {
            assert(self.grants@.subrange(0, i + 1).drop_last() =~= self.grants@.subrange(0, i as int));
            let t = self.grants[i].timestamp_ms;
            if self.grants[i].active {
                hi = match hi {
                    None => Some(t),
                    Some(x) => Some(if t > x { t } else { x }),
                };
            }
            i = i + 1;
        }
        assert(self.grants@.subrange(0, i as int) =~= self.grants@);
        hi
    }

    /// Merge another CRDT state into this one.
    ///
    /// The version vectors merge pointwise; each of the other state's
    /// records replaces this state's record under the same key when it is
    /// newer — a later version, or, for concurrent or equal versions, a
    /// later timestamp; capabilities unknown here are added.
    pub fn merge(&mut self, other: &CrdtState)
        requires
            old(self).wf(),
            other.wf(),
        ensures
            final(self).wf(),
            crdt_merge_effect(*old(self), *final(self), *other),
    {
        let ghost before = *self;
        let merged = self.version.merge(&other.version);
        self.version = merged;
        let ghost l0 = before.ledger();
        let ghost ol = other.ledger();
        let ghost nc = self.clock();
        proof {
            assert forall|k: (Seq<char>, Seq<char>)| #[trigger] l0.contains_key(k) implies version_le(l0[k].0, nc) by {
                assert(version_le(l0[k].0, before.clock()));
                assert forall|x: Seq<char>| #[trigger] count(l0[k].0, x) <= count(nc, x) by {
                    assert(count(l0[k].0, x) <= count(before.clock(), x));
                }
            }
            assert forall|k: (Seq<char>, Seq<char>)| #[trigger] ol.contains_key(k) implies version_le(ol[k].0, nc) by {
                assert(version_le(ol[k].0, other.clock()));
                assert forall|x: Seq<char>| #[trigger] count(ol[k].0, x) <= count(nc, x) by {
                    assert(count(ol[k].0, x) <= count(other.clock(), x));
                }
            }
            assert(self.ledger() =~= merge_ledgers(l0, keyed(other.grants@.subrange(0, 0), gkey(), gval())));
        }
        let mut j: usize = 0;
        while j < other.grants.len()
            invariant
                j <= other.grants@.len(),
                keys_unique(other.grant_list(), gkey()),
                keys_unique(self.grant_list(), gkey()),
                l0 == before.ledger(),
                ol == other.ledger(),
                nc == self.clock(),
                self.gr() == before.gr(),
                self.registry() == before.registry(),
                self.staleness_limit() == before.staleness_limit(),
                self.ledger() == merge_ledgers(l0, keyed(other.grants@.subrange(0, j as int), gkey(), gval())),
            decreases other.grants.len() - j,
        {
            let ghost pre = other.grants@.subrange(0, j as int);
            let ghost og = other.grants@[j as int];
            proof {
                assert(keys_unique(pre, gkey()));
                assert(!has_key(pre, gkey(), gkey()(og))) by {
                    if has_key(pre, gkey(), gkey()(og)) {
                        let t = choose|t: int| 0 <= t < pre.len() && #[trigger] gkey()(pre[t]) == gkey()(og);
                        assert(other.grants@[t] == pre[t]);
                    }
                }
                lemma_keyed_push(pre, gkey(), gval(), og);
                assert(pre.push(og) =~= other.grants@.subrange(0, j + 1));
            }
            let ghost cur = self.ledger();
            let ghost post = keyed(other.grants@.subrange(0, j + 1), gkey(), gval());
            let ghost k = gkey()(og);
            let ghost v = gval()(og);
            let mut keep_mine = false;
            match self.find_grant(other.grants[j].principal.0.as_str(), other.grants[j].capability.0.as_str()) {
                Some(i) => {
                    if keeps_current(&other.grants[j].version, other.grants[j].timestamp_ms, &self.grants[i]) {
                        keep_mine = true;
                    }
                },
                None => {},
            }
            if keep_mine {
                proof {
                    assert(self.ledger() =~= merge_ledgers(l0, post));
                }
            } else {
                let copy = copy_grant(&other.grants[j]);
                self.upsert(copy);
                proof {
                    assert(self.ledger() =~= merge_ledgers(l0, post));
                }
            }
            j = j + 1;
        }
        proof {
            assert(other.grants@.subrange(0, j as int) =~= other.grants@);
        }
        let ghost reg0 = self.capabilities@;
        let mut c: usize = 0;
        while c < other.capabilities.len()
            invariant
                c <= other.capabilities@.len(),
                unique_caps(other.registry()),
                unique_caps(self.registry()),
                reg0 == before.registry(),
                self.registry().len() >= reg0.len(),
                self.registry().subrange(0, reg0.len() as int) == reg0,
                forall|id: Seq<char>|
                    #[trigger] has_cap(self.registry(), id) == (has_cap(reg0, id) || has_cap(
                        other.registry().subrange(0, c as int),
                        id,
                    )),
                forall|id: Seq<char>|
                    !has_cap(reg0, id) && has_cap(other.registry().subrange(0, c as int), id) ==> cap_view(
                        #[trigger] cap_of(self.registry(), id),
                    ) == cap_view(cap_of(other.registry(), id)),
                self.ledger() == merge_ledgers(l0, ol),
                keys_unique(self.grant_list(), gkey()),
                forall|k: (Seq<char>, Seq<char>)| #[trigger] l0.contains_key(k) ==> version_le(l0[k].0, nc),
                forall|k: (Seq<char>, Seq<char>)| #[trigger] ol.contains_key(k) ==> version_le(ol[k].0, nc),
                1 <= self.gr().0 < self.gr().1,
                nc == self.clock(),
                self.gr() == before.gr(),
                self.staleness_limit() == before.staleness_limit(),
            decreases other.capabilities.len() - c,
        {
            let ghost regc = self.capabilities@;
            let ghost oc = other.capabilities@[c as int];
            let ghost osub = other.capabilities@.subrange(0, c as int);
            let ghost osub1 = other.capabilities@.subrange(0, c + 1);
            proof {
                assert(osub1 =~= osub.push(oc));
                assert forall|id: Seq<char>| has_cap(osub1, id) == (has_cap(osub, id) || oc.id.0@ == id) by {
                    if has_cap(osub1, id) {
                        let t = choose|t: int| 0 <= t < osub1.len() && #[trigger] osub1[t].id.0@ == id;
                        if t < osub.len() {
                            assert(osub[t] == osub1[t]);
                        }
                    }
                    if has_cap(osub, id) {
                        let t = choose|t: int| 0 <= t < osub.len() && #[trigger] osub[t].id.0@ == id;
                        assert(osub1[t] == osub[t]);
                    }
                    if oc.id.0@ == id {
                        assert(osub1[c as int].id.0@ == id);
                    }
                }
                assert(cap_of(other.registry(), oc.id.0@) == oc) by {
                    let ocs = other.capabilities@;
                    assert(ocs[c as int].id.0@ == oc.id.0@);
                    let t = choose|t: int| 0 <= t < ocs.len() && #[trigger] ocs[t].id.0@ == oc.id.0@;
                    assert(t == c);
                }
            }
            if self.find_capability(other.capabilities[c].id.0.as_str()).is_none() {
                let copy = copy_capability(&other.capabilities[c]);
                self.capabilities.push(copy);
                proof {
                    let reg = self.capabilities@;
                    assert(reg.subrange(0, reg0.len() as int) =~= regc.subrange(0, reg0.len() as int));
                    assert forall|a: int, b: int|
                        0 <= a < reg.len() && 0 <= b < reg.len() && a != b implies #[trigger] reg[a].id.0@
                        != #[trigger] reg[b].id.0@ by {
                        if a < regc.len() && b < regc.len() {
                            assert(reg[a] == regc[a] && reg[b] == regc[b]);
                        } else if a < regc.len() {
                            assert(reg[a] == regc[a]);
                        } else {
                            assert(reg[b] == regc[b]);
                        }
                    }
                    assert forall|id: Seq<char>| #[trigger] has_cap(reg, id) == (has_cap(regc, id) || oc.id.0@ == id) by {
                        if has_cap(regc, id) {
                            let t = choose|t: int| 0 <= t < regc.len() && #[trigger] regc[t].id.0@ == id;
                            assert(reg[t] == regc[t]);
                        }
                        if has_cap(reg, id) {
                            let t = choose|t: int| 0 <= t < reg.len() && #[trigger] reg[t].id.0@ == id;
                            if t < regc.len() {
                                assert(reg[t] == regc[t]);
                            }
                        }
                        if oc.id.0@ == id {
                            assert(reg[regc.len() as int].id.0@ == id);
                        }
                    }
                    assert forall|id: Seq<char>| has_cap(regc, id) implies #[trigger] cap_of(reg, id) == cap_of(regc, id) by {
                        let t = choose|t: int| 0 <= t < regc.len() && #[trigger] regc[t].id.0@ == id;
                        assert(reg[t] == regc[t]);
                        let u = choose|u: int| 0 <= u < reg.len() && #[trigger] reg[u].id.0@ == id;
                        assert(u == t);
                    }
                    assert(cap_of(reg, oc.id.0@) == reg[regc.len() as int]) by {
                        assert(reg[regc.len() as int].id.0@ == oc.id.0@);
                        let u = choose|u: int| 0 <= u < reg.len() && #[trigger] reg[u].id.0@ == oc.id.0@;
                        assert(u == regc.len());
                    }
                    assert forall|id: Seq<char>|
                        !has_cap(reg0, id) && has_cap(osub1, id) implies cap_view(#[trigger] cap_of(reg, id))
                        == cap_view(cap_of(other.registry(), id)) by {
                        if id != oc.id.0@ {
                            assert(has_cap(osub, id));
                            assert(has_cap(regc, id));
                        }
                    }
                }
            } else {
                proof {
                    assert forall|id: Seq<char>|
                        !has_cap(reg0, id) && has_cap(osub1, id) implies cap_view(#[trigger] cap_of(regc, id))
                        == cap_view(cap_of(other.registry(), id)) by {
                        if id == oc.id.0@ {
                            assert(has_cap(regc, id));
                            if !has_cap(osub, id) {
                                assert(has_cap(reg0, id));
                            }
                        }
                    }
                }
            }
            c = c + 1;
        }
        proof {
            assert(other.capabilities@.subrange(0, c as int) =~= other.capabilities@);
            assert forall|k: (Seq<char>, Seq<char>)| #[trigger] self.ledger().contains_key(k) implies version_le(
                self.ledger()[k].0,
                self.clock(),
            ) by {
                if ol.contains_key(k) && (!l0.contains_key(k) || supersedes(ol[k], l0[k])) {
                } else {
                    assert(l0.contains_key(k));
                }
            }
        }
    }

    /// Compute an access check from the CRDT state at the current time.
    ///
    /// With a staleness limit set, a state whose newest active grant is
    /// older than the limit refuses the decision; otherwise the decision is
    /// that of [`CrdtState::check_at`]. The time is read from the system
    /// clock, so which of the two comes back is not stated.
    pub fn check(&self, principal: &PrincipalId, required: &[&str]) -> (r: Result<AccessDecision>)
        requires
            self.wf(),
            crdt_check_fits(*self, principal.0@, str_views(required@)),
        ensures
            self.staleness_limit() is None ==> crdt_check_result(*self, principal.0@, str_views(required@), r),
            crdt_check_result(*self, principal.0@, str_views(required@), r) || (r matches Err(
                SchubertError::Generic(m),
            ) && m@ == stale_text()),
    {
        let now = now_millis();
        self.check_at(principal, required, now)
    }

    /// Compute an access check from the CRDT state at time `now_ms`
    /// (milliseconds since the Unix epoch).
    ///
    /// A stale state — a staleness limit is set and the newest active grant
    /// is older than it — refuses the decision. Otherwise an access
    /// controller is built from the state (every capability registered, the
    /// principal created and its active grants replayed) and checked on the
    /// Littlewood-Richardson path.
    pub fn check_at(&self, principal: &PrincipalId, required: &[&str], now_ms: u64) -> (r: Result<AccessDecision>)
        requires
            self.wf(),
            crdt_check_fits(*self, principal.0@, str_views(required@)),
        ensures
            is_stale(*self, now_ms) ==> (r matches Err(SchubertError::Generic(m)) && m@ == stale_text()),
            !is_stale(*self, now_ms) ==> crdt_check_result(*self, principal.0@, str_views(required@), r),
    {
        match self.max_staleness_ms {
            Some(limit) => match self.newest_active_ts() {
                Some(t) => {
                    if now_ms > t && now_ms - t > limit {
                        return Err(SchubertError::Generic(
                            String::from_str("CRDT state is stale: its newest active grant is older than the staleness limit"),
                        ));
                    }
                },
                None => {},
            },
            None => {},
        }
        self.decide(principal, required)
    }

    /// The decision of the state's access controller: every capability
    /// registered, the principal created and its active grants replayed
    /// (grants that fail are skipped), checked on the Littlewood-Richardson
    /// path.
    fn decide(&self, principal: &PrincipalId, required: &[&str]) -> (r: Result<AccessDecision>)
        requires
            self.wf(),
            crdt_check_fits(*self, principal.0@, str_views(required@)),
        ensures
            crdt_check_result(*self, principal.0@, str_views(required@), r),
    {
        let (k, n) = self.grassmannian;
        let ghost reg = self.capabilities@;
        let ghost p = principal.0@;
        let mut acl = match AccessController::new(k, n) {
            Ok(a) => a,
            Err(e) => return Err(e),
        };
        let mut i: usize = 0;
        while i < self.capabilities.len()
            invariant
                reg == self.registry(),
                (k, n) == self.gr(),
                unique_caps(reg),
                acl.wf(),
                acl.gr() == (k, n),
                acl.roster().len() == 0,
                i <= reg.len(),
                acl.registry().len() == i,
                forall|t: int| 0 <= t < i ==> cap_view(#[trigger] acl.registry()[t]) == cap_view(reg[t]),
                forall|t: int| 0 <= t < i ==> partition_accepted(#[trigger] reg[t].partition@, k, n),
            decreases self.capabilities.len() - i,
        {
            let copy = copy_capability(&self.capabilities[i]);
            proof {
                assert(!has_cap(acl.registry(), copy.id.0@)) by {
                    if has_cap(acl.registry(), copy.id.0@) {
                        let t = choose|t: int| 0 <= t < acl.registry().len() && #[trigger] acl.registry()[t].id.0@ == copy.id.0@;
                        assert(cap_view(acl.registry()[t]) == cap_view(reg[t]));
                    }
                }
            }
            match acl.register_capability(copy) {
                Err(e) => {
                    proof {
                        assert(!partition_accepted(reg[i as int].partition@, k, n));
                        assert(first_unaccepted(reg, k, n, i as int));
                    }
                    return Err(e);
                },
                Ok(()) => {},
            }
            i = i + 1;
        }
        proof {
            assert(!exists_unaccepted(reg, k, n)) by {
                if exists_unaccepted(reg, k, n) {
                    let t = choose|t: int| 0 <= t < reg.len() && !partition_accepted(#[trigger] reg[t].partition@, k, n);
                    assert(partition_accepted(reg[t].partition@, k, n));
                }
            }
            lemma_mirror(acl.registry(), reg);
        }
        match acl.create_principal(principal.0.as_str()) {
            Err(e) => return Err(e),
            Ok(_) => {},
        }
        proof {
            lemma_single_principal(acl, p);
        }
        let mut j: usize = 0;
        while j < self.grants.len()
            invariant
                reg == self.registry(),
                p == principal.0@,
                unique_caps(reg),
                keys_unique(self.grant_list(), gkey()),
                acl.wf(),
                acl.gr() == (k, n),
                forall|t: int| 0 <= t < reg.len() ==> partition_accepted(#[trigger] reg[t].partition@, k, n),
                forall|id: Seq<char>| #[trigger] has_cap(acl.registry(), id) == has_cap(reg, id),
                forall|id: Seq<char>|
                    has_cap(reg, id) ==> #[trigger] cap_of(acl.registry(), id).partition@ == cap_of(reg, id).partition@,
                acl.roster().len() == 1,
                acl.roster()[0].id.0@ == p,
                j <= self.grants@.len(),
                forall|c: Seq<char>|
                    #[trigger] holds_id(acl.roster()[0].grants(), c) == replayed(self.grants@.subrange(0, j as int), p, c, reg),
            decreases self.grants.len() - j,
        {
            let ghost g = self.grants@[j as int];
            let ghost before_acl = acl;
            proof {
                assert(self.grants@.subrange(0, j + 1).drop_last() =~= self.grants@.subrange(0, j as int));
                assert(self.grants@.subrange(0, j + 1).last() == g);
                lemma_single_principal(acl, p);
            }
            if str_eq(self.grants[j].principal.0.as_str(), principal.0.as_str()) && self.grants[j].active {
                let res = acl.grant(principal, self.grants[j].capability.0.as_str());
                proof {
                    let c0 = g.capability.0@;
                    if has_cap(reg, c0) {
                        let t = choose|t: int| 0 <= t < reg.len() && #[trigger] reg[t].id.0@ == c0;
                        assert(cap_of(reg, c0) == reg[t]) by {
                            let u = choose|u: int| 0 <= u < reg.len() && #[trigger] reg[u].id.0@ == c0;
                            assert(u == t);
                        }
                        assert(res is Ok);
                        assert forall|c: Seq<char>| #[trigger] holds_id(acl.roster()[0].grants(), c) == replayed(
                            self.grants@.subrange(0, j + 1),
                            p,
                            c,
                            reg,
                        ) by {
                            let old_g = before_acl.roster()[0].grants();
                            let new_g = acl.roster()[0].grants();
                            assert(new_g == old_g.push((c0, cap_of(before_acl.registry(), c0).partition@, true)));
                            if holds_id(old_g, c) {
                                let w = choose|w: int| 0 <= w < old_g.len() && #[trigger] old_g[w].0 == c;
                                assert(new_g[w] == old_g[w]);
                            }
                            if c == c0 {
                                assert(new_g[old_g.len() as int].0 == c);
                            }
                            if holds_id(new_g, c) && c != c0 {
                                let w = choose|w: int| 0 <= w < new_g.len() && #[trigger] new_g[w].0 == c;
                                assert(w < old_g.len());
                                assert(old_g[w] == new_g[w]);
                            }
                        }
                    } else {
                        assert(res is Err);
                    }
                }
            }
            proof {
                lemma_single_principal(acl, p);
            }
            j = j + 1;
        }
        proof {
            assert(self.grants@.subrange(0, j as int) =~= self.grants@);
            lemma_replayed(self.grants@, p, reg);
            lemma_single_principal(acl, p);
            let req = str_views(required@);
            let q = acl.roster()[0];
            assert(holds_all(q.grants(), req) == crdt_admitted(*self, p, req)) by {
                if holds_all(q.grants(), req) {
                    assert forall|t: int| 0 <= t < req.len() implies crdt_holds(*self, p, #[trigger] req[t])
                        && has_cap(reg, req[t]) by {
                        assert(holds_id(q.grants(), req[t]));
                    }
                }
                if crdt_admitted(*self, p, req) {
                    assert forall|t: int| 0 <= t < req.len() implies holds_id(q.grants(), #[trigger] req[t]) by {
                        assert(crdt_holds(*self, p, req[t]) && has_cap(reg, req[t]));
                    }
                }
            }
            if crdt_admitted(*self, p, req) {
                assert(check_parts(acl.registry(), q, req) =~= crdt_parts(*self, req)) by {
                    assert forall|t: int| 0 <= t < req.len() implies cap_of(acl.registry(), #[trigger] req[t]).partition@
                        == cap_of(reg, req[t]).partition@ by {
                        assert(has_cap(reg, req[t]));
                    }
                }
            }
        }
        acl.check(principal, required)
    }
}

/// What `merge` does: the clock is the pointwise maximum, the ledgers merge
/// key by key, and the other state's capabilities unknown here are added.
pub open spec fn crdt_merge_effect(before: CrdtState, after: CrdtState, other: CrdtState) -> bool {
    &&& after.gr() == before.gr()
    &&& after.staleness_limit() == before.staleness_limit()
    &&& after.clock() == merge_spec(before.clock(), other.clock())
    &&& after.ledger() == merge_ledgers(before.ledger(), other.ledger())
    &&& after.registry().len() >= before.registry().len()
    &&& after.registry().subrange(0, before.registry().len() as int) == before.registry()
    &&& forall|id: Seq<char>|
        #[trigger] has_cap(after.registry(), id) == (has_cap(before.registry(), id) || has_cap(
            other.registry(),
            id,
        ))
    &&& forall|id: Seq<char>|
        !has_cap(before.registry(), id) && has_cap(other.registry(), id) ==> cap_view(
            #[trigger] cap_of(after.registry(), id),
        ) == cap_view(cap_of(other.registry(), id))
}


/// Some registered capability's partition is rejected by Gr(k,n).
pub open spec fn exists_unaccepted(reg: Seq<Capability>, k: usize, n: usize) -> bool {
    exists|t: int| 0 <= t < reg.len() && !partition_accepted(#[trigger] reg[t].partition@, k, n)
}

/// `i` is the first registered capability whose partition Gr(k,n) rejects.
pub open spec fn first_unaccepted(reg: Seq<Capability>, k: usize, n: usize, i: int) -> bool {
    &&& 0 <= i < reg.len()
    &&& !partition_accepted(reg[i].partition@, k, n)
    &&& forall|t: int| 0 <= t < i ==> partition_accepted(#[trigger] reg[t].partition@, k, n)
}

/// The principal holds every required capability by an active record for a
/// registered capability.
pub open spec fn crdt_admitted(s: CrdtState, p: Seq<char>, required: Seq<Seq<char>>) -> bool {
    forall|t: int| 0 <= t < required.len() ==> crdt_holds(s, p, #[trigger] required[t]) && has_cap(s.registry(), required[t])
}

/// The partitions a CRDT check intersects: the identity position, then the
/// registered partition of each required capability.
pub open spec fn crdt_parts(s: CrdtState, required: Seq<Seq<char>>) -> Seq<Seq<usize>> {
    seq![Seq::<usize>::empty()] + Seq::new(
        required.len(),
        |i: int| cap_of(s.registry(), required[i]).partition@,
    )
}

/// An admitted CRDT check stays within the engine's arithmetic.
pub open spec fn crdt_check_fits(s: CrdtState, p: Seq<char>, required: Seq<Seq<char>>) -> bool {
    crdt_admitted(s, p, required) ==> engine_fits(crdt_parts(s, required), s.gr().0, s.gr().1)
}

/// What a CRDT check returns: the first registered capability the
/// Grassmannian rejects is reported, a principal not holding every required
/// capability is denied, otherwise the Littlewood-Richardson decision.
pub open spec fn crdt_check_result(
    s: CrdtState,
    p: Seq<char>,
    required: Seq<Seq<char>>,
    r: Result<AccessDecision>,
) -> bool {
    let (k, n) = s.gr();
    if exists_unaccepted(s.registry(), k, n) {
        exists|i: int|
            first_unaccepted(s.registry(), k, n, i) && (r matches Err(e) && e matches SchubertError::InvalidPartition {
                partition,
                ..
            } && partition@ == s.registry()[i].partition@)
    } else if !crdt_admitted(s, p, required) {
        r == Result::<AccessDecision>::Ok(AccessDecision::Denied)
    } else {
        r matches Ok(d) && decision_of(lr_outcome(crdt_parts(s, required), k, n), required, ComputationPath::LittlewoodRichardson, d)
    }
}

/// Replaying the records up to here grants `c` to `p`: some active record
/// of `p` for `c`, a registered capability.
pub open spec fn replayed(s: Seq<CrdtGrant>, p: Seq<char>, c: Seq<char>, reg: Seq<Capability>) -> bool {
    has_cap(reg, c) && exists|t: int|
        0 <= t < s.len() && #[trigger] s[t].principal.0@ == p && s[t].capability.0@ == c && s[t].active
}

proof fn lemma_replayed(s: Seq<CrdtGrant>, p: Seq<char>, reg: Seq<Capability>)
    requires
        keys_unique(s, gkey()),
    ensures
        forall|c: Seq<char>| #[trigger] replayed(s, p, c, reg) == (has_cap(reg, c) && keyed(s, gkey(), gval()).contains_key((p, c))
            && keyed(s, gkey(), gval())[(p, c)].2),
{
    assert forall|c: Seq<char>| #[trigger] replayed(s, p, c, reg) == (has_cap(reg, c) && keyed(s, gkey(), gval()).contains_key((p, c))
        && keyed(s, gkey(), gval())[(p, c)].2) by {
        if keyed(s, gkey(), gval()).contains_key((p, c)) {
            let t = choose|t: int| 0 <= t < s.len() && #[trigger] gkey()(s[t]) == (p, c);
            lemma_keyed_at(s, gkey(), gval(), t);
            if exists|u: int| 0 <= u < s.len() && #[trigger] s[u].principal.0@ == p && s[u].capability.0@ == c && s[u].active {
                let u = choose|u: int| 0 <= u < s.len() && #[trigger] s[u].principal.0@ == p && s[u].capability.0@ == c && s[u].active;
                assert(gkey()(s[u]) == (p, c));
                assert(u == t);
            }
            if s[t].active {
                assert(s[t].principal.0@ == p && s[t].capability.0@ == c);
            }
        } else {
            if exists|u: int| 0 <= u < s.len() && #[trigger] s[u].principal.0@ == p && s[u].capability.0@ == c && s[u].active {
                let u = choose|u: int| 0 <= u < s.len() && #[trigger] s[u].principal.0@ == p && s[u].capability.0@ == c && s[u].active;
                assert(gkey()(s[u]) == (p, c));
                assert(has_key(s, gkey(), (p, c)));
            }
        }
    }
}

/// Two registries that agree entry by entry agree on which identifiers they
/// hold and on their partitions.
proof fn lemma_mirror(a: Seq<Capability>, b: Seq<Capability>)
    requires
        a.len() == b.len(),
        forall|t: int| 0 <= t < a.len() ==> cap_view(#[trigger] a[t]) == cap_view(b[t]),
        unique_caps(b),
    ensures
        unique_caps(a),
        forall|id: Seq<char>| #[trigger] has_cap(a, id) == has_cap(b, id),
        forall|id: Seq<char>| has_cap(b, id) ==> #[trigger] cap_of(a, id).partition@ == cap_of(b, id).partition@,
{
    assert forall|i: int, j: int| 0 <= i < a.len() && 0 <= j < a.len() && i != j implies #[trigger] a[i].id.0@
        != #[trigger] a[j].id.0@ by {
        assert(cap_view(a[i]) == cap_view(b[i]) && cap_view(a[j]) == cap_view(b[j]));
    }
    assert forall|id: Seq<char>| #[trigger] has_cap(a, id) == has_cap(b, id) by {
        if has_cap(a, id) {
            let t = choose|t: int| 0 <= t < a.len() && #[trigger] a[t].id.0@ == id;
            assert(cap_view(a[t]) == cap_view(b[t]));
        }
        if has_cap(b, id) {
            let t = choose|t: int| 0 <= t < b.len() && #[trigger] b[t].id.0@ == id;
            assert(cap_view(a[t]) == cap_view(b[t]));
        }
    }
    assert forall|id: Seq<char>| has_cap(b, id) implies #[trigger] cap_of(a, id).partition@ == cap_of(b, id).partition@ by {
        let t = choose|t: int| 0 <= t < b.len() && #[trigger] b[t].id.0@ == id;
        assert(cap_view(a[t]) == cap_view(b[t]));
        let u = choose|u: int| 0 <= u < a.len() && #[trigger] a[u].id.0@ == id;
        assert(cap_view(a[u]) == cap_view(b[u]));
        assert(u == t);
    }
}

/// A controller with a single principal finds it at index 0.
proof fn lemma_single_principal(acl: AccessController, p: Seq<char>)
    requires
        acl.roster().len() == 1,
        acl.roster()[0].id.0@ == p,
    ensures
        has_principal(acl.roster(), p),
        principal_pos(acl.roster(), p) == 0,
        principal_of(acl.roster(), p) == acl.roster()[0],
{
    let ps = acl.roster();
    assert(ps[0].id.0@ == p);
}

/// The principal holds the capability: its record is active.
pub open spec fn crdt_holds(s: CrdtState, p: Seq<char>, c: Seq<char>) -> bool {
    s.ledger().contains_key((p, c)) && s.ledger()[(p, c)].2
}

/// The capabilities of the active records of a principal, in order.
pub open spec fn active_caps(s: Seq<CrdtGrant>, p: Seq<char>) -> Seq<Seq<char>>
    decreases s.len(),
{
    if s.len() == 0 {
        Seq::empty()
    } else {
        let rest = active_caps(s.drop_last(), p);
        if s.last().principal.0@ == p && s.last().active {
            rest.push(s.last().capability.0@)
        } else {
            rest
        }
    }
}

/// Record `i` is an active record of principal `p` for capability `c`.
pub open spec fn active_record(g: Seq<CrdtGrant>, p: Seq<char>, c: Seq<char>, i: int) -> bool {
    &&& 0 <= i < g.len()
    &&& g[i].principal.0@ == p
    &&& g[i].capability.0@ == c
    &&& g[i].active
}

/// The active capabilities of a principal are those of its active records,
/// each once when records have unique keys.
proof fn lemma_active_caps(g: Seq<CrdtGrant>, p: Seq<char>)
    requires
        keys_unique(g, gkey()),
    ensures
        active_caps(g, p).no_duplicates(),
        forall|c: Seq<char>| #[trigger] active_caps(g, p).contains(c) <==> exists|i: int| active_record(g, p, c, i),
    decreases g.len(),
{
    if g.len() > 0 {
        let h = g.drop_last();
        assert(keys_unique(h, gkey())) by {
            assert forall|i: int, j: int| 0 <= i < h.len() && 0 <= j < h.len() && i != j implies #[trigger] gkey()(h[i])
                != #[trigger] gkey()(h[j]) by {
                assert(h[i] == g[i] && h[j] == g[j]);
                assert(gkey()(g[i]) != gkey()(g[j]));
            }
        }
        lemma_active_caps(h, p);
        let last = g.last();
        let rest = active_caps(h, p);
        assert forall|c: Seq<char>| #[trigger] active_caps(g, p).contains(c) <==> exists|i: int| active_record(g, p, c, i) by {
            if exists|i: int| active_record(g, p, c, i) {
                let i = choose|i: int| active_record(g, p, c, i);
                if i < h.len() {
                    assert(active_record(h, p, c, i));
                    assert(rest.contains(c));
                    let t = choose|t: int| 0 <= t < rest.len() && rest[t] == c;
                    if last.principal.0@ == p && last.active {
                        assert(active_caps(g, p) == rest.push(last.capability.0@));
                        assert(active_caps(g, p)[t] == c);
                    } else {
                        assert(active_caps(g, p) == rest);
                    }
                    assert(active_caps(g, p).contains(c));
                } else {
                    assert(active_caps(g, p) == rest.push(c));
                    assert(active_caps(g, p)[rest.len() as int] == c);
                    assert(active_caps(g, p).contains(c));
                }
            }
            if active_caps(g, p).contains(c) {
                if last.principal.0@ == p && last.active && c == last.capability.0@ {
                    assert(active_record(g, p, c, g.len() - 1));
                } else {
                    let t = choose|t: int| 0 <= t < active_caps(g, p).len() && active_caps(g, p)[t] == c;
                    if last.principal.0@ == p && last.active {
                        assert(active_caps(g, p) == rest.push(last.capability.0@));
                        assert(t < rest.len());
                        assert(rest[t] == c);
                    } else {
                        assert(active_caps(g, p) == rest);
                    }
                    assert(rest.contains(c));
                    let i = choose|i: int| active_record(h, p, c, i);
                    assert(active_record(g, p, c, i));
                }
                assert(exists|i: int| active_record(g, p, c, i));
            }
        }
        if last.principal.0@ == p && last.active {
            let c = last.capability.0@;
            assert(!rest.contains(c)) by {
                if rest.contains(c) {
                    let i = choose|i: int| active_record(h, p, c, i);
                    assert(gkey()(g[i]) == gkey()(g[g.len() - 1]));
                }
            }
            assert(active_caps(g, p) == rest.push(c));
            assert forall|a: int, b: int| 0 <= a < b < rest.push(c).len() implies rest.push(c)[a] != rest.push(c)[b] by {
                if b == rest.len() {
                    assert(rest.contains(rest[a]));
                }
            }
        }
    }
}

/// `active_grants` and `holds` agree: a principal's active capabilities are
/// exactly those it holds, each listed once.
pub proof fn law_active_grants_held(s: CrdtState, p: Seq<char>)
    requires
        s.wf(),
    ensures
        active_caps(s.grant_list(), p).no_duplicates(),
        forall|c: Seq<char>| #[trigger] active_caps(s.grant_list(), p).contains(c) <==> crdt_holds(s, p, c),
{
    let g = s.grant_list();
    lemma_active_caps(g, p);
    assert forall|c: Seq<char>| #[trigger] active_caps(g, p).contains(c) <==> crdt_holds(s, p, c) by {
        if exists|i: int| active_record(g, p, c, i) {
            let i = choose|i: int| active_record(g, p, c, i);
            lemma_keyed_at(g, gkey(), gval(), i);
            assert(gkey()(g[i]) == (p, c));
        }
        if crdt_holds(s, p, c) {
            assert(has_key(g, gkey(), (p, c)));
            let i = choose|i: int| 0 <= i < g.len() && #[trigger] gkey()(g[i]) == (p, c);
            lemma_keyed_at(g, gkey(), gval(), i);
            assert(active_record(g, p, c, i));
        }
    }
}

/// The latest timestamp of any record in the list (0 for none).
pub open spec fn latest(s: Seq<CrdtGrant>) -> u64
    decreases s.len(),
{
    if s.len() == 0 {
        0
    } else if s.last().timestamp_ms > latest(s.drop_last()) {
        s.last().timestamp_ms
    } else {
        latest(s.drop_last())
    }
}

/// The oldest timestamp of an active record, if there is one.
pub open spec fn oldest_active(s: Seq<CrdtGrant>) -> Option<u64>
    decreases s.len(),
{
    if s.len() == 0 {
        None
    } else {
        let rest = oldest_active(s.drop_last());
        if !s.last().active {
            rest
        } else {
            match rest {
                None => Some(s.last().timestamp_ms),
                Some(t) => Some(if s.last().timestamp_ms < t { s.last().timestamp_ms } else { t }),
            }
        }
    }
}

/// The newest timestamp of an active record, if there is one.
pub open spec fn newest_active(s: Seq<CrdtGrant>) -> Option<u64>
    decreases s.len(),
{
    if s.len() == 0 {
        None
    } else {
        let rest = newest_active(s.drop_last());
        if !s.last().active {
            rest
        } else {
            match rest {
                None => Some(s.last().timestamp_ms),
                Some(t) => Some(if s.last().timestamp_ms > t { s.last().timestamp_ms } else { t }),
            }
        }
    }
}

/// The state is stale at time `now`: a staleness limit is set and the
/// newest active grant is older than it.
pub open spec fn is_stale(s: CrdtState, now: u64) -> bool {
    match (s.staleness_limit(), newest_active(s.grant_list())) {
        (Some(m), Some(t)) => now > t && now - t > m,
        _ => false,
    }
}

/// The text of the error a stale state answers a check with.
pub open spec fn stale_text() -> Seq<char> {
    "CRDT state is stale: its newest active grant is older than the staleness limit"@
}

/// What a CRDT `grant` does.
pub open spec fn crdt_grant_effect(
    before: CrdtState,
    after: CrdtState,
    p: Seq<char>,
    c: Seq<char>,
    node: Seq<char>,
    ts: u64,
    r: Result<()>,
) -> bool {
    &&& after.gr() == before.gr()
    &&& after.registry() == before.registry()
    &&& after.staleness_limit() == before.staleness_limit()
    &&& if !has_cap(before.registry(), c) {
        &&& r matches Err(e)
        &&& e matches SchubertError::CapabilityNotFound(s)
        &&& s@ == c
        &&& after.ledger() == before.ledger()
        &&& after.clock() == before.clock()
    } else {
        let clock = before.clock().insert(node, (count(before.clock(), node) + 1) as u64);
        let rec = (clock, ts, true);
        &&& r is Ok
        &&& after.clock() == clock
        &&& after.ledger() == if before.ledger().contains_key((p, c)) && !supersedes(rec, before.ledger()[(p, c)]) {
            before.ledger()
        } else {
            before.ledger().insert((p, c), rec)
        }
    }
}

/// Advancing a node's counter keeps every version that was below the clock
/// below it, and the advanced clock is below no such version.
proof fn lemma_clock_advance(clock: Map<Seq<char>, u64>, node: Seq<char>)
    requires
        count(clock, node) < u64::MAX,
    ensures
        forall|v: Map<Seq<char>, u64>|
            version_le(v, clock) ==> version_le(v, clock.insert(node, (count(clock, node) + 1) as u64)),
        version_le(clock, clock.insert(node, (count(clock, node) + 1) as u64)),
{
    let c2 = clock.insert(node, (count(clock, node) + 1) as u64);
    assert forall|v: Map<Seq<char>, u64>| version_le(v, clock) implies version_le(v, c2) by {
        assert forall|k: Seq<char>| #[trigger] count(v, k) <= count(c2, k) by {
            assert(count(v, k) <= count(clock, k));
        }
    }
    assert forall|k: Seq<char>| #[trigger] count(clock, k) <= count(c2, k) by {}
}

/// What a CRDT `revoke` does: the node's counter advances and the record
/// becomes inactive, stamped with the advanced clock.
pub open spec fn crdt_revoke_effect(
    before: CrdtState,
    after: CrdtState,
    p: Seq<char>,
    c: Seq<char>,
    node: Seq<char>,
    ts: u64,
) -> bool {
    &&& after.gr() == before.gr()
    &&& after.registry() == before.registry()
    &&& after.staleness_limit() == before.staleness_limit()
    &&& after.clock() == before.clock().insert(node, (count(before.clock(), node) + 1) as u64)
    &&& after.ledger() == before.ledger().insert((p, c), (after.clock(), ts, false))
}

/// Two records under the same key are settled: one is newer than the other
/// (its version happens after, or the versions are equal and its timestamp
/// is later), or they are the same record.
pub open spec fn settled(
    x: (Map<Seq<char>, u64>, u64, bool),
    y: (Map<Seq<char>, u64>, u64, bool),
) -> bool {
    happens_before_spec(x.0, y.0) || happens_before_spec(y.0, x.0) || (x.0 == y.0 && (x.1 != y.1 || x == y))
}

/// Every key the two ledgers share holds settled records.
pub open spec fn ledgers_settled(
    a: Map<(Seq<char>, Seq<char>), (Map<Seq<char>, u64>, u64, bool)>,
    b: Map<(Seq<char>, Seq<char>), (Map<Seq<char>, u64>, u64, bool)>,
) -> bool {
    forall|k: (Seq<char>, Seq<char>)|
        #[trigger] a.contains_key(k) && b.contains_key(k) ==> settled(a[k], b[k])
}

/// Merging a ledger with itself changes nothing.
pub proof fn law_ledger_merge_idempotent(a: Map<(Seq<char>, Seq<char>), (Map<Seq<char>, u64>, u64, bool)>)
    ensures
        merge_ledgers(a, a) == a,
{
    assert forall|k: (Seq<char>, Seq<char>)| #[trigger] a.contains_key(k) implies !supersedes(a[k], a[k]) by {
        law_happens_before_strict(a[k].0, a[k].0, a[k].0);
    }
    assert(merge_ledgers(a, a) =~= a);
}

/// Two records under the same key are ordered: one version happens before
/// the other, their timestamps differ, or they are the same record.
pub open spec fn ordered(
    x: (Map<Seq<char>, u64>, u64, bool),
    y: (Map<Seq<char>, u64>, u64, bool),
) -> bool {
    happens_before_spec(x.0, y.0) || happens_before_spec(y.0, x.0) || x.1 != y.1 || x == y
}

/// Every key the two ledgers share holds ordered records.
pub open spec fn ledgers_ordered(
    a: Map<(Seq<char>, Seq<char>), (Map<Seq<char>, u64>, u64, bool)>,
    b: Map<(Seq<char>, Seq<char>), (Map<Seq<char>, u64>, u64, bool)>,
) -> bool {
    forall|k: (Seq<char>, Seq<char>)|
        #[trigger] a.contains_key(k) && b.contains_key(k) ==> ordered(a[k], b[k])
}

/// Merging ledgers is commutative whenever the records they share under a
/// key are ordered — in particular whenever their timestamps differ: a
/// later version wins, and between concurrent versions the later timestamp
/// wins. (Concurrent versions with equal timestamps and different records
/// are the one case where the side merged into stays.)
pub proof fn law_ledger_merge_commutative(
    a: Map<(Seq<char>, Seq<char>), (Map<Seq<char>, u64>, u64, bool)>,
    b: Map<(Seq<char>, Seq<char>), (Map<Seq<char>, u64>, u64, bool)>,
)
    requires
        ledgers_ordered(a, b),
    ensures
        merge_ledgers(a, b) == merge_ledgers(b, a),
{
    assert forall|k: (Seq<char>, Seq<char>)| a.contains_key(k) && b.contains_key(k) implies #[trigger] merge_ledgers(a, b)[k]
        == merge_ledgers(b, a)[k] by {
        let x = a[k];
        let y = b[k];
        assert(ordered(x, y));
        law_happens_before_strict(x.0, y.0, x.0);
        law_happens_before_strict(y.0, x.0, y.0);
        law_happens_before_strict(x.0, x.0, x.0);
    }
    assert(merge_ledgers(a, b) =~= merge_ledgers(b, a));
}

/// Of two records under one key, the one a merge keeps: the incoming one
/// when it supersedes the current one.
pub open spec fn kept(
    cur: (Map<Seq<char>, u64>, u64, bool),
    inc: (Map<Seq<char>, u64>, u64, bool),
) -> (Map<Seq<char>, u64>, u64, bool) {
    if supersedes(inc, cur) {
        inc
    } else {
        cur
    }
}

/// Among pairwise settled records, keeping the newer one is associative.
proof fn lemma_kept_associative(
    x: (Map<Seq<char>, u64>, u64, bool),
    y: (Map<Seq<char>, u64>, u64, bool),
    z: (Map<Seq<char>, u64>, u64, bool),
)
    requires
        settled(x, y),
        settled(y, z),
        settled(x, z),
    ensures
        kept(kept(x, y), z) == kept(x, kept(y, z)),
{
    law_happens_before_strict(x.0, y.0, z.0);
    law_happens_before_strict(x.0, z.0, y.0);
    law_happens_before_strict(y.0, x.0, z.0);
    law_happens_before_strict(y.0, z.0, x.0);
    law_happens_before_strict(z.0, x.0, y.0);
    law_happens_before_strict(z.0, y.0, x.0);
}

/// Merging ledgers is associative when every key shared by any two of them
/// holds settled records.
pub proof fn law_ledger_merge_associative(
    a: Map<(Seq<char>, Seq<char>), (Map<Seq<char>, u64>, u64, bool)>,
    b: Map<(Seq<char>, Seq<char>), (Map<Seq<char>, u64>, u64, bool)>,
    c: Map<(Seq<char>, Seq<char>), (Map<Seq<char>, u64>, u64, bool)>,
)
    requires
        ledgers_settled(a, b),
        ledgers_settled(b, c),
        ledgers_settled(a, c),
    ensures
        merge_ledgers(merge_ledgers(a, b), c) == merge_ledgers(a, merge_ledgers(b, c)),
{
    let l = merge_ledgers(merge_ledgers(a, b), c);
    let r = merge_ledgers(a, merge_ledgers(b, c));
    assert forall|k: (Seq<char>, Seq<char>)| #[trigger] l.contains_key(k) implies r.contains_key(k) && l[k] == r[k] by {
        if a.contains_key(k) && b.contains_key(k) && c.contains_key(k) {
            lemma_kept_associative(a[k], b[k], c[k]);
        }
    }
    assert(l =~= r);
}

/// After a grant of a registered capability, the principal holds it: the
/// new record is stamped with an advanced clock, so no earlier record can
/// be newer.
pub proof fn law_crdt_grant_holds(
    before: CrdtState,
    after: CrdtState,
    p: Seq<char>,
    c: Seq<char>,
    node: Seq<char>,
    ts: u64,
    r: Result<()>,
)
    requires
        before.wf(),
        has_cap(before.registry(), c),
        count(before.clock(), node) < u64::MAX,
        crdt_grant_effect(before, after, p, c, node, ts, r),
    ensures
        r is Ok,
        crdt_holds(after, p, c),
{
    let clock = before.clock().insert(node, (count(before.clock(), node) + 1) as u64);
    let rec = (clock, ts, true);
    if before.ledger().contains_key((p, c)) {
        let cur = before.ledger()[(p, c)];
        assert(version_le(cur.0, before.clock()));
        assert(count(cur.0, node) <= count(before.clock(), node));
        assert(count(clock, node) == count(before.clock(), node) + 1);
        assert(!happens_before_spec(clock, cur.0)) by {
            if happens_before_spec(clock, cur.0) {
                assert(count(clock, node) <= count(cur.0, node));
            }
        }
        assert(clock != cur.0) by {
            if clock == cur.0 {
                assert(count(clock, node) == count(cur.0, node));
            }
        }
        assert(supersedes(rec, cur));
    }
}

/// After a revoke, the principal does not hold the capability.
pub proof fn law_crdt_revoke_drops(
    before: CrdtState,
    after: CrdtState,
    p: Seq<char>,
    c: Seq<char>,
    node: Seq<char>,
    ts: u64,
)
    requires
        crdt_revoke_effect(before, after, p, c, node, ts),
    ensures
        !crdt_holds(after, p, c),
{
}

/// Merging a state with a copy of itself changes nothing: same clock, same
/// records, same capabilities.
pub proof fn law_crdt_merge_idempotent(s: CrdtState, copy: CrdtState, after: CrdtState)
    requires
        s.wf(),
        copy.wf(),
        after.wf(),
        copy.ledger() == s.ledger(),
        copy.clock() == s.clock(),
        forall|id: Seq<char>| #[trigger] has_cap(copy.registry(), id) == has_cap(s.registry(), id),
        crdt_merge_effect(s, after, copy),
    ensures
        after.clock() == s.clock(),
        after.ledger() == s.ledger(),
        after.registry() == s.registry(),
{
    law_merge_idempotent(s.clock());
    law_ledger_merge_idempotent(s.ledger());
    let n0 = s.registry().len();
    if after.registry().len() > n0 {
        let x = after.registry()[n0 as int].id.0@;
        assert(has_cap(after.registry(), x));
        assert(has_cap(s.registry(), x));
        let t = choose|t: int| 0 <= t < s.registry().len() && #[trigger] s.registry()[t].id.0@ == x;
        assert(after.registry()[t] == s.registry()[t]);
        assert(false);
    }
    assert(after.registry() =~= s.registry());
}

/// Merging two states in either order gives the same clock and the same
/// records whenever the records they share under a key are ordered (in
/// particular, whenever their timestamps differ).
pub proof fn law_crdt_merge_commutative(a: CrdtState, b: CrdtState, ab: CrdtState, ba: CrdtState)
    requires
        a.wf(),
        b.wf(),
        ledgers_ordered(a.ledger(), b.ledger()),
        crdt_merge_effect(a, ab, b),
        crdt_merge_effect(b, ba, a),
    ensures
        ab.clock() == ba.clock(),
        ab.ledger() == ba.ledger(),
        forall|id: Seq<char>| #[trigger] has_cap(ab.registry(), id) == has_cap(ba.registry(), id),
{
    law_merge_commutative(a.clock(), b.clock());
    law_ledger_merge_commutative(a.ledger(), b.ledger());
}


/// Merging three states is associative when every record any two of them
/// share under a key is settled: `(a ⊔ b) ⊔ c` and `a ⊔ (b ⊔ c)` have the
/// same clock, the same records and the same registered identifiers.
pub proof fn law_crdt_merge_associative(
    a: CrdtState,
    b: CrdtState,
    c: CrdtState,
    ab: CrdtState,
    ab_c: CrdtState,
    bc: CrdtState,
    a_bc: CrdtState,
)
    requires
        ledgers_settled(a.ledger(), b.ledger()),
        ledgers_settled(b.ledger(), c.ledger()),
        ledgers_settled(a.ledger(), c.ledger()),
        crdt_merge_effect(a, ab, b),
        crdt_merge_effect(ab, ab_c, c),
        crdt_merge_effect(b, bc, c),
        crdt_merge_effect(a, a_bc, bc),
    ensures
        ab_c.clock() == a_bc.clock(),
        ab_c.ledger() == a_bc.ledger(),
        forall|id: Seq<char>| #[trigger] has_cap(ab_c.registry(), id) == has_cap(a_bc.registry(), id),
{
    law_merge_associative(a.clock(), b.clock(), c.clock());
    law_ledger_merge_associative(a.ledger(), b.ledger(), c.ledger());
    assert forall|id: Seq<char>| #[trigger] has_cap(ab_c.registry(), id) == has_cap(a_bc.registry(), id) by {
        assert(has_cap(ab_c.registry(), id) == (has_cap(ab.registry(), id) || has_cap(c.registry(), id)));
        assert(has_cap(ab.registry(), id) == (has_cap(a.registry(), id) || has_cap(b.registry(), id)));
        assert(has_cap(a_bc.registry(), id) == (has_cap(a.registry(), id) || has_cap(bc.registry(), id)));
        assert(has_cap(bc.registry(), id) == (has_cap(b.registry(), id) || has_cap(c.registry(), id)));
    }
}


/// The newest active timestamp is the largest timestamp of an active
/// record: there is one exactly when some record is active, it belongs to
/// an active record, and no active record is newer.
pub proof fn law_newest_active_is_max(s: Seq<CrdtGrant>)
    ensures
        newest_active(s) is None <==> forall|i: int| 0 <= i < s.len() ==> !(#[trigger] s[i]).active,
        newest_active(s) matches Some(t) ==> exists|i: int|
            0 <= i < s.len() && (#[trigger] s[i]).active && s[i].timestamp_ms == t,
        newest_active(s) matches Some(t) ==> forall|i: int|
            0 <= i < s.len() && (#[trigger] s[i]).active ==> s[i].timestamp_ms <= t,
    decreases s.len(),
{
    if s.len() > 0 {
        let rest = s.drop_last();
        law_newest_active_is_max(rest);
        assert forall|i: int| 0 <= i < rest.len() implies #[trigger] rest[i] == s[i] by {}
        let last = s.len() - 1;
        if let Some(t) = newest_active(rest) {
            let w = choose|i: int| 0 <= i < rest.len() && (#[trigger] rest[i]).active && rest[i].timestamp_ms == t;
            assert(s[w] == rest[w]);
        }
        assert(s[last] == s.last());
        if let Some(t) = newest_active(s) {
            assert forall|i: int| 0 <= i < s.len() && (#[trigger] s[i]).active implies s[i].timestamp_ms <= t by {
                if i < last {
                    assert(rest[i] == s[i]);
                }
            }
        }
        if newest_active(s) is None {
            assert(!s[last].active);
            assert(newest_active(rest) is None);
            assert forall|i: int| 0 <= i < s.len() implies !(#[trigger] s[i]).active by {
                if i < last {
                    assert(rest[i] == s[i]);
                }
            }
        }
        if forall|i: int| 0 <= i < s.len() ==> !(#[trigger] s[i]).active {
            assert forall|i: int| 0 <= i < rest.len() implies !(#[trigger] rest[i]).active by {
                assert(rest[i] == s[i]);
            }
            assert(!s[last].active);
        }
    }
}

/// The oldest active timestamp is the smallest timestamp of an active
/// record: there is one exactly when some record is active, it belongs to
/// an active record, and no active record is older.
pub proof fn law_oldest_active_is_min(s: Seq<CrdtGrant>)
    ensures
        oldest_active(s) is None <==> forall|i: int| 0 <= i < s.len() ==> !(#[trigger] s[i]).active,
        oldest_active(s) matches Some(t) ==> exists|i: int|
            0 <= i < s.len() && (#[trigger] s[i]).active && s[i].timestamp_ms == t,
        oldest_active(s) matches Some(t) ==> forall|i: int|
            0 <= i < s.len() && (#[trigger] s[i]).active ==> s[i].timestamp_ms >= t,
    decreases s.len(),
{
    if s.len() > 0 {
        let rest = s.drop_last();
        law_oldest_active_is_min(rest);
        assert forall|i: int| 0 <= i < rest.len() implies #[trigger] rest[i] == s[i] by {}
        let last = s.len() - 1;
        if let Some(t) = oldest_active(rest) {
            let w = choose|i: int| 0 <= i < rest.len() && (#[trigger] rest[i]).active && rest[i].timestamp_ms == t;
            assert(s[w] == rest[w]);
        }
        assert(s[last] == s.last());
        if let Some(t) = oldest_active(s) {
            assert forall|i: int| 0 <= i < s.len() && (#[trigger] s[i]).active implies s[i].timestamp_ms >= t by {
                if i < last {
                    assert(rest[i] == s[i]);
                }
            }
        }
        if oldest_active(s) is None {
            assert(!s[last].active);
            assert(oldest_active(rest) is None);
            assert forall|i: int| 0 <= i < s.len() implies !(#[trigger] s[i]).active by {
                if i < last {
                    assert(rest[i] == s[i]);
                }
            }
        }
        if forall|i: int| 0 <= i < s.len() ==> !(#[trigger] s[i]).active {
            assert forall|i: int| 0 <= i < rest.len() implies !(#[trigger] rest[i]).active by {
                assert(rest[i] == s[i]);
            }
            assert(!s[last].active);
        }
    }
}

/// The latest timestamp is the largest timestamp of any record (0 when
/// there are none).
pub proof fn law_latest_is_max(s: Seq<CrdtGrant>)
    ensures
        forall|i: int| 0 <= i < s.len() ==> (#[trigger] s[i]).timestamp_ms <= latest(s),
        s.len() == 0 ==> latest(s) == 0,
        s.len() > 0 ==> exists|i: int| 0 <= i < s.len() && (#[trigger] s[i]).timestamp_ms == latest(s),
    decreases s.len(),
{
    if s.len() > 0 {
        let rest = s.drop_last();
        law_latest_is_max(rest);
        assert forall|i: int| 0 <= i < rest.len() implies #[trigger] rest[i] == s[i] by {}
        let last = s.len() - 1;
        if rest.len() > 0 {
            let w = choose|i: int| 0 <= i < rest.len() && (#[trigger] rest[i]).timestamp_ms == latest(rest);
            assert(s[w] == rest[w]);
        }
        assert(s[last] == s.last());
        assert forall|i: int| 0 <= i < s.len() implies (#[trigger] s[i]).timestamp_ms <= latest(s) by {
            if i < last {
                assert(rest[i] == s[i]);
            }
        }
    }
}

/// A state holding an active grant no older than the staleness limit is
/// never refused as stale: the check answers with the state's decision.
pub proof fn law_fresh_state_answers(
    s: CrdtState,
    now: u64,
    i: int,
    p: Seq<char>,
    required: Seq<Seq<char>>,
    r: Result<AccessDecision>,
)
    requires
        0 <= i < s.grant_list().len(),
        s.grant_list()[i].active,
        s.staleness_limit() matches Some(m) ==> now <= s.grant_list()[i].timestamp_ms + m,
        is_stale(s, now) ==> (r matches Err(SchubertError::Generic(msg)) && msg@ == stale_text()),
        !is_stale(s, now) ==> crdt_check_result(s, p, required, r),
    ensures
        !is_stale(s, now),
        crdt_check_result(s, p, required, r),
{
    law_newest_active_is_max(s.grant_list());
    assert(s.grant_list()[i].active);
}

/// A state whose active grants are all older than the staleness limit is
/// refused as stale.
pub proof fn law_old_state_refused(
    s: CrdtState,
    now: u64,
    p: Seq<char>,
    required: Seq<Seq<char>>,
    r: Result<AccessDecision>,
)
    requires
        s.staleness_limit() is Some,
        exists|i: int| 0 <= i < s.grant_list().len() && (#[trigger] s.grant_list()[i]).active,
        forall|i: int|
            0 <= i < s.grant_list().len() && (#[trigger] s.grant_list()[i]).active ==> now
                > s.grant_list()[i].timestamp_ms + s.staleness_limit()->0,
        is_stale(s, now) ==> (r matches Err(SchubertError::Generic(msg)) && msg@ == stale_text()),
    ensures
        is_stale(s, now),
        r matches Err(SchubertError::Generic(msg)) && msg@ == stale_text(),
{
    law_newest_active_is_max(s.grant_list());
    let t = newest_active(s.grant_list())->0;
    let w = choose|i: int| 0 <= i < s.grant_list().len() && (#[trigger] s.grant_list()[i]).active
        && s.grant_list()[i].timestamp_ms == t;
    assert(s.grant_list()[w].active);
}

} // verus!
