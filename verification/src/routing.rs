//! Schubert routing — geometric network path computation.
//!
//! Route advertisements are Schubert conditions announced by nodes, and
//! forwarding decisions are Schubert intersections: the intersection number
//! counts the valid routes, and codimension in excess of the Grassmannian's
//! dimension marks congestion.

use vstd::prelude::*;
use crate::decision::ComputationPath;
use crate::engine::{
    class_partitions, engine_fits, lr_multi_intersect, lr_outcome, new_schubert_class,
    partition_accepted, IntersectionResult, SchubertClass,
};
use crate::error::{framed, Result, SchubertError};
use crate::util::{
    copy_sizes, grassmannian_dim, has_key, keyed, keys_unique, lemma_keyed_at, lemma_keyed_push,
    lemma_keyed_set, owned, str_eq, total_codim,
};

verus! {

/// A route advertisement — a node announcing a capability.
#[derive(Debug, Clone)]
pub struct RouteAdvertisement {
    /// The node making the announcement.
    pub node_id: String,
    /// Schubert partition defining the route condition.
    pub partition: Vec<usize>,
    /// Number of hops (for path cost).
    pub hop_count: u32,
}

/// Result of a route check.
#[derive(Debug, Clone)]
pub struct RouteResult {
    /// Number of valid paths (intersection number); 0 when the solutions
    /// form a positive-dimensional family or there are none.
    pub path_count: u64,
    /// Total codimension of all route conditions.
    pub total_codimension: usize,
    /// Whether the path is over-constrained (codimension exceeds dimension).
    pub is_congested: bool,
    /// Dimension of the solution variety if under-constrained.
    pub solution_dimension: Option<usize>,
    /// Which computation path was used.
    pub path: ComputationPath,
}

/// The partitions a node has advertised, as plain sequences.
pub open spec fn ad_views(v: Seq<Vec<usize>>) -> Seq<Seq<usize>> {
    Seq::new(v.len(), |i: int| v[i]@)
}

/// The node identifier of a table entry.
pub open spec fn node_key() -> spec_fn((String, Vec<Vec<usize>>)) -> Seq<char> {
    |e: (String, Vec<Vec<usize>>)| e.0@
}

/// The advertised partitions of a table entry.
pub open spec fn node_ads() -> spec_fn((String, Vec<Vec<usize>>)) -> Seq<Seq<usize>> {
    |e: (String, Vec<Vec<usize>>)| ad_views(e.1@)
}

/// `j` is the first partition of the list that Gr(k,n) rejects.
pub open spec fn first_rejected(ps: Seq<Seq<usize>>, k: usize, n: usize, j: int) -> bool {
    &&& 0 <= j < ps.len()
    &&& !partition_accepted(ps[j], k, n)
    &&& forall|t: int| 0 <= t < j ==> partition_accepted(#[trigger] ps[t], k, n)
}

/// The node's advertisements in `after` are those in `before` followed by
/// the first `j` partitions of the list (nothing changes when `j` is 0).
pub open spec fn prefix_advertised(
    before: Map<Seq<char>, Seq<Seq<usize>>>,
    after: Map<Seq<char>, Seq<Seq<usize>>>,
    node: Seq<char>,
    ps: Seq<Seq<usize>>,
    j: int,
) -> bool {
    if j == 0 {
        after.contains_key(node) == before.contains_key(node) && (before.contains_key(node) ==> after[node]
            == before[node])
    } else {
        after.contains_key(node) && after[node] == (if before.contains_key(node) {
            before[node]
        } else {
            Seq::<Seq<usize>>::empty()
        }) + ps.subrange(0, j)
    }
}

/// What a route check returns for the partitions it intersects in Gr(k,n).
pub open spec fn route_result_of(parts: Seq<Seq<usize>>, k: usize, n: usize, r: RouteResult) -> bool {
    let total = total_codim(parts);
    let dim = grassmannian_dim(k as nat, n as nat);
    &&& r.total_codimension == total
    &&& r.path == ComputationPath::LittlewoodRichardson
    &&& match lr_outcome(parts, k, n) {
        IntersectionResult::Finite(c) => r.path_count == c && r.is_congested == (total > dim)
            && r.solution_dimension is None,
        IntersectionResult::PositiveDimensional { dimension, .. } => r.path_count == 0 && r.is_congested == (
        total > dim) && r.solution_dimension == Some(dimension),
        IntersectionResult::Empty => r.path_count == 0 && r.is_congested && r.solution_dimension is None,
    }
}

/// What a route check between two nodes returns: an error naming the
/// missing source, else the missing destination, else the result of
/// intersecting both nodes' advertisements.
pub open spec fn route_check(t: RouteTable, source: Seq<char>, destination: Seq<char>, r: Result<RouteResult>) -> bool {
    &&& !t.ads().contains_key(source) ==> (r matches Err(SchubertError::Generic(m)) && m@ == "source '"@ + source
        + "' not found"@)
    &&& t.ads().contains_key(source) && !t.ads().contains_key(destination) ==> (r matches Err(
        SchubertError::Generic(m),
    ) && m@ == "destination '"@ + destination + "' not found"@)
    &&& t.ads().contains_key(source) && t.ads().contains_key(destination) ==> (r matches Ok(res) && route_result_of(
        t.ads()[source] + t.ads()[destination],
        t.gr().0,
        t.gr().1,
        res,
    ))
}

/// What a path check returns: an error for fewer than two nodes, an error
/// naming the first node without advertisements, else the result of
/// intersecting every node's advertisements in order.
pub open spec fn path_check(t: RouteTable, nodes: Seq<Seq<char>>, r: Result<RouteResult>) -> bool {
    &&& nodes.len() < 2 ==> (r matches Err(SchubertError::Generic(m)) && m@ == "path must have at least 2 nodes"@)
    &&& nodes.len() >= 2 ==> match first_missing(t.ads(), nodes) {
        Some(node) => r matches Err(SchubertError::Generic(m)) && m@ == "node '"@ + node + "' not found"@,
        None => r matches Ok(res) && route_result_of(path_parts(t.ads(), nodes), t.gr().0, t.gr().1, res),
    }
}

/// A path of two nodes is the route between them: both checks fail
/// together, or both succeed with the same result.
pub proof fn law_two_node_path_is_route(
    t: RouteTable,
    source: Seq<char>,
    destination: Seq<char>,
    route: Result<RouteResult>,
    path: Result<RouteResult>,
)
    requires
        route_check(t, source, destination, route),
        path_check(t, seq![source, destination], path),
    ensures
        route is Ok == path is Ok,
        route matches Ok(a) ==> path matches Ok(b) && a == b,
{
    let nodes = seq![source, destination];
    let one = seq![source];
    let none = Seq::<Seq<char>>::empty();
    assert(nodes.drop_last() =~= one);
    assert(one.drop_last() =~= none);
    assert(nodes.last() == destination);
    assert(one.last() == source);
    assert(path_parts(t.ads(), none) == Seq::<Seq<usize>>::empty());
    assert(path_parts(t.ads(), one) =~= t.ads()[source]);
    assert(path_parts(t.ads(), nodes) == t.ads()[source] + t.ads()[destination]);
    assert(first_missing(t.ads(), none) is None);
    if !t.ads().contains_key(source) {
        assert(first_missing(t.ads(), one) == Some(source));
        assert(first_missing(t.ads(), nodes) == Some(source));
    } else {
        assert(first_missing(t.ads(), one) is None);
        if !t.ads().contains_key(destination) {
            assert(first_missing(t.ads(), nodes) == Some(destination));
        } else {
            assert(first_missing(t.ads(), nodes) is None);
        }
    }
}

/// A routing table over a fixed Grassmannian Gr(k,n): each node's
/// advertised partitions, nodes in the order they first advertised.
#[derive(Debug)]
pub struct RouteTable {
    grassmannian: (usize, usize),
    advertisements: Vec<(String, Vec<Vec<usize>>)>,
}

impl RouteTable {
    /// The Grassmannian (k, n).
    pub closed spec fn gr(&self) -> (usize, usize) {
        self.grassmannian
    }

    /// The table entries, in order.
    pub closed spec fn table(&self) -> Seq<(String, Vec<Vec<usize>>)> {
        self.advertisements@
    }

    /// Each node's advertised partitions.
    pub open spec fn ads(&self) -> Map<Seq<char>, Seq<Seq<usize>>> {
        keyed(self.table(), node_key(), node_ads())
    }

    /// Well-formedness: 1 ≤ k < n with k(n−k) representable, each node
    /// once, every advertised partition accepted by Gr(k,n), and every node
    /// with at least one advertisement.
    pub open spec fn wf(&self) -> bool {
        &&& 1 <= self.gr().0 < self.gr().1
        &&& keys_unique(self.table(), node_key())
        &&& forall|node: Seq<char>|
            #[trigger] self.ads().contains_key(node) ==> self.ads()[node].len() > 0 && forall|i: int|
                0 <= i < self.ads()[node].len() ==> partition_accepted(
                    #[trigger] self.ads()[node][i],
                    self.gr().0,
                    self.gr().1,
                )
    }

    /// Create a new routing table for Gr(k,n); requires k ≥ 1, n ≥ 2, k < n.
    pub fn new(k: usize, n: usize) -> (r: Result<Self>)
        ensures
            (r is Ok) == (k >= 1 && n >= 2 && k < n),
            r matches Ok(t) ==> t.wf() && t.gr() == (k, n) && t.table().len() == 0,
            r matches Err(e) ==> e matches SchubertError::InvalidGrassmannian { k: ek, n: en, reason }
                && ek == k && en == n && reason@ == "require k ≥ 1, n ≥ 2, k < n"@,
    {
        if k == 0 || n < 2 || k >= n {
            return Err(
                SchubertError::InvalidGrassmannian {
                    k,
                    n,
                    reason: owned("require k ≥ 1, n ≥ 2, k < n"),
                },
            );
        }
        let t = RouteTable { grassmannian: (k, n), advertisements: Vec::new() };
        assert(t.ads() =~= Map::<Seq<char>, Seq<Seq<usize>>>::empty());
        Ok(t)
    }

    /// Return the Grassmannian parameters.
    pub fn grassmannian(&self) -> (r: (usize, usize))
        ensures
            r == self.gr(),
    {
        self.grassmannian
    }

    fn find_node(&self, node_id: &str) -> (r: Option<usize>)
        requires
            keys_unique(self.table(), node_key()),
        ensures
            r matches Some(i) ==> i < self.table().len() && self.table()[i as int].0@ == node_id@
                && self.ads().contains_key(node_id@) && self.ads()[node_id@] == ad_views(self.table()[i as int].1@),
            r is None ==> !self.ads().contains_key(node_id@),
    {
        let mut i: usize = 0;
        while i < self.advertisements.len()
            invariant
                keys_unique(self.table(), node_key()),
                i <= self.advertisements@.len(),
                forall|j: int| 0 <= j < i ==> #[trigger] node_key()(self.advertisements@[j]) != node_id@,
            decreases self.advertisements.len() - i,
        {
            if str_eq(self.advertisements[i].0.as_str(), node_id) {
                proof {
                    lemma_keyed_at(self.advertisements@, node_key(), node_ads(), i as int);
                }
                return Some(i);
            }
            i = i + 1;
        }
        None
    }

    /// Advertise a route from a node: its partition, validated against the
    /// Grassmannian, joins the node's advertisements.
    pub fn advertise(&mut self, node_id: &str, partition: Vec<usize>) -> (r: Result<()>)
        requires
            old(self).wf(),
        ensures
            final(self).wf(),
            final(self).gr() == old(self).gr(),
            advertise_effect(*old(self), *final(self), node_id@, partition@, r),
    {
        let (k, n) = self.grassmannian;
        match new_schubert_class(copy_sizes(&partition), k, n) {
            Err(reason) => {
                return Err(SchubertError::InvalidPartition { partition, k, n, reason });
            },
            Ok(_) => {},
        }
        let ghost before = self.advertisements@;
        let ghost pv = partition@;
        match self.find_node(node_id) {
            Some(i) => {
                let mut list = copy_ads(&self.advertisements[i].1);
                list.push(partition);
                let name = crate::util::copy_string(&self.advertisements[i].0);
                proof {
                    assert(ad_views(list@) =~= ad_views(before[i as int].1@).push(pv));
                    lemma_keyed_set(before, node_key(), node_ads(), i as int, (name, list));
                }
                self.advertisements.set(i, (name, list));
            },
            None => {
                let mut list: Vec<Vec<usize>> = Vec::new();
                list.push(partition);
                let name = owned(node_id);
                proof {
                    assert(ad_views(list@) =~= seq![pv]);
                    assert(!has_key(before, node_key(), node_id@));
                    lemma_keyed_push(before, node_key(), node_ads(), (name, list));
                }
                self.advertisements.push((name, list));
            },
        }
        proof {
            let ads = self.ads();
            assert forall|node: Seq<char>| #[trigger] ads.contains_key(node) implies ads[node].len() > 0 && forall|i: int|
                0 <= i < ads[node].len() ==> partition_accepted(#[trigger] ads[node][i], k, n) by {
                if node != node_id@ {
                    assert(keyed(before, node_key(), node_ads()).contains_key(node));
                } else if keyed(before, node_key(), node_ads()).contains_key(node) {
                    let old_ads = keyed(before, node_key(), node_ads())[node];
                    assert forall|i: int| 0 <= i < ads[node].len() implies partition_accepted(#[trigger] ads[node][i], k, n) by {
                        if i < old_ads.len() {
                            assert(ads[node][i] == old_ads[i]);
                        }
                    }
                }
            }
        }
        Ok(())
    }

    /// Advertise several partitions from a node, in order, stopping at the
    /// first one the Grassmannian rejects (those before it stay advertised).
    pub fn advertise_many(&mut self, node_id: &str, partitions: Vec<Vec<usize>>) -> (r: Result<()>)
        requires
            old(self).wf(),
        ensures
            final(self).wf(),
            final(self).gr() == old(self).gr(),
            (r is Ok) == (forall|i: int| 0 <= i < partitions@.len() ==> partition_accepted(
                #[trigger] partitions@[i]@,
                old(self).gr().0,
                old(self).gr().1,
            )),
            forall|m: Seq<char>| m != node_id@ ==> (#[trigger] final(self).ads().contains_key(m)
                == old(self).ads().contains_key(m) && (old(self).ads().contains_key(m) ==> final(self).ads()[m]
                == old(self).ads()[m])),
            r is Ok && partitions@.len() > 0 ==> final(self).ads().contains_key(node_id@) && final(self).ads()[node_id@]
                == if old(self).ads().contains_key(node_id@) {
                old(self).ads()[node_id@]
            } else {
                Seq::<Seq<usize>>::empty()
            } + ad_views(partitions@),
            r is Err ==> exists|j: int|
                first_rejected(ad_views(partitions@), old(self).gr().0, old(self).gr().1, j)
                    && #[trigger] prefix_advertised(old(self).ads(), final(self).ads(), node_id@, ad_views(partitions@), j),
    {
        let ghost before = self.ads();
        let ghost k = self.gr().0;
        let ghost n = self.gr().1;
        let mut i: usize = 0;
        while i < partitions.len()
            invariant
                self.wf(),
                self.gr() == (k, n),
                old(self).gr() == (k, n),
                before == old(self).ads(),
                i == 0 ==> self.ads() == before,
                i <= partitions@.len(),
                forall|t: int| 0 <= t < i ==> partition_accepted(#[trigger] partitions@[t]@, k, n),
                forall|m: Seq<char>| m != node_id@ ==> (#[trigger] self.ads().contains_key(m)
                    == before.contains_key(m) && (before.contains_key(m) ==> self.ads()[m] == before[m])),
                i > 0 ==> self.ads().contains_key(node_id@) && self.ads()[node_id@] == if before.contains_key(node_id@) {
                    before[node_id@]
                } else {
                    Seq::<Seq<usize>>::empty()
                } + ad_views(partitions@.subrange(0, i as int)),
            decreases partitions.len() - i,
        {
            let ghost cur = self.ads();
            let p = copy_sizes(&partitions[i]);
            let ghost pv = p@;
            match self.advertise(node_id, p) {
                Err(e) => {
                    assert(!partition_accepted(partitions@[i as int]@, k, n));
                    proof {
                        let ps = ad_views(partitions@);
                        assert(ps.subrange(0, i as int) =~= ad_views(partitions@.subrange(0, i as int)));
                        assert(first_rejected(ps, k, n, i as int));
                        assert(prefix_advertised(before, self.ads(), node_id@, ps, i as int));
                    }
                    return Err(e);
                },
                Ok(()) => {},
            }
            proof {
                let base = if before.contains_key(node_id@) { before[node_id@] } else { Seq::<Seq<usize>>::empty() };
                assert(ad_views(partitions@.subrange(0, i + 1)) =~= ad_views(partitions@.subrange(0, i as int)).push(partitions@[i as int]@));
                if i > 0 {
                    assert(cur.contains_key(node_id@));
                    assert(cur[node_id@] == base + ad_views(partitions@.subrange(0, i as int)));
                    assert(self.ads()[node_id@] == cur[node_id@].push(pv));
                    assert(pv == partitions@[i as int]@);
                    let x = ad_views(partitions@.subrange(0, i as int));
                    assert((base + x).push(pv) =~= base + x.push(pv));
                    assert(self.ads()[node_id@] =~= base + ad_views(partitions@.subrange(0, i + 1)));
                } else {
                    assert(ad_views(partitions@.subrange(0, 0)) =~= Seq::<Seq<usize>>::empty());
                    assert(self.ads()[node_id@] =~= base + ad_views(partitions@.subrange(0, i + 1)));
                }
            }
            i = i + 1;
        }
        proof {
            assert(partitions@.subrange(0, i as int) =~= partitions@);
        }
        Ok(())
    }

    /// The partitions advertised by a node.
    pub fn advertisements_for(&self, node_id: &str) -> (r: Option<&[Vec<usize>]>)
        requires
            self.wf(),
        ensures
            (r is Some) == self.ads().contains_key(node_id@),
            r matches Some(s) ==> ad_views(s@) == self.ads()[node_id@],
    {
        match self.find_node(node_id) {
            Some(i) => Some(self.advertisements[i].1.as_slice()),
            None => None,
        }
    }

    /// The nodes of the table, in the order they first advertised.
    pub fn nodes(&self) -> (r: Vec<&str>)
        ensures
            r@.len() == self.table().len(),
            forall|i: int| 0 <= i < r@.len() ==> (#[trigger] r@[i])@ == self.table()[i].0@,
    {
        let mut out: Vec<&str> = Vec::new();
        let mut i: usize = 0;
        while i < self.advertisements.len()
            invariant
                i <= self.advertisements@.len(),
                out@.len() == i,
                forall|j: int| 0 <= j < i ==> (#[trigger] out@[j])@ == self.advertisements@[j].0@,
            decreases self.advertisements.len() - i,
        {
            out.push(self.advertisements[i].0.as_str());
            i = i + 1;
        }
        out
    }

    /// Appends the Schubert classes of a node's advertisements.
    fn push_classes(&self, i: usize, all: &mut Vec<SchubertClass>)
        requires
            self.wf(),
            i < self.table().len(),
        ensures
            class_partitions(final(all)@) == class_partitions(old(all)@) + ad_views(self.table()[i as int].1@),
    {
        let (k, n) = self.grassmannian;
        let ghost start = class_partitions(all@);
        let ghost node = self.advertisements@[i as int].0@;
        proof {
            lemma_keyed_at(self.advertisements@, node_key(), node_ads(), i as int);
        }
        let ads = &self.advertisements[i].1;
        let mut j: usize = 0;
        while j < ads.len()
            invariant
                self.wf(),
                (k, n) == self.gr(),
                i < self.table().len(),
                *ads == self.table()[i as int].1,
                self.ads().contains_key(node) && self.ads()[node] == ad_views(ads@),
                j <= ads@.len(),
                class_partitions(all@) == start + ad_views(ads@.subrange(0, j as int)),
            decreases ads.len() - j,
        {
            assert(partition_accepted(self.ads()[node][j as int], k, n));
            let c = match new_schubert_class(copy_sizes(&ads[j]), k, n) {
                Ok(c) => c,
                Err(_) => {
                    assert(false);
                    SchubertClass { partition: copy_sizes(&ads[j]), grassmannian_dim: (k, n) }
                },
            };
            let ghost before = class_partitions(all@);
            all.push(c);
            proof {
                assert(class_partitions(all@) =~= before.push(ads@[j as int]@));
                assert(ad_views(ads@.subrange(0, j + 1)) =~= ad_views(ads@.subrange(0, j as int)).push(ads@[j as int]@));
            }
            j = j + 1;
        }
        assert(ads@.subrange(0, j as int) =~= ads@);
    }

    /// The route result of intersecting classes.
    fn route_of(&self, all: &Vec<SchubertClass>) -> (r: RouteResult)
        requires
            self.wf(),
            engine_fits(class_partitions(all@), self.gr().0, self.gr().1),
        ensures
            route_result_of(class_partitions(all@), self.gr().0, self.gr().1, r),
    {
        let (k, n) = self.grassmannian;
        let total = class_codim_total(all);
        let dim = k * (n - k);
        let is_congested = total > dim;
        match lr_multi_intersect(all.as_slice(), k, n) {
            IntersectionResult::Finite(c) => RouteResult {
                path_count: c,
                total_codimension: total,
                is_congested,
                solution_dimension: None,
                path: ComputationPath::LittlewoodRichardson,
            },
            IntersectionResult::PositiveDimensional { dimension, .. } => RouteResult {
                path_count: 0,
                total_codimension: total,
                is_congested,
                solution_dimension: Some(dimension),
                path: ComputationPath::LittlewoodRichardson,
            },
            IntersectionResult::Empty => RouteResult {
                path_count: 0,
                total_codimension: total,
                is_congested: true,
                solution_dimension: None,
                path: ComputationPath::LittlewoodRichardson,
            },
        }
    }

    /// Check whether a route exists from source to destination: the
    /// source's advertisements and then the destination's are intersected.
    pub fn check_route(&self, source: &str, destination: &str) -> (r: Result<RouteResult>)
        requires
            self.wf(),
            self.ads().contains_key(source@) && self.ads().contains_key(destination@) ==> engine_fits(
                self.ads()[source@] + self.ads()[destination@],
                self.gr().0,
                self.gr().1,
            ),
        ensures
            route_check(*self, source@, destination@, r),
    {
        let si = match self.find_node(source) {
            None => return Err(SchubertError::Generic(framed("source '", &owned(source), "' not found"))),
            Some(i) => i,
        };
        let di = match self.find_node(destination) {
            None => return Err(SchubertError::Generic(framed("destination '", &owned(destination), "' not found"))),
            Some(i) => i,
        };
        let mut all: Vec<SchubertClass> = Vec::new();
        self.push_classes(si, &mut all);
        self.push_classes(di, &mut all);
        proof {
            assert(class_partitions(Seq::<SchubertClass>::empty()) =~= Seq::<Seq<usize>>::empty());
            assert(class_partitions(all@) =~= self.ads()[source@] + self.ads()[destination@]);
        }
        Ok(self.route_of(&all))
    }

    /// Check whether a multi-hop path exists: the advertisements of all the
    /// nodes along it are intersected.
    pub fn check_path(&self, nodes: &[&str]) -> (r: Result<RouteResult>)
        requires
            self.wf(),
            (forall|i: int| 0 <= i < nodes@.len() ==> self.ads().contains_key(#[trigger] nodes@[i]@)) ==> engine_fits(
                path_parts(self.ads(), str_seq(nodes@)),
                self.gr().0,
                self.gr().1,
            ),
        ensures
            path_check(*self, str_seq(nodes@), r),
    {
        if nodes.len() < 2 {
            return Err(SchubertError::Generic(owned("path must have at least 2 nodes")));
        }
        let ghost ns = str_seq(nodes@);
        let mut all: Vec<SchubertClass> = Vec::new();
        let mut i: usize = 0;
        proof {
            assert(class_partitions(all@) =~= Seq::<Seq<usize>>::empty());
            assert(ns.subrange(0, 0) =~= Seq::<Seq<char>>::empty());
        }
        while i < nodes.len()
            invariant
                self.wf(),
                ns == str_seq(nodes@),
                nodes@.len() >= 2,
                i <= nodes@.len(),
                first_missing(self.ads(), ns.subrange(0, i as int)) is None,
                class_partitions(all@) == path_parts(self.ads(), ns.subrange(0, i as int)),
            decreases nodes.len() - i,
        {
            proof {
                assert(ns.subrange(0, i + 1).drop_last() =~= ns.subrange(0, i as int));
                assert(ns.subrange(0, i + 1).last() == nodes@[i as int]@);
                lemma_first_missing_prefix(self.ads(), ns, i as int);
            }
            match self.find_node(nodes[i]) {
                None => {
                    proof {
                        assert(ns[i as int] == nodes@[i as int]@);
                        assert(first_missing(self.ads(), ns.subrange(0, ns.len() as int)) == Some(ns[i as int]));
                        assert(ns.subrange(0, ns.len() as int) =~= ns);
                    }
                    return Err(SchubertError::Generic(framed("node '", &owned(nodes[i]), "' not found")));
                },
                Some(ni) => {
                    self.push_classes(ni, &mut all);
                },
            }
            i = i + 1;
        }
        proof {
            assert(ns.subrange(0, i as int) =~= ns);
            lemma_first_missing_none(self.ads(), ns);
            assert forall|t: int| 0 <= t < nodes@.len() implies self.ads().contains_key(#[trigger] nodes@[t]@) by {
                assert(ns[t] == nodes@[t]@);
            }
        }
        Ok(self.route_of(&all))
    }

    /// The total codimension of a node's advertisements and the dimension
    /// k(n−k), whose ratio is the node's congestion level.
    pub fn congestion_parts(&self, node_id: &str) -> (r: Option<(usize, usize)>)
        requires
            self.wf(),
            self.ads().contains_key(node_id@) ==> total_codim(self.ads()[node_id@]) <= usize::MAX
                && grassmannian_dim(self.gr().0 as nat, self.gr().1 as nat) <= usize::MAX,
        ensures
            (r is Some) == self.ads().contains_key(node_id@),
            r matches Some((c, d)) ==> c == total_codim(self.ads()[node_id@]) && d == grassmannian_dim(
                self.gr().0 as nat,
                self.gr().1 as nat,
            ),
    {
        match self.find_node(node_id) {
            None => None,
            Some(i) => {
                let mut all: Vec<SchubertClass> = Vec::new();
                self.push_classes(i, &mut all);
                proof {
                    assert(class_partitions(Seq::<SchubertClass>::empty()) =~= Seq::<Seq<usize>>::empty());
                    assert(class_partitions(all@) =~= self.ads()[node_id@]);
                }
                let total = class_codim_total(&all);
                let (k, n) = self.grassmannian;
                Some((total, k * (n - k)))
            },
        }
    }
}

/// The views of a list of string slices.
pub open spec fn str_seq(s: Seq<&str>) -> Seq<Seq<char>> {
    Seq::new(s.len(), |i: int| s[i]@)
}

/// The advertisements of the nodes along a path, concatenated in order.
pub open spec fn path_parts(ads: Map<Seq<char>, Seq<Seq<usize>>>, nodes: Seq<Seq<char>>) -> Seq<Seq<usize>>
    decreases nodes.len(),
{
    if nodes.len() == 0 {
        Seq::empty()
    } else {
        path_parts(ads, nodes.drop_last()) + ads[nodes.last()]
    }
}

/// The first node along a path that has no advertisements, if any.
pub open spec fn first_missing(ads: Map<Seq<char>, Seq<Seq<usize>>>, nodes: Seq<Seq<char>>) -> Option<Seq<char>>
    decreases nodes.len(),
{
    if nodes.len() == 0 {
        None
    } else {
        match first_missing(ads, nodes.drop_last()) {
            Some(m) => Some(m),
            None => if ads.contains_key(nodes.last()) {
                None
            } else {
                Some(nodes.last())
            },
        }
    }
}

proof fn lemma_first_missing_prefix(ads: Map<Seq<char>, Seq<Seq<usize>>>, ns: Seq<Seq<char>>, i: int)
    requires
        0 <= i < ns.len(),
        first_missing(ads, ns.subrange(0, i)) is None,
    ensures
        first_missing(ads, ns.subrange(0, i + 1)) == if ads.contains_key(ns[i]) { None } else { Some(ns[i]) },
        ads.contains_key(ns[i]) ==> path_parts(ads, ns.subrange(0, i + 1)) == path_parts(ads, ns.subrange(0, i)) + ads[ns[i]],
        !ads.contains_key(ns[i]) ==> forall|j: int| i < j <= ns.len() ==> #[trigger] first_missing(ads, ns.subrange(0, j)) == Some(ns[i]),
{
    assert(ns.subrange(0, i + 1).drop_last() =~= ns.subrange(0, i));
    if !ads.contains_key(ns[i]) {
        assert forall|j: int| i < j <= ns.len() implies #[trigger] first_missing(ads, ns.subrange(0, j)) == Some(ns[i]) by {
            lemma_first_missing_stays(ads, ns, i + 1, j, ns[i]);
        }
    }
}

proof fn lemma_first_missing_stays(ads: Map<Seq<char>, Seq<Seq<usize>>>, ns: Seq<Seq<char>>, a: int, b: int, m: Seq<char>)
    requires
        0 <= a <= b <= ns.len(),
        first_missing(ads, ns.subrange(0, a)) == Some(m),
    ensures
        first_missing(ads, ns.subrange(0, b)) == Some(m),
    decreases b - a,
{
    if a < b {
        lemma_first_missing_stays(ads, ns, a, b - 1, m);
        assert(ns.subrange(0, b).drop_last() =~= ns.subrange(0, b - 1));
    }
}

proof fn lemma_first_missing_none(ads: Map<Seq<char>, Seq<Seq<usize>>>, ns: Seq<Seq<char>>)
    requires
        first_missing(ads, ns) is None,
    ensures
        forall|i: int| 0 <= i < ns.len() ==> ads.contains_key(#[trigger] ns[i]),
    decreases ns.len(),
{
    if ns.len() > 0 {
        lemma_first_missing_none(ads, ns.drop_last());
        assert forall|i: int| 0 <= i < ns.len() implies ads.contains_key(#[trigger] ns[i]) by {
            if i < ns.len() - 1 {
                assert(ns.drop_last()[i] == ns[i]);
            }
        }
    }
}

/// The sum of the codimensions of a list of classes.
fn class_codim_total(all: &Vec<SchubertClass>) -> (r: usize)
    requires
        total_codim(class_partitions(all@)) <= usize::MAX,
    ensures
        r == total_codim(class_partitions(all@)),
{
    let ghost parts = class_partitions(all@);
    let mut total: usize = 0;
    let mut i: usize = 0;
    while i < all.len()
        invariant
            i <= all@.len(),
            parts == class_partitions(all@),
            total == total_codim(parts.subrange(0, i as int)),
            total_codim(parts) <= usize::MAX,
        decreases all.len() - i,
    {
        proof {
            crate::util::lemma_total_codim_push(parts.subrange(0, i as int), parts[i as int]);
            assert(parts.subrange(0, i as int).push(parts[i as int]) =~= parts.subrange(0, i + 1));
            crate::util::lemma_total_codim_prefix(parts, i + 1);
        }
        let c = crate::util::sum_parts(all[i].partition.as_slice());
        total = total + c;
        i = i + 1;
    }
    proof {
        assert(parts.subrange(0, i as int) =~= parts);
    }
    total
}

/// What `advertise` does: a partition the Grassmannian rejects is reported,
/// otherwise it joins the node's advertisements (a new node is added).
pub open spec fn advertise_effect(
    before: RouteTable,
    after: RouteTable,
    node: Seq<char>,
    partition: Seq<usize>,
    r: Result<()>,
) -> bool {
    if !partition_accepted(partition, before.gr().0, before.gr().1) {
        &&& r matches Err(e)
        &&& e matches SchubertError::InvalidPartition { partition: p, k, n, .. }
        &&& p@ == partition && k == before.gr().0 && n == before.gr().1
        &&& after.ads() == before.ads()
        &&& after.table().len() == before.table().len()
    } else {
        &&& r is Ok
        &&& after.ads() == before.ads().insert(
            node,
            if before.ads().contains_key(node) { before.ads()[node] } else { Seq::empty() }.push(partition),
        )
    }
}

/// A copy of a list of partitions.
fn copy_ads(v: &Vec<Vec<usize>>) -> (r: Vec<Vec<usize>>)
    ensures
        ad_views(r@) == ad_views(v@),
{
    let mut out: Vec<Vec<usize>> = Vec::new();
    let mut i: usize = 0;
    while i < v.len()
        invariant
            i <= v@.len(),
            out@.len() == i,
            forall|j: int| 0 <= j < i ==> (#[trigger] out@[j])@ == v@[j]@,
        decreases v.len() - i,
    {
        out.push(copy_sizes(&v[i]));
        i = i + 1;
    }
    assert(ad_views(out@) =~= ad_views(v@));
    out
}

} // verus!
