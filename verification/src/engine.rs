//! The Schubert-calculus engine behind access decisions.
//!
//! Intersection numbers, tropical counts, matroid cardinalities and operadic
//! multiplicities are computed by `amari_enumerative`. This module converts
//! the library's plain values to that crate's types and back, and states what
//! each computation returns: the dimension bookkeeping is stated exactly, the
//! counts themselves are named.

use vstd::prelude::*;
use amari_enumerative::Namespace;
use crate::util::{decimal, parts_at_most, seq_sum, total_codim};

verus! {

/// A Schubert class σ_λ on Gr(k,n): a partition and the Grassmannian it lives in.
#[derive(Debug)]
pub struct SchubertClass {
    /// The partition indexing this class.
    pub partition: Vec<usize>,
    /// The Grassmannian (k, n).
    pub grassmannian_dim: (usize, usize),
}

impl SchubertClass {
    /// The codimension of the class: the sum of its parts.
    pub fn codimension(&self) -> (r: usize)
        requires
            seq_sum(self.partition@) <= usize::MAX,
        ensures
            r == seq_sum(self.partition@),
    {
        crate::util::sum_parts(self.partition.as_slice())
    }

    /// A copy of this class.
    pub fn duplicate(&self) -> (r: SchubertClass)
        ensures
            r.partition@ == self.partition@,
            r.grassmannian_dim == self.grassmannian_dim,
    {
        SchubertClass {
            partition: crate::util::copy_sizes(&self.partition),
            grassmannian_dim: self.grassmannian_dim,
        }
    }
}

/// The outcome of intersecting Schubert classes.
#[derive(Debug, Clone, Copy, PartialEq, Eq)]
pub enum IntersectionResult {
    /// Empty intersection (total codimension exceeds the dimension).
    Empty,
    /// A finite number of points.
    Finite(u64),
    /// A positive-dimensional intersection.
    PositiveDimensional {
        /// Dimension of the intersection.
        dimension: usize,
        /// Degree, when it is known.
        degree: Option<u64>,
    },
}

/// The partitions of a sequence of classes.
pub open spec fn class_partitions(classes: Seq<SchubertClass>) -> Seq<Seq<usize>> {
    Seq::new(classes.len(), |i: int| classes[i].partition@)
}

/// Number of points of a transverse intersection of the given classes in
/// Gr(k,n), by the Littlewood-Richardson rule.
pub uninterp spec fn lr_transverse_count(parts: Seq<Seq<usize>>, k: usize, n: usize) -> u64;

/// Tropical count of a transverse intersection of the given classes in Gr(k,n).
pub uninterp spec fn tropical_transverse_count(parts: Seq<Seq<usize>>, k: usize, n: usize) -> u64;

/// Cardinality of the matroid intersection of the Schubert matroids of two
/// partitions in Gr(k,n).
pub uninterp spec fn matroid_intersection_cardinality(
    a: Seq<usize>,
    b: Seq<usize>,
    k: usize,
    n: usize,
) -> usize;

/// What the Littlewood-Richardson engine returns for the given classes.
pub open spec fn lr_outcome(parts: Seq<Seq<usize>>, k: usize, n: usize) -> IntersectionResult {
    let dim = crate::util::grassmannian_dim(k as nat, n as nat);
    let total = total_codim(parts);
    if parts.len() == 0 {
        IntersectionResult::PositiveDimensional { dimension: dim as usize, degree: Some(1) }
    } else if total > dim {
        IntersectionResult::Empty
    } else if total < dim {
        IntersectionResult::PositiveDimensional { dimension: (dim - total) as usize, degree: None }
    } else {
        IntersectionResult::Finite(lr_transverse_count(parts, k, n))
    }
}

/// What the tropical engine returns for the given classes.
pub open spec fn tropical_outcome(parts: Seq<Seq<usize>>, k: usize, n: usize) -> IntersectionResult {
    let dim = crate::util::grassmannian_dim(k as nat, n as nat);
    let total = total_codim(parts);
    if total > dim {
        IntersectionResult::Empty
    } else if total < dim {
        IntersectionResult::PositiveDimensional { dimension: (dim - total) as usize, degree: None }
    } else {
        IntersectionResult::Finite(tropical_transverse_count(parts, k, n))
    }
}

/// n!
pub open spec fn factorial(n: nat) -> nat
    decreases n,
{
    if n == 0 {
        1
    } else {
        n * factorial((n - 1) as nat)
    }
}

/// The hook lengths of row `i` (from the bottom) of a rectangle `cols` wide,
/// multiplied: (i+1)(i+2)···(i+cols).
pub open spec fn row_hooks(i: nat, cols: nat) -> nat
    decreases cols,
{
    if cols == 0 {
        1
    } else {
        (i + cols) * row_hooks(i, (cols - 1) as nat)
    }
}

/// The product of the hook lengths of a rows × cols rectangle.
pub open spec fn rect_hooks(rows: nat, cols: nat) -> nat
    decreases rows,
{
    if rows == 0 {
        1
    } else {
        row_hooks((rows - 1) as nat, cols) * rect_hooks((rows - 1) as nat, cols)
    }
}

/// The degree of Gr(k,n) in its Plücker embedding, ∫σ₁^{k(n−k)}: the number
/// of standard Young tableaux of the k × (n−k) rectangle, by the hook-length
/// formula.
pub open spec fn grassmannian_degree(k: nat, n: nat) -> nat {
    factorial(crate::util::grassmannian_dim(k, n)) / rect_hooks(k, (n - k) as nat)
}

/// The sizes that every engine needs in range: k ≤ n, the dimension k(n−k)
/// and the total codimension fit `usize`.
pub open spec fn base_fits(parts: Seq<Seq<usize>>, k: usize, n: usize) -> bool {
    &&& k <= n
    &&& crate::util::grassmannian_dim(k as nat, n as nat) <= usize::MAX
    &&& total_codim(parts) <= usize::MAX
}

/// A transverse product of two or more classes is accumulated in `u64`: every
/// coefficient the Littlewood-Richardson engine adds up is an intersection
/// number of Schubert classes, at most the degree of Gr(k,n), so a degree
/// that fits `u64` keeps the accumulation in range.
pub open spec fn lr_safe(parts: Seq<Seq<usize>>, k: usize, n: usize) -> bool {
    total_codim(parts) == crate::util::grassmannian_dim(k as nat, n as nat) && parts.len() >= 2
        ==> grassmannian_degree(k as nat, n as nat) <= u64::MAX
}

/// The bounds under which the Littlewood-Richardson engine's arithmetic
/// stays in range.
pub open spec fn engine_fits(parts: Seq<Seq<usize>>, k: usize, n: usize) -> bool {
    &&& base_fits(parts, k, n)
    &&& lr_safe(parts, k, n)
}

/// The bounds a check on the given computation path needs: the tropical
/// engine's, the Littlewood-Richardson engine's (also behind localization),
/// or, for the matroid path, only the base sizes.
pub open spec fn path_fits(path: crate::decision::ComputationPath, parts: Seq<Seq<usize>>, k: usize, n: usize) -> bool {
    match path {
        crate::decision::ComputationPath::Tropical => tropical_fits(parts, k, n),
        crate::decision::ComputationPath::Matroid => base_fits(parts, k, n),
        _ => engine_fits(parts, k, n),
    }
}

/// Every class is σ₁ (the partition [1]).
pub open spec fn all_sigma_one(parts: Seq<Seq<usize>>) -> bool {
    forall|i: int| 0 <= i < parts.len() ==> #[trigger] parts[i] == seq![1usize]
}

/// Every class is special (at most one part).
pub open spec fn all_special(parts: Seq<Seq<usize>>) -> bool {
    forall|i: int| 0 <= i < parts.len() ==> #[trigger] parts[i].len() <= 1
}

/// The bounds under which the tropical engine's arithmetic stays in range:
/// its parts are summed in `i64`; a transverse power of σ₁ is counted by the
/// hook-length formula with (k(n−k))! in `u128`, which holds up to 34!; any
/// other transverse product of non-special classes goes to the
/// Littlewood-Richardson engine.
pub open spec fn tropical_fits(parts: Seq<Seq<usize>>, k: usize, n: usize) -> bool {
    let dim = crate::util::grassmannian_dim(k as nat, n as nat);
    &&& base_fits(parts, k, n)
    &&& total_codim(parts) <= i64::MAX
    &&& total_codim(parts) == dim && all_sigma_one(parts) ==> dim <= 34
    &&& !all_special(parts) ==> lr_safe(parts, k, n)
}

/// `j` is the first index whose part exceeds `bound`.
pub open spec fn first_exceeding(p: Seq<usize>, bound: nat, j: int) -> bool {
    &&& 0 <= j < p.len()
    &&& p[j] > bound
    &&& parts_at_most(p.subrange(0, j), bound)
}

/// The rendered error of a partition entry exceeding n-k.
pub open spec fn partition_error_text(entry: nat, bound: nat) -> Seq<char> {
    "Schubert calculus error: Partition entry "@ + decimal(entry) + " exceeds n-k = "@ + decimal(
        bound,
    )
}

/// Builds a Schubert class with `amari_enumerative::SchubertClass::new`.
///
/// That constructor accepts a partition exactly when each of its parts is at
/// most n-k, and otherwise reports the first part that is too large; the
/// rendered error text is stated here.
#[verifier::external_body]
pub(crate) fn new_schubert_class(partition: Vec<usize>, k: usize, n: usize) -> (r: std::result::Result<SchubertClass, String>)
    requires
        partition@.len() > 0 ==> k <= n,
    ensures
        r is Ok <==> (partition@.len() == 0 || parts_at_most(partition@, (n - k) as nat)),
        r matches Ok(c) ==> c.partition@ == partition@ && c.grassmannian_dim == (k, n),
        r matches Err(m) ==> exists|j: int|
            first_exceeding(partition@, (n - k) as nat, j) && m@ == partition_error_text(
                partition@[j] as nat,
                (n - k) as nat,
            ),
{
    match amari_enumerative::SchubertClass::new(partition, (k, n)) {
        Ok(c) => Ok(SchubertClass { partition: c.partition, grassmannian_dim: c.grassmannian_dim }),
        Err(e) => Err(e.to_string()),
    }
}

/// Intersects classes with `amari_enumerative::SchubertCalculus::multi_intersect`.
///
/// That function compares the total codimension with dim Gr(k,n) = k(n-k):
/// more gives `Empty`, less gives a positive-dimensional result of the
/// remaining dimension, equality gives the Littlewood-Richardson count, and
/// an empty list gives the whole Grassmannian. The count itself is named.
/// The count is accumulated in `u64`; `engine_fits` requires a degree of
/// Gr(k,n) within `u64` wherever a transverse product is accumulated, which
/// bounds every partial sum (see `lr_safe`).
#[verifier::external_body]
pub(crate) fn lr_multi_intersect(classes: &[SchubertClass], k: usize, n: usize) -> (r: IntersectionResult)
    requires
        engine_fits(class_partitions(classes@), k, n),
    ensures
        r == lr_outcome(class_partitions(classes@), k, n),
        r matches IntersectionResult::Finite(c) ==> c == lr_transverse_count(
            class_partitions(classes@),
            k,
            n,
        ),
{
    let all: Vec<amari_enumerative::SchubertClass> = classes.iter().map(|c|
        amari_enumerative::SchubertClass { partition: c.partition.clone(), grassmannian_dim: (k, n) }
    ).collect();
    match amari_enumerative::SchubertCalculus::new((k, n)).multi_intersect(&all) {
        amari_enumerative::IntersectionResult::Empty => IntersectionResult::Empty,
        amari_enumerative::IntersectionResult::Finite(c) => IntersectionResult::Finite(c),
        amari_enumerative::IntersectionResult::PositiveDimensional { dimension, degree } =>
            IntersectionResult::PositiveDimensional { dimension, degree },
    }
}

/// Intersects classes with
/// `amari_enumerative::EquivariantLocalizer::intersection_result`.
///
/// The localizer is built for Gr(k,n), which fails only when k > n; its
/// `intersection_result` hands the classes to the same `multi_intersect` as
/// [`lr_multi_intersect`], so its outcome is stated with the same count.
#[verifier::external_body]
pub(crate) fn localized_intersect(classes: &[SchubertClass], k: usize, n: usize) -> (r: std::result::Result<IntersectionResult, String>)
    requires
        engine_fits(class_partitions(classes@), k, n),
    ensures
        r is Ok,
        r matches Ok(x) ==> x == lr_outcome(class_partitions(classes@), k, n),
{
    let all: Vec<amari_enumerative::SchubertClass> = classes.iter().map(|c|
        amari_enumerative::SchubertClass { partition: c.partition.clone(), grassmannian_dim: (k, n) }
    ).collect();
    let mut localizer = amari_enumerative::EquivariantLocalizer::new((k, n)).map_err(|e| e.to_string())?;
    Ok(match localizer.intersection_result(&all) {
        amari_enumerative::IntersectionResult::Empty => IntersectionResult::Empty,
        amari_enumerative::IntersectionResult::Finite(c) => IntersectionResult::Finite(c),
        amari_enumerative::IntersectionResult::PositiveDimensional { dimension, degree } =>
            IntersectionResult::PositiveDimensional { dimension, degree },
    })
}

/// Counts an intersection with `amari_enumerative::tropical_intersection_count`,
/// converted by `TropicalResult::to_intersection_result`.
///
/// The same dimension bookkeeping as the classical engine (without the
/// special case of an empty list); the transverse count is named.
#[verifier::external_body]
pub(crate) fn tropical_intersect(classes: &[SchubertClass], k: usize, n: usize) -> (r: IntersectionResult)
    requires
        tropical_fits(class_partitions(classes@), k, n),
    ensures
        r == tropical_outcome(class_partitions(classes@), k, n),
        r matches IntersectionResult::Finite(c) ==> c == tropical_transverse_count(
            class_partitions(classes@),
            k,
            n,
        ),
{
    let all: Vec<amari_enumerative::SchubertClass> = classes.iter().map(|c|
        amari_enumerative::SchubertClass { partition: c.partition.clone(), grassmannian_dim: (k, n) }
    ).collect();
    match amari_enumerative::tropical_intersection_count(&all, (k, n)).to_intersection_result() {
        amari_enumerative::IntersectionResult::Empty => IntersectionResult::Empty,
        amari_enumerative::IntersectionResult::Finite(c) => IntersectionResult::Finite(c),
        amari_enumerative::IntersectionResult::PositiveDimensional { dimension, degree } =>
            IntersectionResult::PositiveDimensional { dimension, degree },
    }
}

/// Weakly decreasing order on parts.
pub open spec fn part_ge() -> spec_fn(usize, usize) -> bool {
    |a: usize, b: usize| a >= b
}

/// Positive parts.
pub open spec fn part_positive() -> spec_fn(usize) -> bool {
    |x: usize| x > 0
}

/// A partition in normal form, as `Partition::new` (behind
/// `SchubertClass::to_partition`) makes it: the positive parts, in weakly
/// decreasing order.
pub open spec fn normal_form(p: Seq<usize>) -> Seq<usize> {
    p.filter(part_positive()).sort_by(part_ge())
}

proof fn lemma_part_ge_total()
    ensures
        vstd::relations::total_ordering(part_ge()),
{
}

/// The normal form keeps a bound on the parts.
pub proof fn lemma_normal_form_bounded(p: Seq<usize>, bound: nat)
    requires
        parts_at_most(p, bound),
    ensures
        parts_at_most(normal_form(p), bound),
{
    lemma_filter_bounded(p, bound);
    let f = p.filter(part_positive());
    lemma_part_ge_total();
    f.lemma_sort_by_ensures(part_ge());
    let nf = f.sort_by(part_ge());
    assert forall|i: int| 0 <= i < nf.len() implies #[trigger] nf[i] <= bound by {
        assert(nf.contains(nf[i]));
        assert(f.contains(nf[i]));
        let j = choose|j: int| 0 <= j < f.len() && f[j] == nf[i];
        assert(f[j] <= bound);
    }
}

proof fn lemma_filter_bounded(p: Seq<usize>, bound: nat)
    requires
        parts_at_most(p, bound),
    ensures
        parts_at_most(p.filter(part_positive()), bound),
    decreases p.len(),
{
    if p.len() > 0 {
        lemma_filter_bounded(p.drop_last(), bound);
        p.drop_last().lemma_filter_push(p.last(), part_positive());
        assert(p.drop_last().push(p.last()) =~= p);
    } else {
        reveal(Seq::filter);
        assert(p.filter(part_positive()) =~= Seq::<usize>::empty());
    }
}

/// The normal form of a partition: its positive parts, sorted into weakly
/// decreasing order.
pub fn normalize_partition(p: &[usize]) -> (r: Vec<usize>)
    ensures
        r@ == normal_form(p@),
{
    let ghost pos = part_positive();
    let mut kept: Vec<usize> = Vec::new();
    let mut i: usize = 0;
    while i < p.len()
        invariant
            i <= p@.len(),
            pos == part_positive(),
            kept@ == p@.subrange(0, i as int).filter(pos),
        decreases p.len() - i,
    {
        proof {
            p@.subrange(0, i as int).lemma_filter_push(p@[i as int], pos);
            assert(p@.subrange(0, i as int).push(p@[i as int]) =~= p@.subrange(0, i + 1));
        }
        if p[i] > 0 {
            kept.push(p[i]);
        }
        i = i + 1;
    }
    assert(p@.subrange(0, i as int) =~= p@);
    let ghost ge = part_ge();
    let mut out: Vec<usize> = Vec::new();
    let mut j: usize = 0;
    assert(out@ =~= kept@.subrange(0, 0));
    while j < kept.len()
        invariant
            j <= kept@.len(),
            ge == part_ge(),
            vstd::relations::sorted_by(out@, ge),
            out@.to_multiset() == kept@.subrange(0, j as int).to_multiset(),
        decreases kept.len() - j,
    {
        broadcast use vstd::seq_lib::group_to_multiset_ensures;
        let x = kept[j];
        let mut t: usize = 0;
        while t < out.len() && out[t] >= x
            invariant
                t <= out@.len(),
                forall|a: int| 0 <= a < t ==> out@[a] >= x,
            decreases out.len() - t,
        {
            t = t + 1;
        }
        let ghost before = out@;
        out.insert(t, x);
        proof {
            assert(kept@.subrange(0, j + 1) =~= kept@.subrange(0, j as int).push(x));
            assert(kept@.subrange(0, j as int).push(x) =~= kept@.subrange(0, j as int).insert(j as int, x));
            assert forall|a: int, b: int| 0 <= a < b < out@.len() implies #[trigger] ge(out@[a], out@[b]) by {
                if b < t {
                    assert(out@[a] == before[a] && out@[b] == before[b]);
                    assert(ge(before[a], before[b]));
                } else if b == t {
                    assert(out@[a] == before[a]);
                } else if a == t {
                    assert(out@[b] == before[b - 1]);
                    if b - 1 < before.len() && t < before.len() {
                        assert(!(before[t as int] >= x) || t == before.len());
                    }
                    if t < before.len() {
                        assert(ge(before[t as int], before[b - 1]) || t == b - 1);
                    }
                } else if a < t {
                    assert(out@[a] == before[a] && out@[b] == before[b - 1]);
                    assert(ge(before[a], before[b - 1]));
                } else {
                    assert(out@[a] == before[a - 1] && out@[b] == before[b - 1]);
                    assert(ge(before[a - 1], before[b - 1]));
                }
            }
        }
        j = j + 1;
    }
    proof {
        assert(kept@.subrange(0, j as int) =~= kept@);
        lemma_part_ge_total();
        kept@.lemma_sort_by_ensures(ge);
        vstd::seq_lib::lemma_sorted_unique(out@, kept@.sort_by(ge), ge);
    }
    out
}

/// `amari_enumerative::Matroid::schubert_matroid` accepts a partition when
/// each of its first k parts is at most n-k.
pub open spec fn schubert_matroid_accepts(p: Seq<usize>, k: usize, n: usize) -> bool {
    forall|i: int| 0 <= i < p.len() && i < k ==> #[trigger] p[i] <= n - k
}

/// Builds the Schubert matroids of two partitions with
/// `amari_enumerative::Matroid::schubert_matroid` and intersects them with
/// `Matroid::intersection_cardinality`.
///
/// Construction fails exactly when one of the first k parts exceeds n-k
/// (with k ≥ 1 a valid partition always has a basis); the cardinality is
/// named.
#[verifier::external_body]
pub(crate) fn matroid_pair_cardinality(a: &[usize], b: &[usize], k: usize, n: usize) -> (r: std::result::Result<usize, String>)
    requires
        1 <= k <= n,
    ensures
        (r is Ok) == (schubert_matroid_accepts(a@, k, n) && schubert_matroid_accepts(b@, k, n)),
        r matches Ok(c) ==> c == matroid_intersection_cardinality(a@, b@, k, n),
{
    let ma = amari_enumerative::Matroid::schubert_matroid(a, k, n)?;
    let mb = amari_enumerative::Matroid::schubert_matroid(b, k, n)?;
    Ok(ma.intersection_cardinality(&mb))
}

/// Intersects several independent batches with
/// `amari_enumerative::multi_intersect_batch`, which runs `multi_intersect`
/// on each batch (in parallel) and keeps their order.
#[verifier::external_body]
pub(crate) fn lr_multi_intersect_batch(batches: &Vec<Vec<SchubertClass>>, k: usize, n: usize) -> (r: Vec<
    IntersectionResult,
>)
    requires
        forall|i: int|
            0 <= i < batches@.len() ==> engine_fits(class_partitions(#[trigger] batches@[i]@), k, n),
    ensures
        r@.len() == batches@.len(),
        forall|i: int|
            0 <= i < batches@.len() ==> #[trigger] r@[i] == lr_outcome(
                class_partitions(batches@[i]@),
                k,
                n,
            ),
        forall|i: int|
            0 <= i < batches@.len() ==> (#[trigger] r@[i] matches IntersectionResult::Finite(c) ==> c
                == lr_transverse_count(class_partitions(batches@[i]@), k, n)),
{
    let inputs: Vec<(Vec<amari_enumerative::SchubertClass>, (usize, usize))> = batches.iter().map(|b| (
        b.iter().map(|c| amari_enumerative::SchubertClass { partition: c.partition.clone(), grassmannian_dim: (k, n) }).collect(),
        (k, n),
    )).collect();
    amari_enumerative::multi_intersect_batch(&inputs).into_iter().map(|r| match r {
        amari_enumerative::IntersectionResult::Empty => IntersectionResult::Empty,
        amari_enumerative::IntersectionResult::Finite(c) => IntersectionResult::Finite(c),
        amari_enumerative::IntersectionResult::PositiveDimensional { dimension, degree } =>
            IntersectionResult::PositiveDimensional { dimension, degree },
    }).collect()
}


// ── Namespaces ────────────────────────────────────────────────────────

/// `amari_enumerative::Namespace`, held opaquely: a principal's position in
/// the Grassmannian together with the capabilities granted to it.
#[verifier::external_type_specification]
#[verifier::external_body]
pub struct ExNamespace(amari_enumerative::Namespace);

/// The capabilities a namespace holds, in grant order: for each, its
/// identifier, its partition, and whether it carries neither dependencies
/// nor conflicts.
pub uninterp spec fn namespace_grants(ns: Namespace) -> Seq<(Seq<char>, Seq<usize>, bool)>;

/// The Grassmannian (k, n) a namespace was built in, and the partition of its
/// position.
pub uninterp spec fn namespace_frame(ns: Namespace) -> (usize, usize, Seq<usize>);

/// The identifiers of a list of grants, in order.
pub open spec fn grant_ids(g: Seq<(Seq<char>, Seq<usize>, bool)>) -> Seq<Seq<char>> {
    Seq::new(g.len(), |i: int| g[i].0)
}

/// Some grant in the list has this identifier.
pub open spec fn holds_id(g: Seq<(Seq<char>, Seq<usize>, bool)>, id: Seq<char>) -> bool {
    exists|i: int| 0 <= i < g.len() && #[trigger] g[i].0 == id
}

/// `i` is the first grant with this identifier.
pub open spec fn first_grant(g: Seq<(Seq<char>, Seq<usize>, bool)>, id: Seq<char>, i: int) -> bool {
    &&& 0 <= i < g.len()
    &&& g[i].0 == id
    &&& forall|j: int| 0 <= j < i ==> #[trigger] g[j].0 != id
}

/// No grant in the list carries dependencies or conflicts.
pub open spec fn all_plain(g: Seq<(Seq<char>, Seq<usize>, bool)>) -> bool {
    forall|i: int| 0 <= i < g.len() ==> #[trigger] g[i].2
}

/// `SchubertClass::new` accepts this partition in Gr(k,n).
pub open spec fn partition_accepted(p: Seq<usize>, k: usize, n: usize) -> bool {
    p.len() == 0 || (k <= n && parts_at_most(p, (n - k) as nat))
}

/// `Clone` of `amari_enumerative::Namespace`, which is derived: the copy
/// holds the same capabilities, Grassmannian and position.
pub assume_specification[ <Namespace as Clone>::clone ](ns: &Namespace) -> (r: Namespace)
    ensures
        namespace_grants(r) == namespace_grants(*ns),
        namespace_frame(r) == namespace_frame(*ns),
;

/// Builds a namespace at the identity position (the empty partition) of
/// Gr(k,n) with `amari_enumerative::NamespaceBuilder::new(..).build()`.
///
/// The builder validates the empty position partition, which always passes,
/// and grants nothing, so the namespace it returns holds no capability.
#[verifier::external_body]
pub(crate) fn new_namespace(name: &str, k: usize, n: usize) -> (r: std::result::Result<Namespace, String>)
    ensures
        r is Ok,
        r matches Ok(ns) ==> namespace_grants(ns) == Seq::<(Seq<char>, Seq<usize>, bool)>::empty()
            && namespace_frame(ns) == (k, n, Seq::<usize>::empty()),
{
    amari_enumerative::NamespaceBuilder::new(name, k, n).build().map_err(|e| e.to_string())
}

/// Grants a capability with `amari_enumerative::Namespace::grant`.
///
/// The capability is handed over as the crate's `Capability` value with the
/// given identifier, label and partition (in the namespace's Grassmannian)
/// and no dependencies or conflicts. `grant` appends it unless an existing
/// capability lists it as a conflict, which cannot happen when no existing
/// capability carries conflicts; on failure the namespace is unchanged.
#[verifier::external_body]
pub(crate) fn namespace_grant(ns: &mut Namespace, id: &str, label: &str, partition: &Vec<usize>) -> (r: std::result::Result<(), String>)
    requires
        partition_accepted(partition@, namespace_frame(*old(ns)).0, namespace_frame(*old(ns)).1),
    ensures
        namespace_frame(*final(ns)) == namespace_frame(*old(ns)),
        all_plain(namespace_grants(*old(ns))) ==> r is Ok,
        r is Ok ==> namespace_grants(*final(ns)) == namespace_grants(*old(ns)).push(
            (id@, partition@, true),
        ),
        r is Err ==> namespace_grants(*final(ns)) == namespace_grants(*old(ns)),
{
    let cap = amari_enumerative::Capability {
        id: amari_enumerative::CapabilityId::new(id),
        name: label.to_string(),
        schubert_class: amari_enumerative::SchubertClass {
            partition: partition.clone(),
            grassmannian_dim: ns.grassmannian,
        },
        requires: Vec::new(),
        conflicts: Vec::new(),
    };
    ns.grant(cap).map_err(|e| e.to_string())
}

/// Revokes a capability with `amari_enumerative::Namespace::revoke`.
///
/// `revoke` removes the first capability with the identifier unless another
/// capability depends on it, and reports whether it removed one.
#[verifier::external_body]
pub(crate) fn namespace_revoke(ns: &mut Namespace, id: &str) -> (r: bool)
    ensures
        namespace_frame(*final(ns)) == namespace_frame(*old(ns)),
        r ==> exists|i: int|
            first_grant(namespace_grants(*old(ns)), id@, i) && namespace_grants(*final(ns))
                == namespace_grants(*old(ns)).remove(i),
        !r ==> namespace_grants(*final(ns)) == namespace_grants(*old(ns)),
        all_plain(namespace_grants(*old(ns))) ==> r == holds_id(namespace_grants(*old(ns)), id@),
{
    ns.revoke(&amari_enumerative::CapabilityId::new(id))
}

/// Grants a copy of the capability at position `i` of `src` to `dst`, with
/// `amari_enumerative::Namespace::grant` on a clone of that capability.
///
/// `grant` appends the capability unless it conflicts with one already held
/// or misses a dependency; with no dependencies or conflicts on either side
/// it always succeeds. On failure `dst` is unchanged; the error's text is
/// left unstated.
#[verifier::external_body]
pub(crate) fn namespace_grant_from(dst: &mut Namespace, src: &Namespace, i: usize) -> (r: std::result::Result<(), String>)
    requires
        i < namespace_grants(*src).len(),
    ensures
        namespace_frame(*final(dst)) == namespace_frame(*old(dst)),
        all_plain(namespace_grants(*old(dst))) && namespace_grants(*src)[i as int].2 ==> r is Ok,
        r is Ok ==> namespace_grants(*final(dst)) == namespace_grants(*old(dst)).push(namespace_grants(*src)[i as int]),
        r is Err ==> namespace_grants(*final(dst)) == namespace_grants(*old(dst)),
{
    dst.grant(src.capabilities[i].clone()).map_err(|e| e.to_string())
}

/// Whether a namespace holds a capability, by
/// `amari_enumerative::Namespace::has_capability`: some granted capability
/// has the identifier.
#[verifier::external_body]
pub(crate) fn namespace_has(ns: &Namespace, id: &str) -> (r: bool)
    ensures
        r == holds_id(namespace_grants(*ns), id@),
{
    ns.has_capability(&amari_enumerative::CapabilityId::new(id))
}

/// The number of capabilities a namespace holds, by
/// `amari_enumerative::Namespace::capability_count`.
#[verifier::external_body]
pub(crate) fn namespace_count(ns: &Namespace) -> (r: usize)
    ensures
        r == namespace_grants(*ns).len(),
{
    ns.capability_count()
}

/// The identifiers and partitions of the capabilities a namespace holds, in
/// grant order, read from its `capabilities` field.
#[verifier::external_body]
pub(crate) fn namespace_list(ns: &Namespace) -> (r: Vec<(String, Vec<usize>)>)
    ensures
        r@.len() == namespace_grants(*ns).len(),
        forall|i: int|
            0 <= i < r@.len() ==> (#[trigger] r@[i]).0@ == namespace_grants(*ns)[i].0 && r@[i].1@
                == namespace_grants(*ns)[i].1,
{
    ns.capabilities.iter().map(|c| (c.id.as_str().to_string(), c.schubert_class.partition.clone())).collect()
}

/// The partition of a namespace's position, read from its `position` field.
#[verifier::external_body]
pub(crate) fn namespace_position(ns: &Namespace) -> (r: Vec<usize>)
    ensures
        r@ == namespace_frame(*ns).2,
{
    ns.position.partition.clone()
}


// ── Operadic composition ──────────────────────────────────────────────


/// The partition of the first grant with this identifier.
pub open spec fn first_partition(g: Seq<(Seq<char>, Seq<usize>, bool)>, id: Seq<char>) -> Seq<usize> {
    g[choose|i: int| first_grant(g, id, i)].1
}

/// The sums the engine forms when gluing: the codimension of the first
/// grant of `out` in `a` (summed by `mark_output`), that of the first grant
/// of `inp` in `b` (by `mark_input`, reached only when the first is marked),
/// and, for compatible interfaces number 0, their sum.
pub open spec fn interface_fits(
    a: Seq<(Seq<char>, Seq<usize>, bool)>,
    out: Seq<char>,
    out_idx: usize,
    b: Seq<(Seq<char>, Seq<usize>, bool)>,
    inp: Seq<char>,
    in_idx: usize,
) -> bool {
    let ca = seq_sum(first_partition(a, out));
    let cb = seq_sum(first_partition(b, inp));
    &&& holds_id(a, out) ==> ca <= usize::MAX
    &&& holds_id(a, out) && holds_id(b, inp) ==> cb <= usize::MAX
    &&& holds_id(a, out) && holds_id(b, inp) && out_idx == 0 && in_idx == 0 && ca == cb ==> ca * 2
        <= usize::MAX
}

/// The multiplicity of gluing the first grant of `out` in `a` (as output
/// interface number `out_idx`) to the first grant of `inp` in `b` (as input
/// interface number `in_idx`): only interface number 0 exists on each side,
/// and interfaces of different codimension do not glue.
pub open spec fn glue_value(
    a: Seq<(Seq<char>, Seq<usize>, bool)>,
    out: Seq<char>,
    out_idx: usize,
    b: Seq<(Seq<char>, Seq<usize>, bool)>,
    inp: Seq<char>,
    in_idx: usize,
    k: usize,
    n: usize,
) -> u64 {
    let ca = seq_sum(first_partition(a, out));
    let cb = seq_sum(first_partition(b, inp));
    if out_idx != 0 || in_idx != 0 || ca != cb {
        0
    } else {
        1
    }
}

/// The message of marking an interface on a capability the namespace lacks.
pub open spec fn missing_interface_text(id: Seq<char>) -> Seq<char> {
    "Capability "@ + id + " not found"@
}

/// Glues two namespaces along an interface with `amari_enumerative`'s
/// operadic composition: each namespace is wrapped by
/// `ComposableNamespace::new`, `mark_output` marks the capability `out` of
/// `a` and `mark_input` the capability `inp` of `b` (each fails when the
/// namespace lacks it), and `composition_multiplicity` glues output number
/// `out_idx` to input number `in_idx`.
///
/// Each side then has exactly one interface, carrying the codimension of the
/// first capability with that identifier; an index other than 0 or unequal
/// codimensions give 0. Equal codimensions c give the Littlewood-Richardson
/// coefficient of σ_(c)·σ_(c) at σ_(min(2c, n−k)), or 1 where it vanishes:
/// that coefficient is 1 when 2c ≤ n−k and 0 otherwise, so the result is 1.
#[verifier::external_body]
pub(crate) fn interface_multiplicity(
    a: &Namespace,
    out: &str,
    out_idx: usize,
    b: &Namespace,
    inp: &str,
    in_idx: usize,
) -> (r: std::result::Result<u64, String>)
    requires
        namespace_frame(*a).0 <= namespace_frame(*a).1,
        interface_fits(namespace_grants(*a), out@, out_idx, namespace_grants(*b), inp@, in_idx),
    ensures
        (r is Ok) == (holds_id(namespace_grants(*a), out@) && holds_id(namespace_grants(*b), inp@)),
        r matches Err(m) ==> if !holds_id(namespace_grants(*a), out@) {
            m@ == missing_interface_text(out@)
        } else {
            m@ == missing_interface_text(inp@)
        },
        r matches Ok(m) ==> m == glue_value(
            namespace_grants(*a),
            out@,
            out_idx,
            namespace_grants(*b),
            inp@,
            in_idx,
            namespace_frame(*a).0,
            namespace_frame(*a).1,
        ),
{
    let mut comp_a = amari_enumerative::ComposableNamespace::new(a.clone());
    let mut comp_b = amari_enumerative::ComposableNamespace::new(b.clone());
    comp_a.mark_output(&amari_enumerative::CapabilityId::new(out))?;
    comp_b.mark_input(&amari_enumerative::CapabilityId::new(inp))?;
    Ok(amari_enumerative::composition_multiplicity(&comp_a, out_idx, &comp_b, in_idx))
}

} // verus!
