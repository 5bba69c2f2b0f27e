//! Access decision types — the quantitative result of every check.

use vstd::prelude::*;
use crate::capability::CapabilityId;
use crate::engine::IntersectionResult;
use crate::util::owned;

verus! {

/// The result of an access control check.
///
/// Unlike traditional boolean allow/deny, this provides quantitative
/// information about the access decision.
#[derive(Debug, Clone, PartialEq, Eq)]
pub enum AccessDecision {
    /// Access granted with `configurations` valid configurations.
    Granted {
        /// Number of valid configurations satisfying all conditions.
        configurations: u64,
        /// Which computation path was used to compute this result.
        path: ComputationPath,
    },
    /// Conditions are dimensionally compatible but geometrically impossible:
    /// the codimensions add up to the dimension, but no configuration
    /// satisfies all conditions at once.
    Impossible {
        /// Which capabilities created the impossibility.
        conflicting: Vec<CapabilityId>,
    },
    /// Access denied — too many conditions for the access space.
    Denied,
    /// Access is underconstrained — the solution space has positive dimension.
    Underconstrained {
        /// Dimension of the solution variety.
        dimension: usize,
    },
}

/// Which computation path was used to evaluate an access decision.
#[derive(Debug, Clone, Copy, PartialEq, Eq, Structural, Hash)]
pub enum ComputationPath {
    /// Littlewood-Richardson rule (exact, classical).
    LittlewoodRichardson,
    /// Equivariant localization (Atiyah-Bott fixed-point formula).
    Localization,
    /// Tropical intersection theory.
    Tropical,
    /// Matroid-based independence check (polynomial time shortcut).
    Matroid,
}

/// The display name of a computation path.
pub open spec fn path_name(p: ComputationPath) -> Seq<char> {
    match p {
        ComputationPath::LittlewoodRichardson => "Littlewood-Richardson"@,
        ComputationPath::Localization => "equivariant localization"@,
        ComputationPath::Tropical => "tropical intersection"@,
        ComputationPath::Matroid => "matroid independence"@,
    }
}

impl ComputationPath {
    /// The display name of this path.
    pub fn name(&self) -> (r: &'static str)
        ensures
            r@ == path_name(*self),
    {
        match self {
            ComputationPath::LittlewoodRichardson => "Littlewood-Richardson",
            ComputationPath::Localization => "equivariant localization",
            ComputationPath::Tropical => "tropical intersection",
            ComputationPath::Matroid => "matroid independence",
        }
    }
}

/// The identifiers of a list of capability IDs.
pub open spec fn id_views(ids: Seq<CapabilityId>) -> Seq<Seq<char>> {
    Seq::new(ids.len(), |i: int| ids[i].0@)
}

/// The views of a list of string slices.
pub open spec fn str_views(s: Seq<&str>) -> Seq<Seq<char>> {
    Seq::new(s.len(), |i: int| s[i]@)
}

/// The decision an intersection result gives, for the given required
/// capability identifiers and computation path. A finite count of zero is an
/// impossibility naming every required capability.
pub open spec fn decision_of(
    result: IntersectionResult,
    required: Seq<Seq<char>>,
    path: ComputationPath,
    d: AccessDecision,
) -> bool {
    match result {
        IntersectionResult::Finite(c) => if c == 0 {
            d matches AccessDecision::Impossible { conflicting } && id_views(conflicting@)
                == required
        } else {
            d == AccessDecision::Granted { configurations: c, path }
        },
        IntersectionResult::PositiveDimensional { dimension, .. } => d
            == AccessDecision::Underconstrained { dimension },
        IntersectionResult::Empty => d == AccessDecision::Denied,
    }
}

/// Capability IDs for each required identifier, in order.
pub fn ids_of(required: &[&str]) -> (r: Vec<CapabilityId>)
    ensures
        id_views(r@) == str_views(required@),
{
    let mut out: Vec<CapabilityId> = Vec::new();
    let mut i: usize = 0;
    while i < required.len()
        invariant
            i <= required.len(),
            out@.len() == i,
            forall|j: int| 0 <= j < i ==> (#[trigger] out@[j]).0@ == required@[j]@,
        decreases required.len() - i,
    {
        out.push(CapabilityId::new(required[i]));
        i = i + 1;
    }
    assert(id_views(out@) =~= str_views(required@));
    out
}

/// Map an intersection result to an access decision.
pub fn map_intersection_result(
    result: IntersectionResult,
    required: &[&str],
    path: ComputationPath,
) -> (d: AccessDecision)
    ensures
        decision_of(result, str_views(required@), path, d),
{
    match result {
        IntersectionResult::Finite(c) => {
            if c == 0 {
                AccessDecision::Impossible { conflicting: ids_of(required) }
            } else {
                AccessDecision::Granted { configurations: c, path }
            }
        },
        IntersectionResult::PositiveDimensional { dimension, .. } => {
            AccessDecision::Underconstrained { dimension }
        },
        IntersectionResult::Empty => AccessDecision::Denied,
    }
}

/// Optional context for access control decisions: the resource a check is
/// scoped to, the current time in milliseconds, and free-form metadata.
#[derive(Debug, Clone)]
pub struct AccessContext {
    /// Specific resource this check is scoped to.
    pub resource: Option<String>,
    /// Current Unix timestamp in milliseconds.
    pub time: Option<u64>,
    /// Arbitrary context metadata for audit and custom logic.
    pub metadata: std::collections::HashMap<String, String>,
}

impl Default for AccessContext {
    fn default() -> (r: Self)
        ensures
            r.resource is None,
            r.time is None,
            r.metadata@ == Map::<String, String>::empty(),
    {
        AccessContext { resource: None, time: None, metadata: std::collections::HashMap::new() }
    }
}

impl AccessContext {
    /// Create an empty context.
    pub fn empty() -> (r: Self)
        ensures
            r.resource is None,
            r.time is None,
            r.metadata@ == Map::<String, String>::empty(),
    {
        Self::default()
    }

    /// Create a context with just a resource.
    pub fn for_resource(resource: &str) -> (r: Self)
        ensures
            r.resource matches Some(s) && s@ == resource@,
            r.time is None,
            r.metadata@ == Map::<String, String>::empty(),
    {
        AccessContext {
            resource: Some(owned(resource)),
            time: None,
            metadata: std::collections::HashMap::new(),
        }
    }

    /// Create a context with just a timestamp.
    pub fn at_time(timestamp_ms: u64) -> (r: Self)
        ensures
            r.resource is None,
            r.time == Some(timestamp_ms),
            r.metadata@ == Map::<String, String>::empty(),
    {
        AccessContext { resource: None, time: Some(timestamp_ms), metadata: std::collections::HashMap::new() }
    }
}

} // verus!
