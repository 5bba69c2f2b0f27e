//! Capability types for geometric access control.
//!
//! A [`Capability`] is a named Schubert condition — a geometric constraint
//! on the Grassmannian that reduces the space of valid configurations.
//! Each capability carries a partition defining a Schubert class σ_λ,
//! a semantic kind hint, and human-readable metadata.
//!
//! The total codimension of all granted capabilities is compared with the
//! Grassmannian dimension k(n−k): equal gives finite configuration counts,
//! more is over-constrained (denied), less is under-constrained.

use vstd::prelude::*;
use vstd::std_specs::cmp::PartialEqSpecImpl;
use crate::engine::{new_schubert_class, SchubertClass};
use crate::error::{Result, SchubertError};
use crate::util::{copy_sizes, copy_string, owned, seq_sum, sum_parts};

verus! {

/// Unique identifier for a capability.
///
/// Identity is determined by the ID alone — two capabilities with the same
/// ID are considered equal regardless of partition, kind, or metadata.
#[derive(Debug, Clone, Eq, Hash, PartialOrd, Ord)]
pub struct CapabilityId(pub String);

impl CapabilityId {
    /// Create a new capability ID from a string.
    pub fn new(id: &str) -> (r: CapabilityId)
        ensures
            r.0@ == id@,
    {
        CapabilityId(owned(id))
    }

    /// Return the inner string.
    pub fn as_str(&self) -> (r: &str)
        ensures
            r@ == self.0@,
    {
        self.0.as_str()
    }

    /// The identifier as an owned string (its display form).
    pub fn to_string(&self) -> (r: String)
        ensures
            r@ == self.0@,
    {
        copy_string(&self.0)
    }
}

impl PartialEq for CapabilityId {
    fn eq(&self, other: &Self) -> (r: bool) {
        self.0 == other.0
    }
}

impl PartialEqSpecImpl for CapabilityId {
    open spec fn obeys_eq_spec() -> bool {
        true
    }

    open spec fn eq_spec(&self, other: &Self) -> bool {
        self.0@ == other.0@
    }
}

/// Semantic classification of a capability.
///
/// The kind does not affect the mathematical computation — it is metadata
/// for policy authors and auditing tools.
#[derive(Debug, Clone, Copy, PartialEq, Eq, Structural, Hash)]
pub enum CapabilityKind {
    /// Read-like capability. Typically codimension 1 (σ₁).
    ReadLike,
    /// Write-like capability. Typically codimension 2 (σ₂).
    WriteLike,
    /// Administrative capability. Typically the point class.
    AdminLike,
    /// Custom capability with arbitrary partition semantics.
    Custom,
}

/// The kind a name denotes: "ReadLike", "WriteLike" and "AdminLike" their
/// kinds, anything else `Custom`.
pub open spec fn kind_named(name: Seq<char>) -> CapabilityKind {
    if name == "ReadLike"@ {
        CapabilityKind::ReadLike
    } else if name == "WriteLike"@ {
        CapabilityKind::WriteLike
    } else if name == "AdminLike"@ {
        CapabilityKind::AdminLike
    } else {
        CapabilityKind::Custom
    }
}

impl CapabilityKind {
    /// The kind a name denotes; an unknown name denotes `Custom`.
    pub fn from_name(name: &str) -> (r: CapabilityKind)
        ensures
            r == kind_named(name@),
    {
        if crate::util::str_eq(name, "ReadLike") {
            CapabilityKind::ReadLike
        } else if crate::util::str_eq(name, "WriteLike") {
            CapabilityKind::WriteLike
        } else if crate::util::str_eq(name, "AdminLike") {
            CapabilityKind::AdminLike
        } else {
            CapabilityKind::Custom
        }
    }
}

/// A named Schubert condition with human-readable metadata.
#[derive(Debug, Clone)]
pub struct Capability {
    /// Unique identifier for this capability.
    pub id: CapabilityId,
    /// Short human-readable label.
    pub label: String,
    /// Longer description of what this capability grants.
    pub description: String,
    /// The Schubert partition defining this condition.
    pub partition: Vec<usize>,
    /// Semantic kind for policy reasoning.
    pub kind: CapabilityKind,
}

impl Capability {
    /// Create a new capability with an empty description.
    pub fn new(id: &str, label: &str, partition: Vec<usize>, kind: CapabilityKind) -> (r: Capability)
        ensures
            r.id.0@ == id@,
            r.label@ == label@,
            r.description@ == Seq::<char>::empty(),
            r.partition@ == partition@,
            r.kind == kind,
    {
        Capability {
            id: CapabilityId::new(id),
            label: owned(label),
            description: String::new(),
            partition,
            kind,
        }
    }

    /// Create a new capability with a description.
    pub fn with_description(
        id: &str,
        label: &str,
        description: &str,
        partition: Vec<usize>,
        kind: CapabilityKind,
    ) -> (r: Capability)
        ensures
            r.id.0@ == id@,
            r.label@ == label@,
            r.description@ == description@,
            r.partition@ == partition@,
            r.kind == kind,
    {
        Capability {
            id: CapabilityId::new(id),
            label: owned(label),
            description: owned(description),
            partition,
            kind,
        }
    }

    /// The codimension of this capability — the sum of its partition parts.
    pub fn codimension(&self) -> (r: usize)
        requires
            seq_sum(self.partition@) <= usize::MAX,
        ensures
            r == seq_sum(self.partition@),
    {
        sum_parts(self.partition.as_slice())
    }

    /// Convert this capability to a Schubert class on Gr(k,n), validating
    /// its partition: every part must be at most n−k.
    pub fn to_schubert_class(&self, grassmannian: (usize, usize)) -> (r: Result<SchubertClass>)
        requires
            self.partition@.len() > 0 ==> grassmannian.0 <= grassmannian.1,
        ensures
            (r is Ok) == crate::engine::partition_accepted(
                self.partition@,
                grassmannian.0,
                grassmannian.1,
            ),
            r matches Ok(c) ==> c.partition@ == self.partition@ && c.grassmannian_dim
                == grassmannian,
            r matches Err(e) ==> e matches SchubertError::InvalidPartition { partition, k, n, reason }
                && partition@ == self.partition@ && k == grassmannian.0 && n == grassmannian.1
                && exists|j: int|
                crate::engine::first_exceeding(
                    self.partition@,
                    (grassmannian.1 - grassmannian.0) as nat,
                    j,
                ) && reason@ == crate::engine::partition_error_text(
                    self.partition@[j] as nat,
                    (grassmannian.1 - grassmannian.0) as nat,
                ),
    {
        let (k, n) = grassmannian;
        match new_schubert_class(copy_sizes(&self.partition), k, n) {
            Ok(c) => Ok(c),
            Err(reason) => Err(
                SchubertError::InvalidPartition {
                    partition: copy_sizes(&self.partition),
                    k,
                    n,
                    reason,
                },
            ),
        }
    }
}

impl PartialEq for Capability {
    fn eq(&self, other: &Self) -> (r: bool) {
        self.id.0 == other.id.0
    }
}

impl PartialEqSpecImpl for Capability {
    open spec fn obeys_eq_spec() -> bool {
        true
    }

    open spec fn eq_spec(&self, other: &Self) -> bool {
        self.id.0@ == other.id.0@
    }
}

impl Eq for Capability {}

} // verus!
