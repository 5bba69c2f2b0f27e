//! Principal types for identity and capability possession.
//!
//! A [`Principal`] holds an `amari_enumerative::Namespace` — the geometric
//! representation of an identity's access space within the Grassmannian.
//! Capabilities are stored directly in the namespace, in grant order;
//! their metadata lives in the controller's capability registry.
//!
//! Identity is external: a [`PrincipalId`] is an opaque string that callers
//! map to whatever identity system they use.

use vstd::prelude::*;
use vstd::std_specs::cmp::PartialEqSpecImpl;
use amari_enumerative::Namespace;
use crate::engine::{
    grant_ids, holds_id, namespace_count, namespace_frame, namespace_grants, namespace_has,
    namespace_list, new_namespace,
};
use crate::error::{Result, SchubertError};
use crate::util::{copy_string, owned};

verus! {

/// Unique identifier for a principal (user, service, token).
#[derive(Debug, Clone, Eq, Hash, PartialOrd, Ord)]
pub struct PrincipalId(pub String);

impl PrincipalId {
    /// Create a new principal ID.
    pub fn new(id: &str) -> (r: PrincipalId)
        ensures
            r.0@ == id@,
    {
        PrincipalId(owned(id))
    }

    /// Return the inner string.
    pub fn as_str(&self) -> (r: &str)
        ensures
            r@ == self.0@,
    {
        self.0.as_str()
    }

    /// The identifier as an owned string (its display form).
    pub fn to_string(&self) -> (r: String)
        ensures
            r@ == self.0@,
    {
        copy_string(&self.0)
    }
}

impl PartialEq for PrincipalId {
    fn eq(&self, other: &Self) -> (r: bool) {
        self.0 == other.0
    }
}

impl PartialEqSpecImpl for PrincipalId {
    open spec fn obeys_eq_spec() -> bool {
        true
    }

    open spec fn eq_spec(&self, other: &Self) -> bool {
        self.0@ == other.0@
    }
}

/// A principal — an identity that holds capabilities.
///
/// Capabilities are stored in the namespace in grant order.
/// `granted_capability_ids` mirrors the grants for serialization: every
/// identifier in it is held by the namespace.
#[derive(Debug, Clone)]
pub struct Principal {
    /// Unique identifier for this principal.
    pub id: PrincipalId,
    /// The namespace representing this principal's access space.
    pub namespace: Namespace,
    /// Capability IDs that have been granted (in grant order).
    pub granted_capability_ids: Vec<String>,
    /// Unix timestamp of creation (milliseconds since epoch).
    pub created_at: u64,
}

impl Principal {
    /// The capabilities granted to this principal, in grant order.
    pub open spec fn grants(&self) -> Seq<(Seq<char>, Seq<usize>, bool)> {
        namespace_grants(self.namespace)
    }

    /// Create a new principal within a Grassmannian Gr(k,n).
    ///
    /// The principal starts at the identity position (empty partition —
    /// full access to the Grassmannian) with no granted capabilities.
    pub fn new(id: &str, k: usize, n: usize) -> (r: Result<Principal>)
        ensures
            r is Ok,
            r matches Ok(p) ==> p.id.0@ == id@ && p.grants() == Seq::<
                (Seq<char>, Seq<usize>, bool),
            >::empty() && namespace_frame(p.namespace) == (k, n, Seq::<usize>::empty())
                && p.granted_capability_ids@ == Seq::<String>::empty(),
    {
        let pid = PrincipalId::new(id);
        match new_namespace(id, k, n) {
            Ok(namespace) => Ok(
                Principal {
                    id: pid,
                    namespace,
                    granted_capability_ids: Vec::new(),
                    created_at: now_millis(),
                },
            ),
            Err(e) => Err(SchubertError::Enumerative(e)),
        }
    }

    /// Number of capabilities held by this principal.
    pub fn capability_count(&self) -> (r: usize)
        ensures
            r == self.grants().len(),
    {
        namespace_count(&self.namespace)
    }

    /// Capability identifiers in grant order.
    pub fn capability_ids(&self) -> (r: Vec<String>)
        ensures
            r@.len() == self.grants().len(),
            forall|i: int| 0 <= i < r@.len() ==> (#[trigger] r@[i])@ == self.grants()[i].0,
    {
        let list = namespace_list(&self.namespace);
        let mut out: Vec<String> = Vec::new();
        let mut i: usize = 0;
        while i < list.len()
            invariant
                i <= list@.len(),
                list@.len() == self.grants().len(),
                forall|j: int| 0 <= j < list@.len() ==> (#[trigger] list@[j]).0@ == self.grants()[j].0,
                out@.len() == i,
                forall|j: int| 0 <= j < i ==> (#[trigger] out@[j])@ == self.grants()[j].0,
            decreases list.len() - i,
        {
            out.push(copy_string(&list[i].0));
            i = i + 1;
        }
        out
    }

    /// Whether this principal holds a specific capability: some granted
    /// capability has this identifier.
    pub fn holds(&self, id: &str) -> (r: bool)
        ensures
            r == holds_id(self.grants(), id@),
    {
        namespace_has(&self.namespace, id)
    }

    /// The namespace representing this principal's access space.
    pub fn namespace(&self) -> (r: &Namespace)
        ensures
            *r == self.namespace,
    {
        &self.namespace
    }
}

/// Current time in milliseconds since the Unix epoch, read from
/// `std::time::SystemTime::now()`; 0 when the clock reads before the epoch.
/// Nothing is stated of the value: it is the machine's clock.
#[verifier::external_body]
pub(crate) fn now_millis() -> (r: u64) {
    std::time::SystemTime::now()
        .duration_since(std::time::UNIX_EPOCH)
        .map(|d| d.as_millis() as u64)
        .unwrap_or(0)
}

} // verus!
