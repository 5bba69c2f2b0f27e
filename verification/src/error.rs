//! Error types for Schubert access control.
//!
//! Every fallible operation returns [`Result<T>`]. Each variant carries the
//! context that produced it (capability and principal identifiers, the
//! partition and Grassmannian involved). [`SchubertError::message`] renders
//! the human-readable text of an error.

use vstd::prelude::*;
use vstd::string::*;
use crate::util::{debug_list, debug_list_string, decimal, decimal_string};

verus! {

/// Errors that can occur in Schubert access control operations.
#[derive(Debug, Clone, PartialEq, Eq)]
pub enum SchubertError {
    /// A capability with this ID is already registered.
    CapabilityExists(String),
    /// The requested capability ID was not found in the registry.
    CapabilityNotFound(String),
    /// A principal with this ID already exists in the controller.
    PrincipalExists(String),
    /// The requested principal was not found.
    PrincipalNotFound(String),
    /// The principal already holds this capability.
    CapabilityAlreadyGranted {
        /// The principal attempting to be granted.
        principal: String,
        /// The capability they already possess.
        capability: String,
    },
    /// The principal does not hold this capability.
    CapabilityNotHeld {
        /// The principal being checked.
        principal: String,
        /// The capability they do not hold.
        capability: String,
    },
    /// The partition is not valid for the current Grassmannian.
    InvalidPartition {
        /// The partition that was rejected.
        partition: Vec<usize>,
        /// Grassmannian parameter k.
        k: usize,
        /// Grassmannian parameter n.
        n: usize,
        /// Why the partition was rejected.
        reason: String,
    },
    /// The Grassmannian parameters k,n are invalid.
    InvalidGrassmannian {
        /// Grassmannian parameter k.
        k: usize,
        /// Grassmannian parameter n.
        n: usize,
        /// Why the Grassmannian is invalid.
        reason: String,
    },
    /// An error from the underlying enumerative engine (its rendered text).
    Enumerative(String),
    /// Composition of principals failed.
    CompositionFailed(String),
    /// The access controller has no configured Grassmannian.
    NoGrassmannianConfigured,
    /// I/O error (its rendered text).
    Io(String),
    /// Serialization error.
    Serialization(String),
    /// Policy parse error.
    PolicyParseError(String),
    /// Policy export error.
    PolicyExportError(String),
    /// Generic error for multi-controller and other operations.
    Generic(String),
    /// Cryptographic verification failed.
    CryptoVerificationFailed(String),
}

/// Result type alias for Schubert operations.
pub type Result<T> = std::result::Result<T, SchubertError>;

/// The rendered text of an error.
pub open spec fn error_text(e: SchubertError) -> Seq<char> {
    match e {
        SchubertError::CapabilityExists(s) => "capability '"@ + s@ + "' already exists"@,
        SchubertError::CapabilityNotFound(s) => "capability '"@ + s@ + "' not found"@,
        SchubertError::PrincipalExists(s) => "principal '"@ + s@ + "' already exists"@,
        SchubertError::PrincipalNotFound(s) => "principal '"@ + s@ + "' not found"@,
        SchubertError::CapabilityAlreadyGranted { principal, capability } =>
            "principal '"@ + principal@ + "' already holds capability '"@ + capability@ + "'"@,
        SchubertError::CapabilityNotHeld { principal, capability } =>
            "principal '"@ + principal@ + "' does not hold capability '"@ + capability@ + "'"@,
        SchubertError::InvalidPartition { partition, k, n, reason } =>
            "invalid partition "@ + debug_list(partition@) + " for Gr("@ + decimal(k as nat)
                + ","@ + decimal(n as nat) + "): "@ + reason@,
        SchubertError::InvalidGrassmannian { k, n, reason } =>
            "invalid Grassmannian Gr("@ + decimal(k as nat) + ","@ + decimal(n as nat) + "): "@
                + reason@,
        SchubertError::Enumerative(s) => "enumerative error: "@ + s@,
        SchubertError::CompositionFailed(s) => "composition failed: "@ + s@,
        SchubertError::NoGrassmannianConfigured =>
            "access controller has no configured Grassmannian"@,
        SchubertError::Io(s) => "I/O error: "@ + s@,
        SchubertError::Serialization(s) => "serialization error: "@ + s@,
        SchubertError::PolicyParseError(s) => "policy parse error: "@ + s@,
        SchubertError::PolicyExportError(s) => "policy export error: "@ + s@,
        SchubertError::Generic(s) => s@,
        SchubertError::CryptoVerificationFailed(s) => "crypto verification failed: "@ + s@,
    }
}

pub(crate) fn prefixed(prefix: &str, inner: &String) -> (r: String)
    ensures
        r@ == prefix@ + inner@,
{
    let mut s = String::from_str(prefix);
    s.append(inner.as_str());
    s
}

pub(crate) fn framed(prefix: &str, inner: &String, suffix: &str) -> (r: String)
    ensures
        r@ == prefix@ + inner@ + suffix@,
{
    let mut s = String::from_str(prefix);
    s.append(inner.as_str());
    s.append(suffix);
    s
}

impl SchubertError {
    /// The human-readable text of this error.
    pub fn message(&self) -> (r: String)
        ensures
            r@ == error_text(*self),
    {
        match self {
            SchubertError::CapabilityExists(s) => framed("capability '", s, "' already exists"),
            SchubertError::CapabilityNotFound(s) => framed("capability '", s, "' not found"),
            SchubertError::PrincipalExists(s) => framed("principal '", s, "' already exists"),
            SchubertError::PrincipalNotFound(s) => framed("principal '", s, "' not found"),
            SchubertError::CapabilityAlreadyGranted { principal, capability } => {
                let mut r = framed("principal '", principal, "' already holds capability '");
                r.append(capability.as_str());
                r.append("'");
                r
            },
            SchubertError::CapabilityNotHeld { principal, capability } => {
                let mut r = framed("principal '", principal, "' does not hold capability '");
                r.append(capability.as_str());
                r.append("'");
                r
            },
            SchubertError::InvalidPartition { partition, k, n, reason } => {
                let mut r = String::from_str("invalid partition ");
                let p = debug_list_string(partition.as_slice());
                r.append(p.as_str());
                r.append(" for Gr(");
                let ks = decimal_string(*k);
                r.append(ks.as_str());
                r.append(",");
                let ns = decimal_string(*n);
                r.append(ns.as_str());
                r.append("): ");
                r.append(reason.as_str());
                r
            },
            SchubertError::InvalidGrassmannian { k, n, reason } => {
                let mut r = String::from_str("invalid Grassmannian Gr(");
                let ks = decimal_string(*k);
                r.append(ks.as_str());
                r.append(",");
                let ns = decimal_string(*n);
                r.append(ns.as_str());
                r.append("): ");
                r.append(reason.as_str());
                r
            },
            SchubertError::Enumerative(s) => prefixed("enumerative error: ", s),
            SchubertError::CompositionFailed(s) => prefixed("composition failed: ", s),
            SchubertError::NoGrassmannianConfigured => String::from_str(
                "access controller has no configured Grassmannian",
            ),
            SchubertError::Io(s) => prefixed("I/O error: ", s),
            SchubertError::Serialization(s) => prefixed("serialization error: ", s),
            SchubertError::PolicyParseError(s) => prefixed("policy parse error: ", s),
            SchubertError::PolicyExportError(s) => prefixed("policy export error: ", s),
            SchubertError::Generic(s) => s.clone(),
            SchubertError::CryptoVerificationFailed(s) => prefixed("crypto verification failed: ", s),
        }
    }
}

} // verus!
