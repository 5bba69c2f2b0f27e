//! Audit trail for access control decisions.
//!
//! Every decision made by the access controller can be recorded as an
//! immutable [`DecisionRecord`] and written to an [`AuditSink`] — a trait
//! that callers implement for their own storage backend. Audit never
//! blocks or rejects an access check: the controller records after the
//! decision is made and ignores the sink's errors.

use vstd::prelude::*;
use crate::capability::CapabilityId;
use crate::decision::AccessDecision;
use crate::error::Result;
use crate::principal::PrincipalId;

verus! {

/// A single recorded access control decision.
#[derive(Debug, Clone)]
pub struct DecisionRecord {
    /// The principal who made the request.
    pub principal: PrincipalId,
    /// The capability IDs that were required.
    pub capabilities: Vec<CapabilityId>,
    /// The decision that was returned.
    pub decision: AccessDecision,
    /// Unix timestamp of the decision (milliseconds since epoch).
    pub timestamp: u64,
}

/// A sink for recording access control decisions.
///
/// Implementations write to files, databases, log streams, or any other
/// storage. Errors are never propagated to the access check.
pub trait AuditSink: Send + Sync {
    /// Record an access control decision.
    fn record(&self, record: &DecisionRecord) -> Result<()>;
}

/// `std::sync::Mutex`, held opaquely.
#[verifier::external_type_specification]
#[verifier::external_body]
#[verifier::reject_recursive_types(T)]
pub struct ExMutex<T: ?Sized>(std::sync::Mutex<T>);

/// An in-memory audit log for testing and small deployments: records in
/// chronological order behind a mutex.
///
/// The log is mutated through shared references, so what it holds is not a
/// function of the value Verus sees; no contract relates one call's view of
/// the log to another's.
#[derive(Debug)]
pub struct InMemoryAudit {
    records: std::sync::Mutex<Vec<DecisionRecord>>,
}

/// A new mutex holding an empty log, by `std::sync::Mutex::new`.
#[verifier::external_body]
fn empty_log() -> (r: std::sync::Mutex<Vec<DecisionRecord>>) {
    std::sync::Mutex::new(Vec::new())
}

/// A copy of the log behind the mutex, taken under `std::sync::Mutex::lock`
/// (a poisoned lock still yields its contents).
#[verifier::external_body]
fn log_snapshot(log: &std::sync::Mutex<Vec<DecisionRecord>>) -> (r: Vec<DecisionRecord>) {
    log.lock().unwrap_or_else(|e| e.into_inner()).clone()
}

/// Appends a record to the log under `std::sync::Mutex::lock` (a poisoned
/// lock still yields its contents).
#[verifier::external_body]
fn log_append(log: &std::sync::Mutex<Vec<DecisionRecord>>, record: DecisionRecord) {
    log.lock().unwrap_or_else(|e| e.into_inner()).push(record)
}

impl InMemoryAudit {
    /// Create a new empty audit log.
    pub fn new() -> (r: Self) {
        InMemoryAudit { records: empty_log() }
    }

    /// Return all recorded decisions in chronological order.
    pub fn records(&self) -> (r: Vec<DecisionRecord>) {
        log_snapshot(&self.records)
    }

    /// Return the number of recorded decisions.
    pub fn len(&self) -> (r: usize) {
        let all = log_snapshot(&self.records);
        all.len()
    }

    /// Whether any decisions have been recorded.
    pub fn is_empty(&self) -> (r: bool) {
        let all = log_snapshot(&self.records);
        all.len() == 0
    }
}

impl AuditSink for InMemoryAudit {
    /// Appends the record to the log; recording in memory never fails.
    fn record(&self, record: &DecisionRecord) -> (r: Result<()>)
        ensures
            r is Ok,
    {
        log_append(&self.records, record.clone());
        Ok(())
    }
}

} // verus!
