//! Schubert — quantitative access control via Schubert calculus.
//!
//! Capabilities are Schubert conditions on a Grassmannian Gr(k,n); an access
//! check intersects the conditions a principal must satisfy and reports how
//! many configurations survive, whether the conditions are impossible
//! together, over-constrained, or under-constrained.

pub mod util;
pub mod error;
pub mod engine;
pub mod capability;
pub mod decision;
pub mod principal;
pub mod audit;
pub mod controller;
pub mod composition;
pub mod laws;
pub mod law_check;
pub mod crdt;
pub mod crypto;
pub mod routing;
pub mod multi;
pub mod policy;
pub mod recommend;
pub mod auth;
pub mod properties;
pub mod explore;
pub mod discover;
pub mod snapshot;
pub mod stability;

pub use audit::{AuditSink, DecisionRecord, InMemoryAudit};
pub use capability::{Capability, CapabilityId, CapabilityKind};
pub use composition::{are_composable, compose, CompositionResult};
pub use controller::AccessController;
pub use decision::{AccessDecision, ComputationPath};
pub use error::{Result, SchubertError};
pub use multi::MultiController;
pub use principal::{Principal, PrincipalId};
