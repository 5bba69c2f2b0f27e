//! Property and rewrite markers for proof-carrying access control.
//!
//! The property markers name what a value has been shown to satisfy (a valid
//! capability, a finite access decision, a capability kind); the kinds form
//! the hierarchy AdminLike → WriteLike → ReadLike, each implying a valid
//! capability. The rewrite markers name access-control expressions and the
//! laws that justify rewriting one into another; the laws themselves are
//! proved in [`crate::laws`].

use vstd::prelude::*;

verus! {

/// Property: a capability's partition is valid for its Grassmannian.
#[derive(Debug, Clone, Copy, PartialEq, Eq, Hash, Default)]
pub struct IsValidCapability;

/// Property: a principal holds a specific capability.
#[derive(Debug, Clone, Copy, PartialEq, Eq, Hash, Default)]
pub struct IsHeldBy;

/// Property: an access check produced a finite result.
#[derive(Debug, Clone, Copy, PartialEq, Eq, Hash, Default)]
pub struct IsFiniteAccess;

/// Property: two principals are composable via a shared interface.
#[derive(Debug, Clone, Copy, PartialEq, Eq, Hash, Default)]
pub struct IsComposableWith;

/// Property: capability is of AdminLike kind.
#[derive(Debug, Clone, Copy, PartialEq, Eq, Hash, Default)]
pub struct IsAdminLike;

/// Property: capability is of WriteLike kind.
#[derive(Debug, Clone, Copy, PartialEq, Eq, Hash, Default)]
pub struct IsWriteLike;

/// Property: capability is of ReadLike kind.
#[derive(Debug, Clone, Copy, PartialEq, Eq, Hash, Default)]
pub struct IsReadLike;

/// Two capabilities granted in sequence: `grant(A); grant(B)`.
pub struct GrantSeqAB;

/// The same two capabilities granted in reverse: `grant(B); grant(A)`.
pub struct GrantSeqBA;

/// `grant(cap); revoke(cap)`.
pub struct GrantThenRevoke;

/// Identity: no change.
pub struct NoOp;

/// `check(principal, [A, B])`.
pub struct CheckAB;

/// `check(principal, [B, A])`.
pub struct CheckBA;

/// `compose(A, out, B, in)`.
pub struct ComposeAB;

/// `compose(B, in, A, out)` (same interface, swapped order).
pub struct ComposeBA;

/// Grant order is commutative: granting capabilities in either order
/// leaves the same capabilities held.
pub struct ByGrantCommutativity;

/// Grant-then-revoke is equivalent to no change, for a capability not
/// held before.
pub struct ByGrantRevokeIdentity;

/// An access check does not depend on the order of the required
/// capabilities.
pub struct ByCheckCommutativity;

} // verus!
