//! Run-time checks of the controller's laws on a live controller.
//!
//! Each check performs the operations a law speaks of and compares what it
//! observes; a failed operation or a mismatch is reported as a
//! [`LawViolation`]. The laws themselves are proved in [`crate::laws`], so
//! the contracts below show that only a failed first operation is ever
//! reported.

use vstd::prelude::*;
use crate::controller::{
    cap_of, check_fits, grant_effect, has_cap, has_principal, revoke_effect,
    AccessController,
};
use crate::decision::{str_views, ComputationPath};
use crate::engine::partition_accepted;
use crate::error::{error_text, SchubertError};
use crate::laws::{holds_in, law_check_idempotent, law_grant_idempotent, law_grant_revoke_holding};
use crate::principal::PrincipalId;

verus! {

/// A law that a run-time check found violated: the law's name and the two
/// sides that were expected to agree.
#[derive(Debug, Clone, PartialEq, Eq)]
pub struct LawViolation {
    /// Name of the violated law.
    pub law: &'static str,
    /// What was observed.
    pub left: String,
    /// What was expected.
    pub right: String,
}

/// A grant of `cid` to `pid` succeeds on `c`: the capability is registered,
/// the principal exists and the Grassmannian accepts the partition.
pub open spec fn grant_admitted(c: AccessController, pid: Seq<char>, cid: Seq<char>) -> bool {
    &&& has_cap(c.registry(), cid)
    &&& has_principal(c.roster(), pid)
    &&& partition_accepted(cap_of(c.registry(), cid).partition@, c.gr().0, c.gr().1)
}

/// The text `holds=true` or `holds=false`.
pub open spec fn holds_text(b: bool) -> Seq<char> {
    if b {
        "holds=true"@
    } else {
        "holds=false"@
    }
}

fn holds_string(b: bool) -> (r: String)
    ensures
        r@ == holds_text(b),
{
    if b {
        String::from_str("holds=true")
    } else {
        String::from_str("holds=false")
    }
}

/// Whether the principal exists and holds the capability.
fn holds_now(acl: &AccessController, principal_id: &PrincipalId, cap_id: &str) -> (r: bool)
    requires
        acl.wf(),
    ensures
        r == holds_in(*acl, principal_id.0@, cap_id@),
{
    match acl.principal(principal_id) {
        None => false,
        Some(p) => p.holds(cap_id),
    }
}

/// Check that granting the same capability twice is semantically
/// idempotent: after the first grant and after a second one the principal
/// holds the capability. A failed first grant is reported as a violation
/// carrying the error; the second grant always succeeds.
pub fn check_grant_idempotency(
    acl: &mut AccessController,
    principal_id: &PrincipalId,
    cap_id: &str,
) -> (r: std::result::Result<(), LawViolation>)
    requires
        old(acl).wf(),
    ensures
        final(acl).wf(),
        (r is Ok) == grant_admitted(*old(acl), principal_id.0@, cap_id@),
        r is Ok ==> holds_in(*final(acl), principal_id.0@, cap_id@),
        r is Ok ==> exists|mid: AccessController|
            mid.wf() && grant_effect(*old(acl), mid, principal_id.0@, cap_id@, Ok(()))
                && grant_effect(mid, *final(acl), principal_id.0@, cap_id@, Ok(())),
        r matches Err(v) ==> v.law@ == "grant idempotency (first grant)"@,
        r matches Err(v) ==> v.left@ == "Ok(())"@,
        r matches Err(v) ==> exists|e: SchubertError|
            grant_effect(*old(acl), *final(acl), principal_id.0@, cap_id@, Err(e))
                && v.right@ == error_text(e),
{
    let ghost before = *acl;
    let first = acl.grant(principal_id, cap_id);
    match first {
        Err(e) => {
            let v = LawViolation {
                law: "grant idempotency (first grant)",
                left: String::from_str("Ok(())"),
                right: e.message(),
            };
            proof {
                assert(grant_effect(before, *acl, principal_id.0@, cap_id@, Err(e)));
            }
            return Err(v);
        },
        Ok(()) => {},
    }
    let holds_after_first = holds_now(acl, principal_id, cap_id);
    let ghost mid = *acl;
    let second = acl.grant(principal_id, cap_id);
    let holds_after_second = holds_now(acl, principal_id, cap_id);
    proof {
        law_grant_idempotent(before, mid, *acl, principal_id.0@, cap_id@, second);
    }
    if holds_after_first && holds_after_second {
        Ok(())
    } else {
        Err(
            LawViolation {
                law: "grant idempotency",
                left: holds_string(holds_after_second),
                right: String::from_str("expected holds=true (semantically idempotent)"),
            },
        )
    }
}

/// Check that granting a capability and then revoking it restores whether
/// the principal holds it. A failed grant or revoke is reported as a
/// violation carrying the error; after a successful grant the revoke always
/// succeeds and the holding is always restored.
pub fn check_grant_revoke_identity(
    acl: &mut AccessController,
    principal_id: &PrincipalId,
    cap_id: &str,
) -> (r: std::result::Result<(), LawViolation>)
    requires
        old(acl).wf(),
    ensures
        final(acl).wf(),
        (r is Ok) == grant_admitted(*old(acl), principal_id.0@, cap_id@),
        r is Ok ==> holds_in(*final(acl), principal_id.0@, cap_id@) == holds_in(
            *old(acl),
            principal_id.0@,
            cap_id@,
        ),
        r is Ok ==> exists|mid: AccessController|
            mid.wf() && grant_effect(*old(acl), mid, principal_id.0@, cap_id@, Ok(()))
                && revoke_effect(mid, *final(acl), principal_id.0@, cap_id@, Ok(())),
        r matches Err(v) ==> v.law@ == "grant-revoke identity (grant)"@,
        r matches Err(v) ==> v.left@ == "Ok(())"@,
        r matches Err(v) ==> exists|e: SchubertError|
            grant_effect(*old(acl), *final(acl), principal_id.0@, cap_id@, Err(e))
                && v.right@ == error_text(e),
{
    let ghost before = *acl;
    let holds_before = holds_now(acl, principal_id, cap_id);
    let granted = acl.grant(principal_id, cap_id);
    match granted {
        Err(e) => {
            let v = LawViolation {
                law: "grant-revoke identity (grant)",
                left: String::from_str("Ok(())"),
                right: e.message(),
            };
            proof {
                assert(grant_effect(before, *acl, principal_id.0@, cap_id@, Err(e)));
            }
            return Err(v);
        },
        Ok(()) => {},
    }
    let ghost mid = *acl;
    let revoked = acl.revoke(principal_id, cap_id);
    proof {
        law_grant_revoke_holding(before, mid, *acl, principal_id.0@, cap_id@, revoked);
    }
    match revoked {
        Err(e) => {
            return Err(
                LawViolation {
                    law: "grant-revoke identity (revoke)",
                    left: String::from_str("Ok(())"),
                    right: e.message(),
                },
            );
        },
        Ok(()) => {},
    }
    let holds_after = holds_now(acl, principal_id, cap_id);
    if holds_after == holds_before {
        Ok(())
    } else {
        Err(
            LawViolation {
                law: "grant-revoke identity",
                left: holds_string(holds_after),
                right: {
                    let mut s = String::from_str("expected ");
                    s.append(holds_string(holds_before).as_str());
                    s
                },
            },
        )
    }
}

/// Check that access checks are idempotent: checking the same requirements
/// twice on the Littlewood-Richardson path gives the same decision. A
/// failed check (an unknown principal) is reported as a violation carrying
/// the error. The two decisions always agree (`law_check_idempotent`), so
/// their agreement is settled by proof rather than compared at run time.
pub fn check_access_idempotency(
    acl: &AccessController,
    principal_id: &PrincipalId,
    required: &[&str],
) -> (r: std::result::Result<(), LawViolation>)
    requires
        acl.wf(),
        check_fits(acl, principal_id.0@, str_views(required@)),
    ensures
        (r is Ok) == has_principal(acl.roster(), principal_id.0@),
        r matches Err(v) ==> v.law@ == "access idempotency"@,
        r matches Err(v) ==> v.left@ == "Ok(decision)"@,
        r matches Err(v) ==> v.right@ == error_text(SchubertError::PrincipalNotFound(principal_id.0)),
{
    let first = acl.check(principal_id, required);
    let second = acl.check(principal_id, required);
    proof {
        law_check_idempotent(
            *acl,
            principal_id.0@,
            str_views(required@),
            ComputationPath::LittlewoodRichardson,
            first,
            second,
        );
    }
    match first {
        Err(e) => {
            return Err(
                LawViolation {
                    law: "access idempotency",
                    left: String::from_str("Ok(decision)"),
                    right: e.message(),
                },
            );
        },
        Ok(_) => {},
    }
    match second {
        Err(e) => Err(
            LawViolation {
                law: "access idempotency",
                left: String::from_str("Ok(decision)"),
                right: e.message(),
            },
        ),
        Ok(_) => Ok(()),
    }
}

} // verus!
