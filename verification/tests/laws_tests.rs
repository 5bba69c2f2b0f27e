use schubert::law_check::{check_access_idempotency, check_grant_idempotency, check_grant_revoke_identity};
use schubert::{AccessController, AccessDecision, Capability, CapabilityKind, ComputationPath};

fn setup() -> AccessController {
    let mut acl = AccessController::new(2, 4).unwrap();
    acl.register_capability(Capability::new("read:data", "Read", vec![1], CapabilityKind::ReadLike)).unwrap();
    acl.register_capability(Capability::new("write:data", "Write", vec![2], CapabilityKind::WriteLike)).unwrap();
    acl.register_capability(Capability::new("admin:*", "Admin", vec![2, 2], CapabilityKind::AdminLike)).unwrap();
    acl
}

#[test]
fn law_grant_idempotency() {
    let mut acl = setup();
    let p = acl.create_principal("test").unwrap();
    check_grant_idempotency(&mut acl, &p, "read:data").unwrap();
}

#[test]
fn law_grant_revoke_identity() {
    let mut acl = setup();
    let p = acl.create_principal("test").unwrap();
    check_grant_revoke_identity(&mut acl, &p, "read:data").unwrap();
}

#[test]
fn law_access_idempotency() {
    let mut acl = setup();
    let p = acl.create_principal("test").unwrap();
    acl.grant(&p, "read:data").unwrap();
    check_access_idempotency(&acl, &p, &["read:data"]).unwrap();
}

#[test]
fn grant_idempotency_leaves_two_copies_held() {
    let mut acl = setup();
    let p = acl.create_principal("test").unwrap();
    check_grant_idempotency(&mut acl, &p, "read:data").unwrap();
    assert!(acl.principal(&p).unwrap().holds("read:data"));
    acl.revoke(&p, "read:data").unwrap();
    assert!(acl.principal(&p).unwrap().holds("read:data"));
}

#[test]
fn grant_idempotency_reports_unknown_capability() {
    let mut acl = setup();
    let p = acl.create_principal("test").unwrap();
    let v = check_grant_idempotency(&mut acl, &p, "nope").unwrap_err();
    assert_eq!(v.law, "grant idempotency (first grant)");
    assert_eq!(v.left, "Ok(())");
    assert_eq!(v.right, "capability 'nope' not found");
}

#[test]
fn grant_revoke_identity_keeps_a_held_capability() {
    let mut acl = setup();
    let p = acl.create_principal("test").unwrap();
    acl.grant(&p, "write:data").unwrap();
    check_grant_revoke_identity(&mut acl, &p, "write:data").unwrap();
    assert!(acl.principal(&p).unwrap().holds("write:data"));
}

#[test]
fn grant_revoke_identity_reports_unknown_principal() {
    let mut acl = setup();
    let stranger = schubert::PrincipalId::new("ghost");
    let v = check_grant_revoke_identity(&mut acl, &stranger, "read:data").unwrap_err();
    assert_eq!(v.law, "grant-revoke identity (grant)");
    assert_eq!(v.right, "principal 'ghost' not found");
}

#[test]
fn access_idempotency_reports_unknown_principal() {
    let acl = setup();
    let stranger = schubert::PrincipalId::new("ghost");
    let v = check_access_idempotency(&acl, &stranger, &["read:data"]).unwrap_err();
    assert_eq!(v.law, "access idempotency");
    assert_eq!(v.left, "Ok(decision)");
    assert_eq!(v.right, "principal 'ghost' not found");
}

#[test]
fn prove_finite_access() {
    let mut acl = setup();
    let p = acl.create_principal("alice").unwrap();
    acl.grant(&p, "admin:*").unwrap();
    let decision = acl.check(&p, &["admin:*"]).unwrap();
    assert_eq!(decision, AccessDecision::Granted { configurations: 1, path: ComputationPath::LittlewoodRichardson });
}

#[test]
fn prove_capability_valid() {
    let cap = Capability::new("test", "Test", vec![1], CapabilityKind::ReadLike);
    assert!(cap.to_schubert_class((2, 4)).is_ok());
    assert_eq!(cap.id.as_str(), "test");
    assert_eq!(cap.codimension(), 1);
}

#[test]
fn prove_capability_invalid_partition_fails() {
    let cap = Capability::new("bad", "Bad", vec![5], CapabilityKind::ReadLike);
    assert!(cap.to_schubert_class((2, 4)).is_err());
}

#[test]
fn grant_order_gives_the_same_decisions() {
    let mut a = setup();
    let mut b = setup();
    let pa = a.create_principal("p").unwrap();
    let pb = b.create_principal("p").unwrap();
    a.grant(&pa, "read:data").unwrap();
    a.grant(&pa, "write:data").unwrap();
    b.grant(&pb, "write:data").unwrap();
    b.grant(&pb, "read:data").unwrap();
    for req in [&["read:data"][..], &["write:data"][..], &["read:data", "write:data"][..], &["admin:*"][..]] {
        assert_eq!(a.check(&pa, req), b.check(&pb, req));
    }
}

#[test]
fn exact_paths_agree_on_every_outcome() {
    let mut acl = setup();
    let p = acl.create_principal("p").unwrap();
    acl.grant(&p, "read:data").unwrap();
    acl.grant(&p, "write:data").unwrap();
    acl.grant(&p, "admin:*").unwrap();
    for req in [&["read:data"][..], &["admin:*"][..], &["write:data", "admin:*"][..]] {
        let lr = acl.check_with_path(&p, req, ComputationPath::LittlewoodRichardson).unwrap();
        let loc = acl.check_with_path(&p, req, ComputationPath::Localization).unwrap();
        match (lr, loc) {
            (AccessDecision::Granted { configurations: a, .. }, AccessDecision::Granted { configurations: b, .. }) => {
                assert_eq!(a, b)
            }
            (x, y) => assert_eq!(x, y),
        }
    }
}

#[test]
fn overconstrained_checks_are_denied_on_every_path() {
    let mut acl = setup();
    let p = acl.create_principal("p").unwrap();
    acl.grant(&p, "write:data").unwrap();
    acl.grant(&p, "admin:*").unwrap();
    for path in [
        ComputationPath::LittlewoodRichardson,
        ComputationPath::Localization,
        ComputationPath::Tropical,
    ] {
        assert_eq!(acl.check_with_path(&p, &["write:data", "admin:*"], path), Ok(AccessDecision::Denied));
    }
}

#[test]
fn revoke_of_unheld_capability_is_refused() {
    let mut acl = setup();
    let p = acl.create_principal("p").unwrap();
    assert!(acl.revoke(&p, "read:data").is_err());
}

#[test]
fn check_does_not_depend_on_requirement_order() {
    let mut acl = setup();
    let p = acl.create_principal("p").unwrap();
    acl.grant(&p, "read:data").unwrap();
    acl.grant(&p, "write:data").unwrap();
    let forward = acl.check(&p, &["read:data", "write:data"]).unwrap();
    let backward = acl.check(&p, &["write:data", "read:data"]).unwrap();
    assert_eq!(forward, backward);
    let partial_forward = acl.check(&p, &["read:data", "admin:*"]).unwrap();
    let partial_backward = acl.check(&p, &["admin:*", "read:data"]).unwrap();
    assert_eq!(partial_forward, AccessDecision::Denied);
    assert_eq!(partial_backward, AccessDecision::Denied);
}
