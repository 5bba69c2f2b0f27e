use schubert::{are_composable, compose, AccessController, Capability, CapabilityKind, SchubertError};

fn make_acl() -> AccessController {
    let mut acl = AccessController::new(2, 4).unwrap();
    for (id, partition, kind) in [
        ("out", vec![1], CapabilityKind::ReadLike),
        ("in", vec![1], CapabilityKind::ReadLike),
        ("keep_a", vec![1], CapabilityKind::ReadLike),
        ("keep_b", vec![1], CapabilityKind::ReadLike),
    ] {
        acl.register_capability(Capability::new(id, id, partition, kind)).unwrap();
    }
    acl
}

#[test]
fn compose_two_principals() {
    let mut acl = make_acl();
    let a = acl.create_principal("producer").unwrap();
    let b = acl.create_principal("consumer").unwrap();
    acl.grant(&a, "out").unwrap();
    acl.grant(&a, "keep_a").unwrap();
    acl.grant(&b, "in").unwrap();
    acl.grant(&b, "keep_b").unwrap();
    let result = compose(&acl, &a, "out", &b, "in").unwrap();
    assert!(result.multiplicity > 0);
    assert!(result.retained_capabilities.contains(&"keep_a".to_string()));
    assert!(result.retained_capabilities.contains(&"keep_b".to_string()));
}

#[test]
fn compose_without_interface_fails() {
    let mut acl = make_acl();
    let a = acl.create_principal("a").unwrap();
    let b = acl.create_principal("b").unwrap();
    assert!(compose(&acl, &a, "out", &b, "in").is_err());
}

#[test]
fn are_composable_detects_compatibility() {
    let mut acl = make_acl();
    let a = acl.create_principal("a").unwrap();
    let b = acl.create_principal("b").unwrap();
    acl.grant(&a, "out").unwrap();
    acl.grant(&b, "in").unwrap();
    assert!(are_composable(&acl, &a, "out", &b, "in"));
    assert!(!are_composable(&acl, &a, "out", &b, "out"));
}

// ── Further cases ───────────────────────────────────────────────────────

#[test]
fn compose_keeps_retained_capabilities_in_order() {
    let mut acl = make_acl();
    let a = acl.create_principal("producer").unwrap();
    let b = acl.create_principal("consumer").unwrap();
    acl.grant(&a, "keep_a").unwrap();
    acl.grant(&a, "out").unwrap();
    acl.grant(&b, "in").unwrap();
    acl.grant(&b, "keep_b").unwrap();
    let result = compose(&acl, &a, "out", &b, "in").unwrap();
    assert_eq!(result.retained_capabilities, vec!["keep_a".to_string(), "keep_b".to_string()]);
}

#[test]
fn compose_of_unknown_principal_is_an_error() {
    let mut acl = make_acl();
    let a = acl.create_principal("a").unwrap();
    acl.grant(&a, "out").unwrap();
    let ghost = schubert::PrincipalId::new("ghost");
    assert_eq!(
        compose(&acl, &a, "out", &ghost, "in").map(|_| ()),
        Err(SchubertError::PrincipalNotFound("ghost".to_string()))
    );
    let b = acl.create_principal("b").unwrap();
    assert_eq!(
        compose(&acl, &a, "out", &b, "in").map(|_| ()),
        Err(SchubertError::CapabilityNotHeld { principal: "b".to_string(), capability: "in".to_string() })
    );
}
