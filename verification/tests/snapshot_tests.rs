use schubert::snapshot::{restore, snapshot, ControllerSnapshot, PrincipalRecord};
use schubert::{AccessController, AccessDecision, Capability, CapabilityKind, PrincipalId, SchubertError};

fn setup() -> AccessController {
    let mut acl = AccessController::new(2, 4).unwrap();
    for (id, partition, kind) in [
        ("read", vec![1], CapabilityKind::ReadLike),
        ("write", vec![2], CapabilityKind::WriteLike),
        ("admin", vec![2, 2], CapabilityKind::AdminLike),
        ("internal", vec![1, 1], CapabilityKind::WriteLike),
    ] {
        acl.register_capability(Capability::new(id, id, partition, kind)).unwrap();
    }
    acl
}

fn roundtrip(acl: &AccessController) -> AccessController {
    restore(&snapshot(acl)).unwrap()
}

#[test]
fn roundtrip_empty_controller() {
    let acl = AccessController::new(2, 4).unwrap();
    let restored = roundtrip(&acl);
    assert_eq!(restored.grassmannian(), (2, 4));
    assert_eq!(restored.capabilities().len(), 0);
}

#[test]
fn roundtrip_with_capabilities() {
    let acl = setup();
    let restored = roundtrip(&acl);
    assert_eq!(restored.grassmannian(), (2, 4));
    assert_eq!(restored.capabilities().len(), 4);
    assert!(restored.capability("read").is_some());
    assert!(restored.capability("write").is_some());
    assert!(restored.capability("admin").is_some());
    assert!(restored.capability("internal").is_some());
}

#[test]
fn roundtrip_principals_preserved() {
    let mut acl = setup();
    let alice = acl.create_principal("alice").unwrap();
    let bob = acl.create_principal("bob").unwrap();
    acl.grant(&alice, "read").unwrap();
    acl.grant(&bob, "read").unwrap();
    acl.grant(&bob, "write").unwrap();
    let restored = roundtrip(&acl);
    let alice_restored = restored.principal(&alice).unwrap();
    let bob_restored = restored.principal(&bob).unwrap();
    assert!(alice_restored.holds("read"));
    assert!(!alice_restored.holds("write"));
    assert!(bob_restored.holds("read"));
    assert!(bob_restored.holds("write"));
}

#[test]
fn roundtrip_decisions_match() {
    let mut acl = setup();
    let alice = acl.create_principal("alice").unwrap();
    let bob = acl.create_principal("bob").unwrap();
    acl.grant(&alice, "read").unwrap();
    acl.grant(&alice, "write").unwrap();
    acl.grant(&bob, "admin").unwrap();
    let before_checks = [
        acl.check(&alice, &["read"]).unwrap(),
        acl.check(&alice, &["read", "write"]).unwrap(),
        acl.check(&bob, &["admin"]).unwrap(),
        acl.check(&alice, &["admin"]).unwrap(),
    ];
    let restored = roundtrip(&acl);
    let after_checks = [
        restored.check(&alice, &["read"]).unwrap(),
        restored.check(&alice, &["read", "write"]).unwrap(),
        restored.check(&bob, &["admin"]).unwrap(),
        restored.check(&alice, &["admin"]).unwrap(),
    ];
    assert_eq!(before_checks, after_checks, "all access decisions must survive roundtrip");
}

#[test]
fn roundtrip_sigma1_fourth_equals_2() {
    let mut acl = setup();
    for i in 0..4 {
        let id = format!("sigma1_{i}");
        acl.register_capability(Capability::new(&id, &id, vec![1], CapabilityKind::ReadLike)).unwrap();
    }
    let p = acl.create_principal("test").unwrap();
    for i in 0..4 {
        acl.grant(&p, &format!("sigma1_{i}")).unwrap();
    }
    let before = acl.check(&p, &["sigma1_0", "sigma1_1", "sigma1_2", "sigma1_3"]).unwrap();
    let restored = roundtrip(&acl);
    let rp = restored.principal(&p).unwrap();
    let after = restored.check(&rp.id, &["sigma1_0", "sigma1_1", "sigma1_2", "sigma1_3"]).unwrap();
    assert_eq!(before, after, "σ₁⁴=2 must survive roundtrip");
}

#[test]
fn roundtrip_impossible_detected() {
    let mut acl = setup();
    let p = acl.create_principal("test").unwrap();
    acl.grant(&p, "write").unwrap();
    acl.grant(&p, "internal").unwrap();
    let before = acl.check(&p, &["write", "internal"]).unwrap();
    assert!(matches!(before, AccessDecision::Impossible { .. }));
    let restored = roundtrip(&acl);
    let rp = restored.principal(&p).unwrap();
    let after = restored.check(&rp.id, &["write", "internal"]).unwrap();
    assert!(matches!(after, AccessDecision::Impossible { .. }), "impossibility detection must survive roundtrip");
}

#[test]
fn roundtrip_revoke_preserved() {
    let mut acl = setup();
    let p = acl.create_principal("alice").unwrap();
    acl.grant(&p, "read").unwrap();
    acl.grant(&p, "write").unwrap();
    acl.revoke(&p, "write").unwrap();
    assert!(acl.principal(&p).unwrap().holds("read"));
    assert!(!acl.principal(&p).unwrap().holds("write"));
    let restored = roundtrip(&acl);
    assert!(restored.principal(&p).unwrap().holds("read"));
    assert!(!restored.principal(&p).unwrap().holds("write"));
}

// ── Further cases ───────────────────────────────────────────────────────

fn record(id: &str, grants: &[&str], created_at: u64) -> PrincipalRecord {
    PrincipalRecord {
        id: PrincipalId::new(id),
        granted_capability_ids: grants.iter().map(|g| g.to_string()).collect(),
        created_at,
    }
}

#[test]
fn restore_rejects_invalid_grassmannian() {
    let s = ControllerSnapshot { grassmannian: (4, 4), capabilities: vec![], principals: vec![] };
    assert!(matches!(restore(&s), Err(SchubertError::InvalidGrassmannian { k: 4, n: 4, .. })));
}

#[test]
fn restore_rejects_unknown_tracked_capability() {
    let s = ControllerSnapshot {
        grassmannian: (2, 4),
        capabilities: vec![Capability::new("read", "Read", vec![1], CapabilityKind::ReadLike)],
        principals: vec![record("alice", &["read", "ghost"], 7)],
    };
    assert_eq!(restore(&s).map(|_| ()), Err(SchubertError::CapabilityNotFound("ghost".to_string())));
}

#[test]
fn restore_rejects_partition_outside_grassmannian() {
    let s = ControllerSnapshot {
        grassmannian: (2, 4),
        capabilities: vec![Capability::new("wide", "Wide", vec![3], CapabilityKind::ReadLike)],
        principals: vec![record("alice", &["wide"], 7)],
    };
    assert_eq!(
        restore(&s).map(|_| ()),
        Err(SchubertError::Enumerative("Schubert calculus error: Partition entry 3 exceeds n-k = 2".to_string()))
    );
}

#[test]
fn restore_keeps_the_last_entry_of_each_identifier() {
    let s = ControllerSnapshot {
        grassmannian: (2, 4),
        capabilities: vec![
            Capability::new("read", "Old", vec![2], CapabilityKind::ReadLike),
            Capability::new("read", "New", vec![1], CapabilityKind::ReadLike),
        ],
        principals: vec![record("alice", &["read"], 1), record("alice", &[], 2)],
    };
    let c = restore(&s).unwrap();
    assert_eq!(c.capabilities().len(), 1);
    assert_eq!(c.capability("read").unwrap().label, "New");
    let alice = c.principal(&PrincipalId::new("alice")).unwrap();
    assert_eq!(alice.created_at, 2);
    assert!(!alice.holds("read"));
}

#[test]
fn restore_uses_tracked_grants_not_namespace_copies() {
    let mut acl = setup();
    let p = acl.create_principal("alice").unwrap();
    acl.grant(&p, "read").unwrap();
    acl.grant(&p, "read").unwrap();
    acl.revoke(&p, "read").unwrap();
    assert!(acl.principal(&p).unwrap().holds("read"));
    let restored = roundtrip(&acl);
    assert!(!restored.principal(&p).unwrap().holds("read"));
}

#[test]
fn snapshot_lists_registry_and_records_in_order() {
    let mut acl = setup();
    let p = acl.create_principal("alice").unwrap();
    acl.grant(&p, "write").unwrap();
    let s = snapshot(&acl);
    assert_eq!(s.grassmannian, (2, 4));
    let ids: Vec<&str> = s.capabilities.iter().map(|c| c.id.as_str()).collect();
    assert_eq!(ids, vec!["read", "write", "admin", "internal"]);
    assert_eq!(s.principals.len(), 1);
    assert_eq!(s.principals[0].id.as_str(), "alice");
    assert_eq!(s.principals[0].granted_capability_ids, vec!["write".to_string()]);
}
