use schubert::{AccessController, AccessDecision, Capability, CapabilityKind, ComputationPath, PrincipalId, SchubertError};
use schubert::{AuditSink, DecisionRecord, InMemoryAudit};

fn make_controller() -> AccessController {
    let mut acl = AccessController::new(2, 4).unwrap();
    for (id, partition, kind) in [
        ("sigma1_0", vec![1], CapabilityKind::ReadLike),
        ("sigma1_1", vec![1], CapabilityKind::ReadLike),
        ("sigma1_2", vec![1], CapabilityKind::ReadLike),
        ("sigma1_3", vec![1], CapabilityKind::ReadLike),
        ("sigma2_0", vec![2], CapabilityKind::WriteLike),
        ("sigma11", vec![1, 1], CapabilityKind::WriteLike),
        ("sigma21", vec![2, 1], CapabilityKind::AdminLike),
        ("sigma22", vec![2, 2], CapabilityKind::AdminLike),
    ] {
        acl.register_capability(Capability::new(id, id, partition, kind)).unwrap();
    }
    acl
}

fn setup_acl() -> AccessController {
    let mut acl = AccessController::new(2, 4).unwrap();
    for (id, partition, kind) in [
        ("sigma1_a", vec![1], CapabilityKind::ReadLike),
        ("sigma1_b", vec![1], CapabilityKind::ReadLike),
        ("sigma1_c", vec![1], CapabilityKind::ReadLike),
        ("sigma1_d", vec![1], CapabilityKind::ReadLike),
        ("sigma2", vec![2], CapabilityKind::WriteLike),
        ("sigma11", vec![1, 1], CapabilityKind::WriteLike),
    ] {
        acl.register_capability(Capability::new(id, id, partition, kind)).unwrap();
    }
    acl
}

fn setup_batch() -> AccessController {
    let mut acl = AccessController::new(2, 4).unwrap();
    for (id, partition, kind) in [
        ("sigma1_a", vec![1], CapabilityKind::ReadLike),
        ("sigma1_b", vec![1], CapabilityKind::ReadLike),
        ("sigma1_c", vec![1], CapabilityKind::ReadLike),
        ("sigma1_d", vec![1], CapabilityKind::ReadLike),
        ("sigma2", vec![2], CapabilityKind::WriteLike),
        ("sigma22", vec![2, 2], CapabilityKind::AdminLike),
    ] {
        acl.register_capability(Capability::new(id, id, partition, kind)).unwrap();
    }
    acl
}

#[test]
fn sigma1_fourth_equals_2() {
    let mut acl = make_controller();
    let p = acl.create_principal("test").unwrap();
    for cap in &["sigma1_0", "sigma1_1", "sigma1_2", "sigma1_3"] {
        acl.grant(&p, cap).unwrap();
    }
    let decision = acl.check(&p, &["sigma1_0", "sigma1_1", "sigma1_2", "sigma1_3"]).unwrap();
    assert_eq!(
        decision,
        AccessDecision::Granted { configurations: 2, path: ComputationPath::LittlewoodRichardson },
        "σ₁⁴ must equal 2 in Gr(2,4)"
    );
}

#[test]
fn sigma2_sigma11_is_impossible() {
    let mut acl = make_controller();
    let p = acl.create_principal("test").unwrap();
    acl.grant(&p, "sigma2_0").unwrap();
    acl.grant(&p, "sigma11").unwrap();
    let decision = acl.check(&p, &["sigma2_0", "sigma11"]).unwrap();
    assert!(matches!(decision, AccessDecision::Impossible { .. }), "σ₂·σ₁₁ must be impossible, got {decision:?}");
}

#[test]
fn overconstrained_is_denied() {
    let mut acl = make_controller();
    let p = acl.create_principal("test").unwrap();
    acl.grant(&p, "sigma2_0").unwrap();
    acl.grant(&p, "sigma21").unwrap();
    acl.grant(&p, "sigma22").unwrap();
    let decision = acl.check(&p, &["sigma2_0", "sigma21", "sigma22"]).unwrap();
    assert!(matches!(decision, AccessDecision::Denied));
}

#[test]
fn create_principal_twice_fails() {
    let mut acl = make_controller();
    acl.create_principal("alice").unwrap();
    assert!(acl.create_principal("alice").is_err());
}

#[test]
fn revoke_removes_capability() {
    let mut acl = make_controller();
    let p = acl.create_principal("alice").unwrap();
    acl.grant(&p, "sigma1_0").unwrap();
    assert!(acl.principal(&p).unwrap().holds("sigma1_0"));
    acl.revoke(&p, "sigma1_0").unwrap();
    assert!(!acl.principal(&p).unwrap().holds("sigma1_0"));
}

#[test]
fn principal_capabilities_returns_in_order() {
    let mut acl = make_controller();
    let p = acl.create_principal("test").unwrap();
    acl.grant(&p, "sigma1_0").unwrap();
    acl.grant(&p, "sigma2_0").unwrap();
    acl.grant(&p, "sigma11").unwrap();
    let caps = acl.principal_capabilities(&p).unwrap();
    assert_eq!(caps.len(), 3);
    assert_eq!(caps[0].id.as_str(), "sigma1_0");
    assert_eq!(caps[1].id.as_str(), "sigma2_0");
    assert_eq!(caps[2].id.as_str(), "sigma11");
}

#[test]
fn lr_path_sigma1_fourth_equals_2() {
    let mut acl = setup_acl();
    let p = acl.create_principal("test").unwrap();
    for cap in &["sigma1_a", "sigma1_b", "sigma1_c", "sigma1_d"] {
        acl.grant(&p, cap).unwrap();
    }
    let decision = acl
        .check_with_path(&p, &["sigma1_a", "sigma1_b", "sigma1_c", "sigma1_d"], ComputationPath::LittlewoodRichardson)
        .unwrap();
    assert_eq!(decision, AccessDecision::Granted { configurations: 2, path: ComputationPath::LittlewoodRichardson });
}

#[test]
fn localization_path_sigma1_fourth_equals_2() {
    let mut acl = setup_acl();
    let p = acl.create_principal("test").unwrap();
    for cap in &["sigma1_a", "sigma1_b", "sigma1_c", "sigma1_d"] {
        acl.grant(&p, cap).unwrap();
    }
    let decision = acl
        .check_with_path(&p, &["sigma1_a", "sigma1_b", "sigma1_c", "sigma1_d"], ComputationPath::Localization)
        .unwrap();
    assert_eq!(decision, AccessDecision::Granted { configurations: 2, path: ComputationPath::Localization });
}

#[test]
fn tropical_path_sigma1_fourth_returns_finite() {
    let mut acl = setup_acl();
    let p = acl.create_principal("test").unwrap();
    for cap in &["sigma1_a", "sigma1_b", "sigma1_c", "sigma1_d"] {
        acl.grant(&p, cap).unwrap();
    }
    let decision = acl
        .check_with_path(&p, &["sigma1_a", "sigma1_b", "sigma1_c", "sigma1_d"], ComputationPath::Tropical)
        .unwrap();
    assert!(
        matches!(decision, AccessDecision::Granted { path: ComputationPath::Tropical, .. }),
        "Tropical: σ₁⁴ should return Granted (approximate count), got {decision:?}"
    );
}

#[test]
fn lr_path_sigma2_sigma11_is_impossible() {
    let mut acl = setup_acl();
    let p = acl.create_principal("test").unwrap();
    acl.grant(&p, "sigma2").unwrap();
    acl.grant(&p, "sigma11").unwrap();
    let decision = acl.check_with_path(&p, &["sigma2", "sigma11"], ComputationPath::LittlewoodRichardson).unwrap();
    assert!(matches!(decision, AccessDecision::Impossible { .. }));
}

#[test]
fn localization_path_sigma2_sigma11_is_impossible() {
    let mut acl = setup_acl();
    let p = acl.create_principal("test").unwrap();
    acl.grant(&p, "sigma2").unwrap();
    acl.grant(&p, "sigma11").unwrap();
    let decision = acl.check_with_path(&p, &["sigma2", "sigma11"], ComputationPath::Localization).unwrap();
    assert!(matches!(decision, AccessDecision::Impossible { .. }));
}

#[test]
fn matroid_path_detects_impossible() {
    let mut acl = setup_acl();
    let p = acl.create_principal("test").unwrap();
    acl.grant(&p, "sigma2").unwrap();
    acl.grant(&p, "sigma11").unwrap();
    let decision = acl.check_with_path(&p, &["sigma2", "sigma11"], ComputationPath::Matroid).unwrap();
    assert!(matches!(decision, AccessDecision::Impossible { .. }));
}

#[test]
fn auto_routing_selects_correct_path() {
    let mut acl = setup_acl();
    let p = acl.create_principal("test").unwrap();
    acl.grant(&p, "sigma2").unwrap();
    let decision_lr = acl.check(&p, &["sigma2"]).unwrap();
    let decision_auto = acl.check_auto(&p, &["sigma2"]).unwrap();
    assert_eq!(decision_auto, decision_lr, "Auto-routing for Gr(2,4) should match LR");
}

#[test]
fn paths_produce_consistent_sigma1_fourth() {
    let mut acl = setup_acl();
    let p = acl.create_principal("test").unwrap();
    for cap in &["sigma1_a", "sigma1_b", "sigma1_c", "sigma1_d"] {
        acl.grant(&p, cap).unwrap();
    }
    let required = &["sigma1_a", "sigma1_b", "sigma1_c", "sigma1_d"];
    let lr = acl.check_with_path(&p, required, ComputationPath::LittlewoodRichardson).unwrap();
    let loc = acl.check_with_path(&p, required, ComputationPath::Localization).unwrap();
    assert_eq!(lr, AccessDecision::Granted { configurations: 2, path: ComputationPath::LittlewoodRichardson });
    assert_eq!(loc, AccessDecision::Granted { configurations: 2, path: ComputationPath::Localization });
    let trop = acl.check_with_path(&p, required, ComputationPath::Tropical).unwrap();
    assert!(matches!(trop, AccessDecision::Granted { .. }), "Tropical path must return Granted for σ₁⁴");
}

#[test]
fn paths_agree_on_impossible() {
    let mut acl = setup_acl();
    let p = acl.create_principal("test").unwrap();
    acl.grant(&p, "sigma2").unwrap();
    acl.grant(&p, "sigma11").unwrap();
    let required = &["sigma2", "sigma11"];
    let lr = acl.check_with_path(&p, required, ComputationPath::LittlewoodRichardson).unwrap();
    let loc = acl.check_with_path(&p, required, ComputationPath::Localization).unwrap();
    let trop = acl.check_with_path(&p, required, ComputationPath::Tropical).unwrap();
    let mat = acl.check_with_path(&p, required, ComputationPath::Matroid).unwrap();
    assert!(matches!(lr, AccessDecision::Impossible { .. }), "LR: must be impossible");
    assert!(matches!(loc, AccessDecision::Impossible { .. }), "Localization: must be impossible");
    assert!(matches!(trop, AccessDecision::Impossible { .. }), "Tropical: must be impossible");
    assert!(matches!(mat, AccessDecision::Impossible { .. }), "Matroid: must be impossible");
}

#[test]
fn check_batch_multiple_principals() {
    let mut acl = setup_batch();
    let p1 = acl.create_principal("alice").unwrap();
    let p2 = acl.create_principal("bob").unwrap();
    acl.grant(&p1, "sigma22").unwrap();
    acl.grant(&p2, "sigma1_a").unwrap();
    acl.grant(&p2, "sigma1_b").unwrap();
    acl.grant(&p2, "sigma1_c").unwrap();
    acl.grant(&p2, "sigma1_d").unwrap();
    let queries: &[(&PrincipalId, &[&str])] =
        &[(&p1, &["sigma22"]), (&p2, &["sigma1_a", "sigma1_b", "sigma1_c", "sigma1_d"])];
    let results = acl.check_batch(queries);
    assert_eq!(results.len(), 2);
    assert_eq!(
        results[0].as_ref().unwrap(),
        &AccessDecision::Granted { configurations: 1, path: ComputationPath::LittlewoodRichardson }
    );
    assert_eq!(
        results[1].as_ref().unwrap(),
        &AccessDecision::Granted { configurations: 2, path: ComputationPath::LittlewoodRichardson }
    );
}

#[test]
fn check_batch_handles_denied_principal() {
    let mut acl = setup_batch();
    let p1 = acl.create_principal("alice").unwrap();
    let p2 = acl.create_principal("bob").unwrap();
    acl.grant(&p1, "sigma22").unwrap();
    let queries: &[(&PrincipalId, &[&str])] = &[(&p1, &["sigma22"]), (&p2, &["sigma2"])];
    let results = acl.check_batch(queries);
    assert_eq!(results.len(), 2);
    assert_eq!(
        results[0].as_ref().unwrap(),
        &AccessDecision::Granted { configurations: 1, path: ComputationPath::LittlewoodRichardson }
    );
    assert_eq!(results[1].as_ref().unwrap(), &AccessDecision::Denied);
}

#[test]
fn compose_batch_multiple_pairs() {
    let mut acl = setup_batch();
    let p1 = acl.create_principal("producer").unwrap();
    let p2 = acl.create_principal("consumer").unwrap();
    acl.grant(&p1, "sigma1_a").unwrap();
    acl.grant(&p1, "sigma2").unwrap();
    acl.grant(&p2, "sigma1_a").unwrap();
    acl.grant(&p2, "sigma1_b").unwrap();
    let pairs: &[(&PrincipalId, &str, &PrincipalId, &str)] = &[(&p1, "sigma1_a", &p2, "sigma1_a")];
    let results = acl.compose_batch(pairs);
    assert_eq!(results.len(), 1);
    let result = results[0].as_ref().unwrap();
    assert!(result.multiplicity > 0);
    assert!(result.retained_capabilities.contains(&"sigma2".to_string()));
    assert!(result.retained_capabilities.contains(&"sigma1_b".to_string()));
}

#[test]
fn check_batch_matches_sequential() {
    let mut acl = setup_batch();
    let p1 = acl.create_principal("alice").unwrap();
    let p2 = acl.create_principal("bob").unwrap();
    acl.grant(&p1, "sigma22").unwrap();
    acl.grant(&p2, "sigma1_a").unwrap();
    acl.grant(&p2, "sigma1_b").unwrap();
    acl.grant(&p2, "sigma1_c").unwrap();
    acl.grant(&p2, "sigma1_d").unwrap();
    let queries: &[(&PrincipalId, &[&str])] =
        &[(&p1, &["sigma22"]), (&p2, &["sigma1_a", "sigma1_b", "sigma1_c", "sigma1_d"])];
    let seq: Vec<_> = queries.iter().map(|(pid, reqs)| acl.check(pid, reqs)).collect();
    let par = acl.check_batch(queries);
    for (s, p) in seq.iter().zip(par.iter()) {
        assert_eq!(s.as_ref().unwrap(), p.as_ref().unwrap(), "parallel check_batch must match sequential check");
    }
}

// ── Further cases ───────────────────────────────────────────────────────

#[test]
fn invalid_grassmannian_is_rejected() {
    match AccessController::new(3, 3) {
        Err(SchubertError::InvalidGrassmannian { k, n, reason }) => {
            assert_eq!((k, n), (3, 3));
            assert_eq!(reason, "require k ≥ 1, n ≥ 2, k < n");
        }
        Ok(_) => panic!("Gr(3,3) accepted"),
        Err(e) => panic!("unexpected {e:?}"),
    }
    assert!(AccessController::new(0, 4).is_err());
    assert!(AccessController::new(1, 1).is_err());
}

#[test]
fn register_duplicate_and_oversized_capabilities() {
    let mut acl = make_controller();
    let dup = acl.register_capability(Capability::new("sigma11", "again", vec![1], CapabilityKind::ReadLike));
    assert_eq!(dup, Err(SchubertError::CapabilityExists("sigma11".to_string())));
    let big = acl.register_capability(Capability::new("big", "big", vec![3], CapabilityKind::ReadLike));
    match big {
        Err(SchubertError::InvalidPartition { partition, k, n, reason }) => {
            assert_eq!(partition, vec![3]);
            assert_eq!((k, n), (2, 4));
            assert_eq!(reason, "Schubert calculus error: Partition entry 3 exceeds n-k = 2");
        }
        other => panic!("unexpected {other:?}"),
    }
}

#[test]
fn grant_errors_name_what_is_missing() {
    let mut acl = make_controller();
    let p = acl.create_principal("alice").unwrap();
    assert_eq!(acl.grant(&p, "nope"), Err(SchubertError::CapabilityNotFound("nope".to_string())));
    let ghost = PrincipalId::new("ghost");
    assert_eq!(acl.grant(&ghost, "sigma11"), Err(SchubertError::PrincipalNotFound("ghost".to_string())));
    assert_eq!(
        acl.revoke(&p, "sigma11"),
        Err(SchubertError::CapabilityNotHeld { principal: "alice".to_string(), capability: "sigma11".to_string() })
    );
}

#[test]
fn check_unknown_principal_and_unheld_capability() {
    let mut acl = make_controller();
    let p = acl.create_principal("alice").unwrap();
    let ghost = PrincipalId::new("ghost");
    assert_eq!(acl.check(&ghost, &["sigma11"]), Err(SchubertError::PrincipalNotFound("ghost".to_string())));
    assert_eq!(acl.check(&p, &["sigma11"]), Ok(AccessDecision::Denied));
}

#[test]
fn underconstrained_dimension_is_remaining_freedom() {
    let mut acl = make_controller();
    let p = acl.create_principal("alice").unwrap();
    acl.grant(&p, "sigma1_0").unwrap();
    assert_eq!(acl.check(&p, &["sigma1_0"]), Ok(AccessDecision::Underconstrained { dimension: 3 }));
    assert_eq!(acl.check(&p, &[]), Ok(AccessDecision::Underconstrained { dimension: 4 }));
    assert_eq!(acl.effective_dimension(&p), Ok(3));
}

#[test]
fn impossible_names_every_required_capability() {
    let mut acl = make_controller();
    let p = acl.create_principal("alice").unwrap();
    acl.grant(&p, "sigma2_0").unwrap();
    acl.grant(&p, "sigma11").unwrap();
    match acl.check(&p, &["sigma2_0", "sigma11"]).unwrap() {
        AccessDecision::Impossible { conflicting } => {
            let ids: Vec<&str> = conflicting.iter().map(|c| c.as_str()).collect();
            assert_eq!(ids, vec!["sigma2_0", "sigma11"]);
        }
        other => panic!("unexpected {other:?}"),
    }
}

#[test]
fn matroid_path_counts_remaining_dimension() {
    let mut acl = make_controller();
    let p = acl.create_principal("alice").unwrap();
    acl.grant(&p, "sigma1_0").unwrap();
    let d = acl.check_with_path(&p, &["sigma1_0"], ComputationPath::Matroid).unwrap();
    assert_eq!(d, AccessDecision::Underconstrained { dimension: 3 });
}

#[test]
fn granting_twice_keeps_both_copies_until_revoked() {
    let mut acl = make_controller();
    let p = acl.create_principal("alice").unwrap();
    acl.grant(&p, "sigma1_0").unwrap();
    acl.grant(&p, "sigma1_0").unwrap();
    assert_eq!(acl.principal(&p).unwrap().capability_count(), 2);
    acl.revoke(&p, "sigma1_0").unwrap();
    let after = acl.principal(&p).unwrap();
    assert!(after.holds("sigma1_0"));
    assert_eq!(after.capability_ids(), vec!["sigma1_0".to_string()]);
    assert!(after.granted_capability_ids.is_empty());
}

#[test]
fn error_messages_render_their_context() {
    assert_eq!(SchubertError::CapabilityNotFound("x".to_string()).message(), "capability 'x' not found");
    assert_eq!(
        SchubertError::InvalidGrassmannian { k: 3, n: 3, reason: "require k ≥ 1, n ≥ 2, k < n".to_string() }.message(),
        "invalid Grassmannian Gr(3,3): require k ≥ 1, n ≥ 2, k < n"
    );
    assert_eq!(
        SchubertError::InvalidPartition { partition: vec![3, 1], k: 2, n: 4, reason: "r".to_string() }.message(),
        "invalid partition [3, 1] for Gr(2,4): r"
    );
}

#[test]
fn in_memory_audit_keeps_records_in_order() {
    let log = InMemoryAudit::new();
    assert!(log.is_empty());
    assert_eq!(log.len(), 0);
    let first = DecisionRecord {
        principal: PrincipalId::new("alice"),
        capabilities: vec![],
        decision: AccessDecision::Denied,
        timestamp: 1,
    };
    let second = DecisionRecord {
        principal: PrincipalId::new("bob"),
        capabilities: vec![],
        decision: AccessDecision::Underconstrained { dimension: 3 },
        timestamp: 2,
    };
    assert!(log.record(&first).is_ok());
    assert!(log.record(&second).is_ok());
    assert_eq!(log.len(), 2);
    assert!(!log.is_empty());
    let all = log.records();
    assert_eq!(all[0].principal.as_str(), "alice");
    assert_eq!(all[1].timestamp, 2);
}

#[test]
fn audit_sink_does_not_change_decisions() {
    let mut acl = AccessController::new(2, 4).unwrap();
    acl.register_capability(Capability::new("read", "Read", vec![1], CapabilityKind::ReadLike)).unwrap();
    let p = acl.create_principal("alice").unwrap();
    acl.grant(&p, "read").unwrap();
    let before = acl.check(&p, &["read"]).unwrap();
    acl.set_audit_sink(Box::new(InMemoryAudit::new()));
    assert_eq!(acl.check(&p, &["read"]).unwrap(), before);
}

#[test]
fn batch_answers_as_single_checks() {
    let mut acl = AccessController::new(2, 4).unwrap();
    acl.register_capability(Capability::new("read", "Read", vec![1], CapabilityKind::ReadLike)).unwrap();
    acl.register_capability(Capability::new("admin", "Admin", vec![2, 2], CapabilityKind::AdminLike)).unwrap();
    let a = acl.create_principal("a").unwrap();
    acl.grant(&a, "read").unwrap();
    acl.grant(&a, "admin").unwrap();
    let ghost_id = PrincipalId::new("nobody");
    let read: &[&str] = &["read"];
    let admin: &[&str] = &["admin"];
    let none: &[&str] = &["read", "admin"];
    let queries: Vec<(&PrincipalId, &[&str])> = vec![(&a, read), (&a, admin), (&a, none), (&ghost_id, read)];
    let batch = acl.check_batch(&queries);
    for (i, (p, req)) in queries.iter().enumerate() {
        match acl.check(p, req) {
            Ok(d) => assert_eq!(batch[i], Ok(d)),
            Err(_) => assert_eq!(batch[i], Ok(AccessDecision::Denied)),
        }
    }
}
