use schubert::{AccessDecision, Capability, CapabilityKind, MultiController, SchubertError};

fn setup() -> MultiController {
    let mut mc = MultiController::new();
    mc.add_domain(2, 4).unwrap();
    mc.add_domain(3, 6).unwrap();
    mc.register_in_domain(Capability::new("read", "Read", vec![1], CapabilityKind::ReadLike), "gr4_2").unwrap();
    mc.register_in_domain(Capability::new("write", "Write", vec![2], CapabilityKind::WriteLike), "gr4_2").unwrap();
    mc.register_in_domain(Capability::new("read", "Read", vec![1], CapabilityKind::ReadLike), "gr6_3").unwrap();
    mc
}

#[test]
fn add_domains() {
    let mc = setup();
    let labels = mc.domain_labels();
    assert!(labels.contains(&"gr4_2"));
    assert!(labels.contains(&"gr6_3"));
    assert_eq!(mc.domain("gr4_2").unwrap().grassmannian(), (2, 4));
    assert_eq!(mc.domain("gr6_3").unwrap().grassmannian(), (3, 6));
}

#[test]
fn domain_check_same_domain() {
    let mut mc = setup();
    let alice = mc.create_principal("alice", "gr4_2").unwrap();
    mc.grant_in_domain(&alice, "read", "gr4_2").unwrap();
    let decision = mc.check_in_domain(&alice, &["read"], "gr4_2").unwrap();
    assert!(matches!(decision, AccessDecision::Underconstrained { .. }));
}

#[test]
fn cross_domain_translatable() {
    let mut mc = setup();
    let alice = mc.create_principal("alice", "gr4_2").unwrap();
    mc.grant_in_domain(&alice, "read", "gr4_2").unwrap();
    let translatable = mc.translatable_capabilities("gr4_2", "gr6_3").unwrap();
    assert!(translatable.contains(&"read".to_string()));
}

#[test]
fn cross_domain_check_translatable() {
    let mut mc = setup();
    let alice = mc.create_principal("alice", "gr4_2").unwrap();
    mc.grant_in_domain(&alice, "read", "gr4_2").unwrap();
    let decision = mc.check_cross_domain(&alice, &["read"], "gr4_2", "gr6_3").unwrap();
    assert!(matches!(decision, AccessDecision::Underconstrained { .. }));
}

#[test]
fn cross_domain_denied_if_not_held() {
    let mut mc = setup();
    let alice = mc.create_principal("alice", "gr4_2").unwrap();
    let decision = mc.check_cross_domain(&alice, &["write"], "gr4_2", "gr6_3").unwrap();
    assert_eq!(decision, AccessDecision::Denied);
}

#[test]
fn domains_for_partition() {
    let mc = setup();
    let domains = mc.domains_for_partition(&[1]);
    assert!(domains.contains(&"gr4_2".to_string()));
    assert!(domains.contains(&"gr6_3".to_string()));
    let domains = mc.domains_for_partition(&[4]);
    assert!(!domains.contains(&"gr4_2".to_string()));
}

#[test]
fn duplicate_domain_label_rejected() {
    let mut mc = MultiController::new();
    mc.add_domain(2, 4).unwrap();
    assert!(mc.add_domain_named(2, 4, "gr4_2").is_err());
}

// ── Further cases ───────────────────────────────────────────────────────

#[test]
fn duplicate_label_message_names_it() {
    let mut mc = MultiController::new();
    assert_eq!(mc.add_domain(2, 4), Ok("gr4_2".to_string()));
    assert_eq!(
        mc.add_domain_named(3, 6, "gr4_2"),
        Err(SchubertError::Generic("domain 'gr4_2' already exists".to_string()))
    );
    assert!(matches!(mc.add_domain(4, 4), Err(SchubertError::InvalidGrassmannian { .. })));
}

#[test]
fn unknown_domains_are_named() {
    let mut mc = setup();
    let alice = mc.create_principal("alice", "gr4_2").unwrap();
    assert_eq!(
        mc.create_principal("bob", "nowhere"),
        Err(SchubertError::Generic("domain 'nowhere' not found".to_string()))
    );
    assert_eq!(
        mc.check_cross_domain(&alice, &["read"], "nowhere", "gr6_3"),
        Err(SchubertError::Generic("source domain 'nowhere' not found".to_string()))
    );
    assert_eq!(
        mc.check_cross_domain(&alice, &["read"], "gr4_2", "nowhere"),
        Err(SchubertError::Generic("target domain 'nowhere' not found".to_string()))
    );
    assert_eq!(
        mc.translatable_capabilities("gr4_2", "nowhere"),
        Err(SchubertError::Generic("target domain 'nowhere' not found".to_string()))
    );
}

#[test]
fn label_for_names_the_grassmannian_domain() {
    let mut mc = setup();
    assert_eq!(mc.label_for(2, 4), Some("gr4_2"));
    assert_eq!(mc.label_for(4, 8), None);
    mc.add_domain_named(2, 4, "second").unwrap();
    assert_eq!(mc.label_for(2, 4), Some("second"));
    assert_eq!(mc.domain("second").unwrap().grassmannian(), (2, 4));
}

#[test]
fn cross_domain_denies_untranslatable_partition() {
    let mut mc = MultiController::new();
    mc.add_domain(3, 6).unwrap();
    mc.add_domain(2, 4).unwrap();
    mc.register_in_domain(Capability::new("big", "Big", vec![3], CapabilityKind::AdminLike), "gr6_3").unwrap();
    let alice = mc.create_principal("alice", "gr6_3").unwrap();
    mc.grant_in_domain(&alice, "big", "gr6_3").unwrap();
    assert_eq!(mc.check_cross_domain(&alice, &["big"], "gr6_3", "gr4_2"), Ok(AccessDecision::Denied));
    assert!(mc.translatable_capabilities("gr6_3", "gr4_2").unwrap().is_empty());
    let ghost = schubert::PrincipalId::new("ghost");
    assert_eq!(
        mc.check_cross_domain(&ghost, &["big"], "gr6_3", "gr4_2"),
        Err(SchubertError::PrincipalNotFound("ghost".to_string()))
    );
}

#[test]
fn cross_domain_counts_in_target_grassmannian() {
    let mut mc = MultiController::new();
    mc.add_domain(3, 6).unwrap();
    mc.add_domain(2, 4).unwrap();
    mc.register_in_domain(Capability::new("point", "Point", vec![2, 2], CapabilityKind::AdminLike), "gr6_3").unwrap();
    let alice = mc.create_principal("alice", "gr6_3").unwrap();
    mc.grant_in_domain(&alice, "point", "gr6_3").unwrap();
    assert_eq!(
        mc.check_cross_domain(&alice, &["point"], "gr6_3", "gr4_2"),
        Ok(AccessDecision::Granted { configurations: 1, path: schubert::ComputationPath::LittlewoodRichardson })
    );
}

#[test]
fn domain_mut_changes_that_domain() {
    let mut mc = setup();
    {
        let acl = mc.domain_mut("gr6_3").unwrap();
        acl.register_capability(Capability::new("write", "Write", vec![2], CapabilityKind::WriteLike)).unwrap();
    }
    assert!(mc.domain("gr6_3").unwrap().capability("write").is_some());
    assert!(mc.domain_mut("nowhere").is_none());
}

#[test]
fn cross_domain_accepts_the_empty_partition() {
    let mut mc = setup();
    mc.register_in_domain(Capability::new("any", "Any", vec![], CapabilityKind::ReadLike), "gr4_2").unwrap();
    let alice = mc.create_principal("alice", "gr4_2").unwrap();
    mc.grant_in_domain(&alice, "any", "gr4_2").unwrap();
    let d = mc.check_cross_domain(&alice, &["any"], "gr4_2", "gr6_3").unwrap();
    assert_eq!(d, AccessDecision::Underconstrained { dimension: 9 });
    assert!(mc.domains_for_partition(&[]).len() == 2);
}
