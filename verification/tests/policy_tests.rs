use schubert::policy::{CapabilityConfig, CapabilityKindConfig, GrassmannianConfig, PolicyConfig, PrincipalConfig};
use schubert::{AccessController, CapabilityKind, PrincipalId, SchubertError};

fn cap(partition: Vec<usize>, kind: CapabilityKindConfig, label: &str) -> CapabilityConfig {
    CapabilityConfig { partition, kind, label: label.to_string(), description: String::new() }
}

fn principal(grants: &[&str]) -> PrincipalConfig {
    PrincipalConfig { grants: grants.iter().map(|g| g.to_string()).collect() }
}

fn basic_policy() -> PolicyConfig {
    PolicyConfig {
        grassmannian: GrassmannianConfig { k: 2, n: 4 },
        capabilities: vec![
            ("read".to_string(), cap(vec![1], CapabilityKindConfig::ReadLike, "Read data")),
            ("write".to_string(), cap(vec![2], CapabilityKindConfig::WriteLike, "Write data")),
        ],
        principals: vec![
            ("alice".to_string(), principal(&["read", "write"])),
            ("bob".to_string(), principal(&["read"])),
        ],
    }
}

fn bare(k: usize, n: usize) -> PolicyConfig {
    PolicyConfig { grassmannian: GrassmannianConfig { k, n }, capabilities: vec![], principals: vec![] }
}

#[test]
fn validate_basic_policy() {
    let config = basic_policy();
    config.validate().unwrap();
}

#[test]
fn apply_basic_policy() {
    let config = basic_policy();
    let mut acl = AccessController::new(2, 4).unwrap();
    config.apply(&mut acl).unwrap();
    let alice = PrincipalId::new("alice");
    let bob = PrincipalId::new("bob");
    let alice_principal = acl.principal(&alice).unwrap();
    let bob_principal = acl.principal(&bob).unwrap();
    assert!(alice_principal.holds("read"));
    assert!(alice_principal.holds("write"));
    assert!(bob_principal.holds("read"));
    assert!(!bob_principal.holds("write"));
}

#[test]
fn validate_rejects_invalid_grassmannian() {
    let config = bare(3, 3);
    assert!(config.validate().is_err());
}

#[test]
fn validate_rejects_partition_too_large() {
    let mut config = bare(2, 4);
    config.capabilities.push(("bad".to_string(), cap(vec![5], CapabilityKindConfig::ReadLike, "Too large")));
    let err = config.validate().unwrap_err();
    assert!(err.message().contains("codimension"));
}

#[test]
fn validate_rejects_non_weakly_decreasing() {
    let mut config = bare(2, 4);
    config.capabilities.push(("bad".to_string(), cap(vec![1, 2], CapabilityKindConfig::ReadLike, "Not decreasing")));
    let err = config.validate().unwrap_err();
    assert!(err.message().contains("not weakly decreasing"));
}

#[test]
fn validate_rejects_missing_capability_reference() {
    let mut config = bare(2, 4);
    config.principals.push(("alice".to_string(), principal(&["nonexistent"])));
    let err = config.validate().unwrap_err();
    assert!(err.message().contains("not defined"));
}

#[test]
fn empty_capabilities_and_principals() {
    let config = bare(2, 4);
    config.validate().unwrap();
    assert!(config.capabilities.is_empty());
    assert!(config.principals.is_empty());
}

// ── Further cases ───────────────────────────────────────────────────────

#[test]
fn validation_messages_are_exact() {
    let mut config = bare(2, 4);
    config.capabilities.push(("bad".to_string(), cap(vec![5], CapabilityKindConfig::ReadLike, "x")));
    match config.validate() {
        Err(SchubertError::InvalidPartition { partition, k, n, reason }) => {
            assert_eq!(partition, vec![5]);
            assert_eq!((k, n), (2, 4));
            assert_eq!(reason, "capability 'bad': codimension 5 exceeds Grassmannian dimension 4");
        }
        other => panic!("unexpected {other:?}"),
    }
    let mut config = bare(2, 4);
    config.capabilities.push(("up".to_string(), cap(vec![1, 2], CapabilityKindConfig::ReadLike, "x")));
    match config.validate() {
        Err(SchubertError::InvalidPartition { reason, .. }) => {
            assert_eq!(reason, "capability 'up': partition not weakly decreasing ([1, 2])");
        }
        other => panic!("unexpected {other:?}"),
    }
    let mut config = bare(2, 5);
    config.capabilities.push(("long".to_string(), cap(vec![1, 1, 1], CapabilityKindConfig::ReadLike, "x")));
    match config.validate() {
        Err(SchubertError::InvalidPartition { reason, .. }) => {
            assert_eq!(reason, "capability 'long': partition has 3 parts, exceeds k=2");
        }
        other => panic!("unexpected {other:?}"),
    }
    let mut config = bare(3, 5);
    config.capabilities.push(("wide".to_string(), cap(vec![3], CapabilityKindConfig::ReadLike, "x")));
    match config.validate() {
        Err(SchubertError::InvalidPartition { reason, .. }) => {
            assert_eq!(reason, "capability 'wide': first part 3 exceeds n-k=2");
        }
        other => panic!("unexpected {other:?}"),
    }
    let mut config = bare(2, 4);
    config.principals.push(("alice".to_string(), principal(&["ghost"])));
    assert_eq!(
        config.validate(),
        Err(SchubertError::CapabilityNotFound(
            "principal 'alice' grants 'ghost', but capability 'ghost' is not defined".to_string()
        ))
    );
    assert!(matches!(bare(0, 4).validate(), Err(SchubertError::InvalidGrassmannian { k: 0, n: 4, .. })));
}

#[test]
fn apply_registers_capability_metadata() {
    let mut config = basic_policy();
    config.capabilities[0].1.description = "Allows reading".to_string();
    let mut acl = AccessController::new(2, 4).unwrap();
    config.apply(&mut acl).unwrap();
    let read = acl.capability("read").unwrap();
    assert_eq!(read.label, "Read data");
    assert_eq!(read.description, "Allows reading");
    assert_eq!(read.partition, vec![1]);
    assert_eq!(read.kind, CapabilityKind::ReadLike);
    assert_eq!(acl.capability("write").unwrap().kind, CapabilityKind::WriteLike);
}

#[test]
fn apply_stops_at_existing_principal() {
    let config = basic_policy();
    let mut acl = AccessController::new(2, 4).unwrap();
    acl.create_principal("bob").unwrap();
    assert_eq!(config.apply(&mut acl), Err(SchubertError::PrincipalExists("bob".to_string())));
    assert!(acl.principal(&PrincipalId::new("alice")).unwrap().holds("write"));
}

#[test]
fn apply_of_invalid_policy_changes_nothing() {
    let mut config = basic_policy();
    config.principals.push(("carol".to_string(), principal(&["admin"])));
    let mut acl = AccessController::new(2, 4).unwrap();
    assert!(config.apply(&mut acl).is_err());
    assert!(acl.capability("read").is_none());
    assert!(acl.principal(&PrincipalId::new("alice")).is_none());
}

#[test]
fn capability_kind_converts_both_ways() {
    assert_eq!(CapabilityKind::from(CapabilityKindConfig::AdminLike), CapabilityKind::AdminLike);
    assert_eq!(CapabilityKindConfig::from(CapabilityKind::Custom), CapabilityKindConfig::Custom);
}
