use schubert::stability::{merge_namespaces, retained_namespace};
use schubert::{AccessController, Capability, CapabilityKind};

fn ids(ns: &amari_enumerative::Namespace) -> Vec<String> {
    ns.capabilities.iter().map(|c| c.id.as_str().to_string()).collect()
}

fn setup() -> AccessController {
    let mut acl = AccessController::new(2, 4).unwrap();
    acl.register_capability(Capability::new("read", "Read", vec![1], CapabilityKind::ReadLike)).unwrap();
    acl.register_capability(Capability::new("write", "Write", vec![2], CapabilityKind::WriteLike)).unwrap();
    acl.register_capability(Capability::new("audit", "Audit", vec![1, 1], CapabilityKind::ReadLike)).unwrap();
    acl
}

#[test]
fn retained_namespace_drops_the_first_copy_only() {
    let mut acl = setup();
    let p = acl.create_principal("p").unwrap();
    acl.grant(&p, "read").unwrap();
    acl.grant(&p, "write").unwrap();
    acl.grant(&p, "read").unwrap();
    let ns = acl.principal(&p).unwrap().namespace();
    let kept = retained_namespace(ns, "read");
    assert_eq!(ids(&kept), vec!["write".to_string(), "read".to_string()]);
    let same = retained_namespace(ns, "audit");
    assert_eq!(ids(&same), ids(ns));
}

#[test]
fn merge_namespaces_adds_missing_capabilities_in_order() {
    let mut acl = setup();
    let a = acl.create_principal("a").unwrap();
    let b = acl.create_principal("b").unwrap();
    acl.grant(&a, "read").unwrap();
    acl.grant(&b, "write").unwrap();
    acl.grant(&b, "read").unwrap();
    acl.grant(&b, "audit").unwrap();
    let merged = merge_namespaces(
        acl.principal(&a).unwrap().namespace(),
        acl.principal(&b).unwrap().namespace(),
    )
    .unwrap();
    assert_eq!(ids(&merged), vec!["read".to_string(), "write".to_string(), "audit".to_string()]);
}
