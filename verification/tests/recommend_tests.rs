use schubert::recommend::{answer_is_yes, trust_model_of};
use schubert::recommend::{default_max_principals, default_num_roles, default_trust_model, recommend, AccessConstraints};

fn base() -> AccessConstraints {
    AccessConstraints {
        num_roles: 0,
        num_domains: 0,
        audit_required: false,
        crypto_required: false,
        trust_model: "discrete".into(),
        parallel_required: false,
        verification_required: false,
        holographic_required: false,
        policy_required: false,
        wasm_required: false,
        max_principals: 100,
        cross_domain: false,
    }
}

#[test]
fn recommend_standard_rbac() {
    let c = AccessConstraints { num_roles: 3, ..base() };
    let r = recommend(&c);
    assert_eq!(r.grassmannian, (2, 4));
    assert!(r.features.contains(&"std"));
}

#[test]
fn recommend_enterprise() {
    let c = AccessConstraints { num_roles: 6, num_domains: 3, cross_domain: true, ..base() };
    let r = recommend(&c);
    assert_eq!(r.grassmannian, (4, 8));
    assert_eq!(r.policy_dimension, 16);
}

#[test]
fn recommend_with_crypto() {
    let c = AccessConstraints { num_roles: 3, crypto_required: true, ..base() };
    let r = recommend(&c);
    assert!(r.features.contains(&"crypto"));
}

#[test]
fn recommend_with_surreal() {
    let c = AccessConstraints { num_roles: 4, trust_model: "surreal".into(), ..base() };
    let r = recommend(&c);
    assert!(r.features.contains(&"surreal"));
}

#[test]
fn recommend_all_features() {
    let c = AccessConstraints {
        num_roles: 8,
        num_domains: 4,
        audit_required: true,
        crypto_required: true,
        trust_model: "surreal".into(),
        parallel_required: true,
        verification_required: true,
        holographic_required: true,
        policy_required: true,
        wasm_required: true,
        max_principals: 5000,
        cross_domain: true,
    };
    let r = recommend(&c);
    assert!(r.features.contains(&"crypto"));
    assert!(r.features.contains(&"surreal"));
    assert!(r.features.contains(&"parallel"));
    assert!(r.features.contains(&"policy"));
    assert!(r.features.contains(&"karpal-verify"));
    assert!(r.features.contains(&"holographic"));
    assert!(r.features.contains(&"wasm"));
}

// ── Further cases ───────────────────────────────────────────────────────

#[test]
fn recommend_multi_tenant_texts() {
    let c = AccessConstraints { num_roles: 4, num_domains: 2, crypto_required: true, ..base() };
    let r = recommend(&c);
    assert_eq!(r.grassmannian, (3, 6));
    assert_eq!(r.policy_dimension, 9);
    assert_eq!(r.computation_path, "LR (default — balanced performance)");
    assert_eq!(r.features, vec!["std", "crypto"]);
    assert_eq!(r.cargo_toml, "schubert = { version = \"0.1\", features = [\"std\", \"crypto\"] }");
    assert_eq!(
        r.rationale,
        "Selected Gr(3,6) with dimension 9 for 4 roles across 2 domains. Computation path: LR (default — balanced performance). Features: [std, crypto]. Cryptographic tokens enabled for proof-carrying capabilities."
    );
    assert!(r.example_code.starts_with(
        "use schubert::AccessController;\n\nfn main() -> Result<(), Box<dyn std::error::Error>> {\n    let mut acl = AccessController::new(3, 6)?;\n"
    ));
    assert!(r.example_code.contains("    let issuer = CapabilityIssuer::generate();\n"));
    assert!(!r.example_code.contains("from_policy_toml"));
    assert!(r.example_code.ends_with("    Ok(())\n}\n"));
}

#[test]
fn recommend_paths_by_priority() {
    assert_eq!(
        recommend(&AccessConstraints { verification_required: true, max_principals: 5000, ..base() }).computation_path,
        "LR (best for verified environments)"
    );
    assert_eq!(
        recommend(&AccessConstraints { max_principals: 1001, parallel_required: true, ..base() }).computation_path,
        "Tropical (best for large-scale batch operations)"
    );
    assert_eq!(
        recommend(&AccessConstraints { parallel_required: true, ..base() }).computation_path,
        "Matroid (best for parallel evaluation)"
    );
}

#[test]
fn recommend_thresholds() {
    assert_eq!(recommend(&AccessConstraints { num_roles: 5, ..base() }).grassmannian, (2, 4));
    assert_eq!(recommend(&AccessConstraints { num_roles: 6, ..base() }).grassmannian, (3, 6));
    assert_eq!(recommend(&AccessConstraints { num_roles: 8, ..base() }).grassmannian, (3, 6));
    assert_eq!(recommend(&AccessConstraints { num_roles: 9, ..base() }).grassmannian, (4, 8));
    assert_eq!(recommend(&AccessConstraints { num_domains: 3, ..base() }).grassmannian, (4, 8));
}

#[test]
fn recommend_policy_example_loads_toml() {
    let r = recommend(&AccessConstraints { policy_required: true, ..base() });
    assert!(r.example_code.contains("from_policy_toml"));
    assert_eq!(r.rationale, "Selected Gr(2,4) with dimension 4 for 0 roles. Computation path: LR (default — balanced performance). Features: [std, policy].");
}

#[test]
fn recommend_defaults() {
    assert_eq!(default_num_roles(), 3);
    assert_eq!(default_trust_model(), "discrete");
    assert_eq!(default_max_principals(), 100);
}

#[test]
fn answers_are_read_as_in_the_prompt() {
    assert!(answer_is_yes("y"));
    assert!(answer_is_yes("Yes"));
    assert!(!answer_is_yes("no"));
    assert!(!answer_is_yes(""));
    assert!(!answer_is_yes(" y"));
    assert_eq!(trust_model_of("surreal please"), "surreal");
    assert_eq!(trust_model_of("continuous"), "continuous");
    assert_eq!(trust_model_of("cont"), "continuous");
    assert_eq!(trust_model_of("whatever"), "discrete");
}

#[test]
fn recommendation_grows_with_the_constraints() {
    let mut c = AccessConstraints {
        num_roles: 2,
        num_domains: 0,
        audit_required: false,
        crypto_required: false,
        trust_model: default_trust_model(),
        parallel_required: false,
        verification_required: false,
        holographic_required: false,
        policy_required: false,
        wasm_required: false,
        max_principals: default_max_principals(),
        cross_domain: false,
    };
    let mut last = 0;
    for (roles, domains, cross) in [(2, 0, false), (6, 0, false), (6, 2, false), (9, 2, false), (9, 2, true)] {
        c.num_roles = roles;
        c.num_domains = domains;
        c.cross_domain = cross;
        let r = recommend(&c);
        assert!([(2, 4), (3, 6), (4, 8)].contains(&r.grassmannian));
        assert!(r.policy_dimension >= last);
        last = r.policy_dimension;
    }
    assert_eq!(last, 16);
}
