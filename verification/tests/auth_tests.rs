use base64::Engine;
use schubert::auth::{authenticate, authenticate_decoded, AuthError};
use schubert::crypto::{CapabilityIssuer, GrantCapability, GrantToken, GrantVerifier};
use schubert::CapabilityId;

fn cap(id: &str, partition: Vec<usize>) -> (CapabilityId, Vec<usize>) {
    (CapabilityId::new(id), partition)
}

fn bearer(grant: &GrantToken) -> String {
    base64::engine::general_purpose::STANDARD.encode(GrantToken::to_bytes(grant))
}

#[test]
fn error_unauthorized_maps_to_401_with_generic_body() {
    let err = AuthError::Unauthorized("internal detail");
    assert_eq!(err.status_code(), 401);
    assert_eq!(err.body(), "Unauthorized");
}

#[test]
fn error_misconfigured_maps_to_500() {
    let err = AuthError::ServerMisconfigured("verifier missing");
    assert_eq!(err.status_code(), 500);
}

#[test]
fn extractor_valid_token_yields_principal() {
    let issuer = CapabilityIssuer::generate();
    let grant = issuer.issue_grant("alice", &[cap("memory:read", vec![1])]).unwrap();
    let verifier = GrantVerifier::new(issuer.public_key());
    let header = format!("Bearer {}", bearer(&grant));
    let auth = authenticate(Some(&verifier), Some(&header)).expect("valid token must extract");
    assert_eq!(auth.0.principal.as_str(), "alice");
}

#[test]
fn extractor_missing_header_is_401() {
    let issuer = CapabilityIssuer::generate();
    let verifier = GrantVerifier::new(issuer.public_key());
    let err = authenticate(Some(&verifier), None).expect_err("missing header must reject");
    assert!(matches!(err, AuthError::Unauthorized(_)));
}

#[test]
fn extractor_malformed_base64_is_401() {
    let issuer = CapabilityIssuer::generate();
    let verifier = GrantVerifier::new(issuer.public_key());
    let err = authenticate(Some(&verifier), Some("Bearer !!!not-base64!!!")).expect_err("bad base64 must reject");
    assert!(matches!(err, AuthError::Unauthorized(_)));
}

#[test]
fn extractor_bad_signature_is_401() {
    let other = CapabilityIssuer::generate();
    let forged = other.issue_grant("mallory", &[cap("memory:read", vec![1])]).unwrap();
    let issuer = CapabilityIssuer::generate();
    let verifier = GrantVerifier::new(issuer.public_key());
    let header = format!("Bearer {}", bearer(&forged));
    let err = authenticate(Some(&verifier), Some(&header)).expect_err("wrong-key token must reject");
    assert!(matches!(err, AuthError::Unauthorized(_)));
}

#[test]
fn extractor_tampered_capabilities_is_401() {
    let issuer = CapabilityIssuer::generate();
    let verifier = GrantVerifier::new(issuer.public_key());
    let mut grant = issuer.issue_grant("alice", &[cap("memory:read", vec![1])]).unwrap();
    grant.capabilities.push(GrantCapability { id: CapabilityId::new("memory:write"), partition: vec![2] });
    let header = format!("Bearer {}", bearer(&grant));
    let err = authenticate(Some(&verifier), Some(&header)).expect_err("tampered token must reject");
    assert!(matches!(err, AuthError::Unauthorized(_)));
}

#[test]
fn extractor_missing_verifier_is_500() {
    let err = authenticate(None, Some("Bearer dW5kZWZpbmVk")).expect_err("missing verifier layer must reject");
    assert!(matches!(err, AuthError::ServerMisconfigured(_)), "missing verifier must be 500, not 401");
}

// ── Further cases ───────────────────────────────────────────────────────

fn detail(r: Result<schubert::auth::AuthPrincipal, AuthError>) -> &'static str {
    match r {
        Err(AuthError::Unauthorized(m)) => m,
        Err(AuthError::ServerMisconfigured(m)) => m,
        Ok(_) => "ok",
    }
}

#[test]
fn each_rejection_names_its_stage() {
    let issuer = CapabilityIssuer::from_seed([8u8; 32]);
    let verifier = GrantVerifier::new(issuer.public_key());
    let grant = issuer.issue_grant("alice", &[cap("read", vec![1])]).unwrap();
    assert_eq!(detail(authenticate(Some(&verifier), None)), "missing Authorization header");
    assert_eq!(detail(authenticate(Some(&verifier), Some("Basic abc"))), "expected 'Bearer <token>' scheme");
    assert_eq!(detail(authenticate(Some(&verifier), Some("bearer abc"))), "expected 'Bearer <token>' scheme");
    assert_eq!(detail(authenticate(Some(&verifier), Some("Bearer ***"))), "invalid base64 token");
    assert_eq!(detail(authenticate(Some(&verifier), Some("Bearer AAAA"))), "malformed capability token");
    let other = CapabilityIssuer::from_seed([9u8; 32]);
    let foreign = other.issue_grant("alice", &[cap("read", vec![1])]).unwrap();
    assert_eq!(
        detail(authenticate(Some(&verifier), Some(&format!("Bearer {}", bearer(&foreign))))),
        "invalid capability token signature"
    );
    assert_eq!(detail(authenticate(Some(&verifier), Some(&format!("Bearer {}", bearer(&grant))))), "ok");
    assert_eq!(
        detail(authenticate(None, None)),
        "auth state not installed — add Extension<Arc<GrantVerifier>> to the router"
    );
    assert_eq!(AuthError::ServerMisconfigured("x").body(), "internal auth misconfiguration");
}

#[test]
fn token_whitespace_is_trimmed() {
    let issuer = CapabilityIssuer::from_seed([8u8; 32]);
    let verifier = GrantVerifier::new(issuer.public_key());
    let grant = issuer.issue_grant("alice", &[cap("read", vec![1])]).unwrap();
    let header = format!("Bearer \t {} \n", bearer(&grant));
    let auth = authenticate(Some(&verifier), Some(&header)).unwrap();
    assert_eq!(auth.0, grant);
}

#[test]
fn decoded_bytes_are_checked_like_a_header() {
    let issuer = CapabilityIssuer::from_seed([8u8; 32]);
    let verifier = GrantVerifier::new(issuer.public_key());
    let grant = issuer.issue_grant("bob", &[cap("read", vec![1])]).unwrap();
    assert_eq!(detail(authenticate_decoded(&verifier, None)), "invalid base64 token");
    assert_eq!(detail(authenticate_decoded(&verifier, Some(vec![1, 2]))), "malformed capability token");
    let ok = authenticate_decoded(&verifier, Some(GrantToken::to_bytes(&grant))).unwrap();
    assert_eq!(ok.0.principal.as_str(), "bob");
}

#[test]
fn client_failures_get_one_response_whatever_the_detail() {
    for d in ["internal detail", "bad base64", ""] {
        let e = AuthError::Unauthorized(d);
        assert_eq!((e.status_code(), e.body()), (401, "Unauthorized"));
    }
    let e = AuthError::ServerMisconfigured("no verifier installed");
    assert_eq!((e.status_code(), e.body()), (500, "internal auth misconfiguration"));
}
