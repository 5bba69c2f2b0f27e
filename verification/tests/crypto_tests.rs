use schubert::crypto::{
    partitions_le, CapabilityIssuer, CapabilityToken, CapabilityVerifier, GrantCapability, GrantToken, GrantVerifier, KeyStore,
};
use schubert::{CapabilityId, PrincipalId, SchubertError};

fn grant_cap(id: &str, partition: Vec<usize>) -> (CapabilityId, Vec<usize>) {
    (CapabilityId::new(id), partition)
}

#[test]
fn issue_and_verify() {
    let issuer = CapabilityIssuer::generate();
    let token = issuer.issue("alice", "read:data").unwrap();
    let verifier = CapabilityVerifier::new(issuer.public_key());
    verifier.verify(&token).unwrap();
}

#[test]
fn verify_wrong_key_fails() {
    let issuer1 = CapabilityIssuer::generate();
    let issuer2 = CapabilityIssuer::generate();
    let token = issuer1.issue("alice", "read:data").unwrap();
    let wrong_verifier = CapabilityVerifier::new(issuer2.public_key());
    assert!(wrong_verifier.verify(&token).is_err());
}

#[test]
fn tampered_token_fails() {
    let issuer = CapabilityIssuer::generate();
    let mut token = issuer.issue("alice", "read:data").unwrap();
    token.capability = CapabilityId::new("write:data");
    let verifier = CapabilityVerifier::new(issuer.public_key());
    assert!(verifier.verify(&token).is_err());
}

#[test]
fn tampered_principal_fails() {
    let issuer = CapabilityIssuer::generate();
    let mut token = issuer.issue("alice", "read:data").unwrap();
    token.principal = PrincipalId::new("bob");
    let verifier = CapabilityVerifier::new(issuer.public_key());
    assert!(verifier.verify(&token).is_err());
}

#[test]
fn verify_and_extract() {
    let issuer = CapabilityIssuer::generate();
    let token = issuer.issue("alice", "read:data").unwrap();
    let verifier = CapabilityVerifier::new(issuer.public_key());
    let (pid, cid) = verifier.verify_and_extract(&token).unwrap();
    assert_eq!(pid.as_str(), "alice");
    assert_eq!(cid.as_str(), "read:data");
}

#[test]
fn issue_batch() {
    let issuer = CapabilityIssuer::generate();
    let tokens = issuer.issue_batch(&[("alice", "read:data"), ("bob", "write:data")]).unwrap();
    assert_eq!(tokens.len(), 2);
    let verifier = CapabilityVerifier::new(issuer.public_key());
    for token in &tokens {
        verifier.verify(token).unwrap();
    }
}

#[test]
fn token_to_bytes_roundtrips() {
    let issuer = CapabilityIssuer::generate();
    let token = issuer.issue("alice", "read:data").unwrap();
    let bytes = CapabilityToken::to_bytes(&token);
    let decoded = CapabilityToken::from_bytes(&bytes).unwrap();
    assert_eq!(decoded.principal.as_str(), "alice");
    assert_eq!(decoded.capability.as_str(), "read:data");
    assert_eq!(decoded.issuer_key, token.issuer_key);
    assert_eq!(decoded.signature, token.signature);
}

#[test]
fn token_from_bytes_rejects_empty() {
    assert!(CapabilityToken::from_bytes(&[]).is_err());
}

#[test]
fn token_from_bytes_rejects_truncated() {
    let issuer = CapabilityIssuer::generate();
    let token = issuer.issue("alice", "read:data").unwrap();
    let bytes = CapabilityToken::to_bytes(&token);
    assert!(CapabilityToken::from_bytes(&bytes[..bytes.len() - 1]).is_err());
}

#[test]
fn issuer_from_seed_is_deterministic() {
    let seed = [42u8; 32];
    let issuer1 = CapabilityIssuer::from_seed(seed);
    let issuer2 = CapabilityIssuer::from_seed(seed);
    assert_eq!(issuer1.public_key(), issuer2.public_key());
}

#[test]
fn issuer_from_seed_produces_usable_keys() {
    let seed = [7u8; 32];
    let issuer = CapabilityIssuer::from_seed(seed);
    let token = issuer.issue("alice", "read:data").unwrap();
    let verifier = CapabilityVerifier::new(issuer.public_key());
    verifier.verify(&token).unwrap();
}

#[test]
fn public_key_hex_is_64_lowercase_chars() {
    let seed = [1u8; 32];
    let issuer = CapabilityIssuer::from_seed(seed);
    let hex = issuer.public_key_hex();
    assert_eq!(hex.len(), 64);
    assert!(hex.chars().all(|c| c.is_ascii_hexdigit() && !c.is_ascii_uppercase()));
}

#[test]
fn public_key_hex_matches_raw() {
    let issuer = CapabilityIssuer::generate();
    let hex = issuer.public_key_hex();
    let raw = issuer.public_key();
    let expected: String = raw.iter().map(|b| format!("{b:02x}")).collect();
    assert_eq!(hex, expected);
}

#[test]
fn issue_grant_and_verify() {
    let issuer = CapabilityIssuer::generate();
    let grant = issuer
        .issue_grant("alice", &[grant_cap("memory:read", vec![1]), grant_cap("memory:write", vec![2])])
        .unwrap();
    let verifier = GrantVerifier::new(issuer.public_key());
    verifier.verify(&grant).unwrap();
}

#[test]
fn grant_may_single_cap() {
    let issuer = CapabilityIssuer::generate();
    let grant = issuer.issue_grant("alice", &[grant_cap("memory:read", vec![1])]).unwrap();
    let verifier = GrantVerifier::new(issuer.public_key());
    assert!(verifier.may(&grant, &[1]));
    assert!(!verifier.may(&grant, &[2]));
}

#[test]
fn grant_may_write_implies_read() {
    let issuer = CapabilityIssuer::generate();
    let grant = issuer.issue_grant("alice", &[grant_cap("memory:write", vec![2])]).unwrap();
    let verifier = GrantVerifier::new(issuer.public_key());
    assert!(verifier.may(&grant, &[1]));
    assert!(verifier.may(&grant, &[2]));
    assert!(!verifier.may(&grant, &[2, 1]));
}

#[test]
fn grant_may_admin_implies_all() {
    let issuer = CapabilityIssuer::generate();
    let grant = issuer.issue_grant("alice", &[grant_cap("admin", vec![4, 4, 4, 4])]).unwrap();
    let verifier = GrantVerifier::new(issuer.public_key());
    assert!(verifier.may(&grant, &[1]));
    assert!(verifier.may(&grant, &[2]));
    assert!(verifier.may(&grant, &[3, 1]));
    assert!(verifier.may(&grant, &[4, 4, 4, 4]));
}

#[test]
fn grant_roundtrip_bytes() {
    let issuer = CapabilityIssuer::generate();
    let grant = issuer
        .issue_grant("alice", &[grant_cap("memory:read", vec![1]), grant_cap("memory:write", vec![2])])
        .unwrap();
    let bytes = GrantToken::to_bytes(&grant);
    let decoded = GrantToken::from_bytes(&bytes).unwrap();
    assert_eq!(decoded.principal.as_str(), "alice");
    assert_eq!(decoded.capabilities.len(), 2);
}

#[test]
fn grant_tampered_caps_fails_verify() {
    let issuer = CapabilityIssuer::generate();
    let mut grant = issuer.issue_grant("alice", &[grant_cap("memory:read", vec![1])]).unwrap();
    grant.capabilities.push(GrantCapability { id: CapabilityId::new("memory:write"), partition: vec![2] });
    let verifier = GrantVerifier::new(issuer.public_key());
    assert!(verifier.verify(&grant).is_err());
}

#[test]
fn grant_singleton_is_backward_compatible() {
    let seed = [99u8; 32];
    let issuer = CapabilityIssuer::from_seed(seed);
    let single = issuer.issue("alice", "read:data").unwrap();
    let grant = issuer.issue_grant("alice", &[grant_cap("read:data", vec![1])]).unwrap();
    let verifier = CapabilityVerifier::new(issuer.public_key());
    verifier.verify(&single).unwrap();
    let gv = GrantVerifier::new(issuer.public_key());
    gv.verify(&grant).unwrap();
    assert!(gv.may(&grant, &[1]));
}

#[test]
fn grant_issue_batch_still_works() {
    let issuer = CapabilityIssuer::generate();
    let tokens = issuer.issue_batch(&[("alice", "read:data"), ("bob", "write:data")]).unwrap();
    assert_eq!(tokens.len(), 2);
}

#[test]
fn keystore_generate_seed_is_random() {
    let s1 = KeyStore::generate_seed();
    let s2 = KeyStore::generate_seed();
    assert_ne!(s1, s2);
}

// ── Further cases ───────────────────────────────────────────────────────

#[test]
fn keystore_seed_needs_exactly_32_bytes() {
    assert_eq!(KeyStore::seed_from_bytes(&[5u8; 32]).unwrap(), [5u8; 32]);
    assert!(KeyStore::seed_from_bytes(b"too short").is_err());
    assert!(KeyStore::seed_from_bytes(&[0u8; 33]).is_err());
}

#[test]
fn token_wire_format_is_length_prefixed() {
    let token = CapabilityToken {
        principal: PrincipalId::new("al"),
        capability: CapabilityId::new("r"),
        issuer_key: vec![7u8; 32],
        signature: vec![9u8; 64],
    };
    let bytes = CapabilityToken::to_bytes(&token);
    assert_eq!(&bytes[..7], &[0, 2, b'a', b'l', 0, 1, b'r']);
    assert_eq!(bytes.len(), 7 + 32 + 64);
    let back = CapabilityToken::from_bytes(&bytes).unwrap();
    assert_eq!(back.principal.as_str(), "al");
    assert_eq!(back.capability.as_str(), "r");
    assert_eq!(back.issuer_key, vec![7u8; 32]);
    assert_eq!(back.signature, vec![9u8; 64]);
}

#[test]
fn grant_wire_roundtrip_keeps_every_field() {
    let grant = GrantToken {
        principal: PrincipalId::new("alice"),
        capabilities: vec![
            GrantCapability { id: CapabilityId::new("a"), partition: vec![2, 1] },
            GrantCapability { id: CapabilityId::new("b"), partition: vec![] },
        ],
        issuer_key: vec![1u8; 32],
        signature: vec![2u8; 64],
    };
    let bytes = GrantToken::to_bytes(&grant);
    assert_eq!(GrantToken::from_bytes(&bytes).unwrap(), grant);
    assert!(GrantToken::from_bytes(&bytes[..bytes.len() - 1]).is_err());
}

#[test]
fn grant_order_of_capabilities_does_not_matter() {
    let issuer = CapabilityIssuer::from_seed([3u8; 32]);
    let g1 = issuer.issue_grant("alice", &[grant_cap("a", vec![1]), grant_cap("b", vec![2])]).unwrap();
    let g2 = issuer.issue_grant("alice", &[grant_cap("b", vec![2]), grant_cap("a", vec![1])]).unwrap();
    assert_eq!(g1, g2);
}

#[test]
fn verifier_rejects_foreign_issuer_key_with_message() {
    let issuer = CapabilityIssuer::from_seed([4u8; 32]);
    let other = CapabilityIssuer::from_seed([5u8; 32]);
    let token = other.issue("alice", "read").unwrap();
    let verifier = CapabilityVerifier::new(issuer.public_key());
    match verifier.verify(&token) {
        Err(SchubertError::CryptoVerificationFailed(m)) => assert_eq!(m, "token issuer key does not match verifier key"),
        other => panic!("unexpected {other:?}"),
    }
}

#[test]
fn verify_batch_reports_each_token() {
    let issuer = CapabilityIssuer::from_seed([6u8; 32]);
    let good = issuer.issue("alice", "read").unwrap();
    let mut bad = issuer.issue("bob", "read").unwrap();
    bad.signature[0] ^= 1;
    let verifier = CapabilityVerifier::new(issuer.public_key());
    let results = verifier.verify_batch(&[good, bad]);
    assert!(results[0].is_ok());
    assert!(results[1].is_err());
}

#[test]
fn partitions_compare_part_by_part() {
    assert!(partitions_le(&[1], &[2]));
    assert!(partitions_le(&[], &[1]));
    assert!(!partitions_le(&[2, 1], &[2]));
    assert!(partitions_le(&[2, 1], &[2, 2]));
    assert!(!partitions_le(&[3], &[2, 2]));
}

#[test]
fn issued_tokens_verify_only_under_their_issuer() {
    let i1 = CapabilityIssuer::from_seed([7u8; 32]);
    let i2 = CapabilityIssuer::from_seed([8u8; 32]);
    let t = i1.issue("alice", "read:data").unwrap();
    let v1 = CapabilityVerifier::new(i1.public_key());
    let v2 = CapabilityVerifier::new(i2.public_key());
    assert!(v1.verify(&t).is_ok());
    assert!(v2.verify(&t).is_err());
    let mut t2 = t.clone();
    t2.capability = CapabilityId::new("write:data");
    assert!(v1.verify(&t2).is_err());
    let g = i1.issue_grant("alice", &[grant_cap("read", vec![1]), grant_cap("write", vec![2])]).unwrap();
    assert!(GrantVerifier::new(i1.public_key()).verify(&g).is_ok());
    assert!(GrantVerifier::new(i2.public_key()).verify(&g).is_err());
}

#[test]
fn issuer_from_key_matches_issuer_from_its_seed() {
    let seed = [9u8; 32];
    let key = ed25519_dalek::SigningKey::from_bytes(&seed);
    let from_key = CapabilityIssuer::from_key(key);
    let from_seed = CapabilityIssuer::from_seed(seed);
    assert_eq!(from_key.public_key(), from_seed.public_key());
    let t1 = from_key.issue("alice", "read:data").unwrap();
    let t2 = from_seed.issue("alice", "read:data").unwrap();
    assert_eq!(t1.signature, t2.signature);
}
