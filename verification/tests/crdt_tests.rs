use schubert::crdt::{CrdtState, VersionVector};
use schubert::{AccessDecision, Capability, CapabilityKind, PrincipalId};

fn setup() -> CrdtState {
    let mut state = CrdtState::new(2, 4).unwrap();
    state.register_capability(Capability::new("read", "Read", vec![1], CapabilityKind::ReadLike)).unwrap();
    state.register_capability(Capability::new("write", "Write", vec![2], CapabilityKind::WriteLike)).unwrap();
    state
}

#[test]
fn version_vector_happens_before() {
    let mut a = VersionVector::new();
    a.increment("node1");
    let mut b = a.clone();
    b.increment("node1");
    assert!(a.happens_before(&b));
    assert!(!b.happens_before(&a));
}

#[test]
fn version_vector_concurrent() {
    let mut a = VersionVector::new();
    a.increment("node1");
    let mut b = VersionVector::new();
    b.increment("node2");
    assert!(!a.happens_before(&b));
    assert!(!b.happens_before(&a));
}

#[test]
fn grant_and_hold() {
    let mut state = setup();
    state.grant("alice", "read", "node1", 1000).unwrap();
    assert!(state.holds(&PrincipalId::new("alice"), "read"));
    assert!(!state.holds(&PrincipalId::new("alice"), "write"));
}

#[test]
fn revoke_and_check() {
    let mut state = setup();
    state.grant("alice", "read", "node1", 1000).unwrap();
    state.revoke("alice", "read", "node1", 2000).unwrap();
    assert!(!state.holds(&PrincipalId::new("alice"), "read"));
}

#[test]
fn merge_preserves_both_grants() {
    let mut node_a = setup();
    let mut node_b = setup();
    node_a.grant("alice", "read", "node_a", 1000).unwrap();
    node_b.grant("alice", "write", "node_b", 1000).unwrap();
    node_a.merge(&node_b);
    assert!(node_a.holds(&PrincipalId::new("alice"), "read"));
    assert!(node_a.holds(&PrincipalId::new("alice"), "write"));
}

#[test]
fn merge_last_write_wins() {
    let mut node_a = setup();
    let mut node_b = setup();
    node_a.grant("alice", "read", "node_a", 1000).unwrap();
    node_b.revoke("alice", "read", "node_b", 2000).unwrap();
    node_a.merge(&node_b);
    assert!(!node_a.holds(&PrincipalId::new("alice"), "read"));
}

#[test]
fn merge_idempotent() {
    let mut node_a = setup();
    node_a.grant("alice", "read", "node_a", 1000).unwrap();
    let snapshot = node_a.clone();
    node_a.merge(&snapshot);
    assert!(node_a.holds(&PrincipalId::new("alice"), "read"));
}

#[test]
fn crdt_check_access() {
    let mut state = setup();
    state.grant("alice", "read", "node1", 1000).unwrap();
    state.grant("alice", "write", "node1", 1000).unwrap();
    let result = state.check(&PrincipalId::new("alice"), &["read", "write"]).unwrap();
    assert!(matches!(result, AccessDecision::Underconstrained { .. }));
}

// ── Further cases ───────────────────────────────────────────────────────

#[test]
fn version_vector_merge_takes_the_larger_count() {
    let mut a = VersionVector::new();
    a.increment("x");
    a.increment("x");
    let mut b = VersionVector::new();
    b.increment("x");
    b.increment("y");
    let m = a.merge(&b);
    assert_eq!(m.get("x"), 2);
    assert_eq!(m.get("y"), 1);
    assert_eq!(m.get("z"), 0);
    assert!(a.happens_before(&m));
    assert!(b.happens_before(&m));
    let m2 = b.merge(&a);
    assert_eq!(m2.get("x"), 2);
    assert_eq!(m2.get("y"), 1);
}

#[test]
fn version_vector_is_not_before_itself() {
    let mut a = VersionVector::new();
    a.increment("x");
    assert!(!a.happens_before(&a.clone()));
}

#[test]
fn merge_is_commutative_on_settled_ledgers() {
    let mut a = setup();
    let mut b = setup();
    a.grant("alice", "read", "node_a", 1000).unwrap();
    b.grant("bob", "write", "node_b", 1500).unwrap();
    let mut ab = a.clone();
    ab.merge(&b);
    let mut ba = b.clone();
    ba.merge(&a);
    for (p, c) in [("alice", "read"), ("alice", "write"), ("bob", "read"), ("bob", "write")] {
        let pid = PrincipalId::new(p);
        assert_eq!(ab.holds(&pid, c), ba.holds(&pid, c));
    }
    assert!(ab.is_converged_with(ba.version()));
}

#[test]
fn concurrent_grant_and_revoke_resolve_by_timestamp() {
    let mut a = setup();
    let mut b = setup();
    a.grant("alice", "read", "node_a", 2000).unwrap();
    b.revoke("alice", "read", "node_b", 1000).unwrap();
    let mut ab = a.clone();
    ab.merge(&b);
    let mut ba = b.clone();
    ba.merge(&a);
    let alice = PrincipalId::new("alice");
    assert!(ab.holds(&alice, "read"));
    assert!(ba.holds(&alice, "read"));

    let mut c = setup();
    let mut d = setup();
    c.grant("alice", "read", "node_c", 1000).unwrap();
    d.revoke("alice", "read", "node_d", 3000).unwrap();
    let mut cd = c.clone();
    cd.merge(&d);
    let mut dc = d.clone();
    dc.merge(&c);
    assert!(!cd.holds(&alice, "read"));
    assert!(!dc.holds(&alice, "read"));
}

#[test]
fn concurrent_records_with_equal_timestamps_keep_the_receiving_side() {
    let mut a = setup();
    let mut b = setup();
    a.grant("alice", "read", "node_a", 1000).unwrap();
    b.revoke("alice", "read", "node_b", 1000).unwrap();
    let mut ab = a.clone();
    ab.merge(&b);
    let mut ba = b.clone();
    ba.merge(&a);
    let alice = PrincipalId::new("alice");
    assert!(ab.holds(&alice, "read"));
    assert!(!ba.holds(&alice, "read"));
}

#[test]
fn converged_only_after_seeing_every_operation() {
    let mut s = setup();
    s.grant("alice", "read", "node1", 1000).unwrap();
    let mut o = VersionVector::new();
    o.increment("node1");
    o.increment("node1");
    assert!(!s.is_converged_with(&o));
    let mut behind = VersionVector::new();
    behind.increment("node1");
    assert!(s.is_converged_with(&behind));
    assert!(s.is_converged_with(&VersionVector::new()));
    let mut other_node = VersionVector::new();
    other_node.increment("node2");
    assert!(!s.is_converged_with(&other_node));
}

#[test]
fn staleness_counts_only_active_grants() {
    let mut state = setup();
    state.grant("alice", "read", "n", 1000).unwrap();
    state.grant("bob", "write", "n", 4000).unwrap();
    state.revoke("alice", "read", "n", 5000).unwrap();
    // the oldest active grant is bob's (4000); the latest record is at 5000
    assert_eq!(state.staleness_ms(), Some(1000));
    state.revoke("bob", "write", "n", 6000).unwrap();
    assert_eq!(state.staleness_ms(), None);
}

#[test]
fn stale_state_refuses_checks() {
    let mut state = setup();
    state.grant("alice", "read", "n", 1000).unwrap();
    let alice = PrincipalId::new("alice");
    assert!(state.check_at(&alice, &["read"], 50_000).is_ok());
    state.set_max_staleness(Some(30_000));
    assert!(state.check_at(&alice, &["read"], 20_000).is_ok());
    assert!(state.check_at(&alice, &["read"], 31_000).is_ok());
    let err = state.check_at(&alice, &["read"], 31_001).unwrap_err();
    assert_eq!(err.message(), "CRDT state is stale: its newest active grant is older than the staleness limit");
    // with the system clock far past 1000 ms since the epoch, the state is stale
    assert!(state.check(&alice, &["read"]).is_err());
    state.set_max_staleness(None);
    assert!(state.check(&alice, &["read"]).is_ok());
}

#[test]
fn grant_of_unknown_capability_fails() {
    let mut state = setup();
    assert!(state.grant("alice", "admin", "node1", 1).is_err());
    assert!(!state.holds(&PrincipalId::new("alice"), "admin"));
}

#[test]
fn active_grants_lists_held_capabilities() {
    let mut state = setup();
    state.grant("alice", "read", "n", 1).unwrap();
    state.grant("alice", "write", "n", 2).unwrap();
    state.revoke("alice", "write", "n", 3).unwrap();
    assert_eq!(state.active_grants(&PrincipalId::new("alice")), vec!["read".to_string()]);
}

#[test]
fn staleness_spans_grant_timestamps() {
    let mut state = setup();
    assert_eq!(state.staleness_ms(), None);
    state.grant("alice", "read", "n", 1000).unwrap();
    state.grant("bob", "write", "n", 4000).unwrap();
    assert_eq!(state.staleness_ms(), Some(3000));
}

#[test]
fn crdt_check_denies_unheld_capability() {
    let mut state = setup();
    state.grant("alice", "read", "n", 1).unwrap();
    let d = state.check(&PrincipalId::new("alice"), &["write"]).unwrap();
    assert_eq!(d, AccessDecision::Denied);
}

#[test]
fn merge_is_associative_on_settled_ledgers() {
    let mut a = setup();
    let mut b = setup();
    let mut c = setup();
    a.grant("alice", "read", "node_a", 1000).unwrap();
    b.grant("bob", "write", "node_b", 1500).unwrap();
    c.grant("carol", "read", "node_c", 2000).unwrap();
    c.grant("alice", "write", "node_c", 2500).unwrap();
    let mut ab_c = a.clone();
    ab_c.merge(&b);
    ab_c.merge(&c);
    let mut bc = b.clone();
    bc.merge(&c);
    let mut a_bc = a.clone();
    a_bc.merge(&bc);
    for p in ["alice", "bob", "carol"] {
        for cap in ["read", "write"] {
            let pid = PrincipalId::new(p);
            assert_eq!(ab_c.holds(&pid, cap), a_bc.holds(&pid, cap));
        }
    }
    assert!(ab_c.is_converged_with(a_bc.version()));
    assert!(a_bc.is_converged_with(ab_c.version()));
}

#[test]
fn version_vector_merge_is_associative_and_idempotent() {
    let mut a = VersionVector::new();
    a.increment("x");
    let mut b = VersionVector::new();
    b.increment("y");
    b.increment("y");
    let mut c = VersionVector::new();
    c.increment("x");
    c.increment("x");
    c.increment("z");
    let left = a.merge(&b).merge(&c);
    let right = a.merge(&b.merge(&c));
    for node in ["x", "y", "z", "w"] {
        assert_eq!(left.get(node), right.get(node));
    }
    assert_eq!(left.get("x"), 2);
    assert_eq!(left.get("y"), 2);
    assert_eq!(left.get("z"), 1);
    let same = a.merge(&a);
    assert_eq!(same.get("x"), 1);
    assert!(!a.happens_before(&same) && !same.happens_before(&a));
}

#[test]
fn merging_a_copy_changes_nothing() {
    let mut s = setup();
    s.grant("alice", "read", "n1", 1000).unwrap();
    s.grant("bob", "write", "n2", 2000).unwrap();
    s.revoke("bob", "write", "n1", 3000).unwrap();
    let snap = s.clone();
    s.merge(&snap);
    assert!(s.is_converged_with(snap.version()) && snap.is_converged_with(s.version()));
    for p in ["alice", "bob"] {
        let pid = PrincipalId::new(p);
        for c in ["read", "write"] {
            assert_eq!(s.holds(&pid, c), snap.holds(&pid, c));
        }
        assert_eq!(s.active_grants(&pid), snap.active_grants(&pid));
    }
}
