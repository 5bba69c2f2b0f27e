use schubert::routing::RouteTable;
use schubert::SchubertError;

#[test]
fn single_hop_route() {
    let mut rt = RouteTable::new(2, 4).unwrap();
    rt.advertise("A", vec![1]).unwrap();
    rt.advertise("B", vec![1]).unwrap();
    let result = rt.check_route("A", "B").unwrap();
    assert!(result.solution_dimension.is_some());
    assert!(!result.is_congested);
}

#[test]
fn congested_route() {
    let mut rt = RouteTable::new(2, 4).unwrap();
    rt.advertise("A", vec![2]).unwrap();
    rt.advertise("A", vec![2, 1]).unwrap();
    rt.advertise("A", vec![2, 2]).unwrap();
    rt.advertise("B", vec![1]).unwrap();
    let result = rt.check_route("A", "B").unwrap();
    assert!(result.is_congested);
    assert_eq!(result.path_count, 0);
}

#[test]
fn impossible_route() {
    let mut rt = RouteTable::new(2, 4).unwrap();
    rt.advertise("A", vec![2]).unwrap();
    rt.advertise("B", vec![1, 1]).unwrap();
    let result = rt.check_route("A", "B").unwrap();
    assert_eq!(result.path_count, 0);
    assert!(!result.is_congested);
}

#[test]
fn multi_hop_path() {
    let mut rt = RouteTable::new(2, 4).unwrap();
    rt.advertise("A", vec![1]).unwrap();
    rt.advertise("B", vec![1]).unwrap();
    rt.advertise("C", vec![1]).unwrap();
    let result = rt.check_path(&["A", "B", "C"]).unwrap();
    assert!(result.solution_dimension.is_some());
}

#[test]
fn congestion_level_check() {
    let mut rt = RouteTable::new(2, 4).unwrap();
    rt.advertise("A", vec![1]).unwrap();
    let (codim, dim) = rt.congestion_parts("A").unwrap();
    let level = codim as f64 / dim as f64;
    assert!((level - 0.25).abs() < 0.01);
    rt.advertise("A", vec![2, 2]).unwrap();
    let (codim, dim) = rt.congestion_parts("A").unwrap();
    let level = codim as f64 / dim as f64;
    assert!((level - 1.25).abs() < 0.01);
}

#[test]
fn missing_node_error() {
    let rt = RouteTable::new(2, 4).unwrap();
    assert!(rt.check_route("A", "B").is_err());
}

#[test]
fn nodes_list() {
    let mut rt = RouteTable::new(2, 4).unwrap();
    rt.advertise("A", vec![1]).unwrap();
    rt.advertise("B", vec![1]).unwrap();
    rt.advertise("C", vec![1]).unwrap();
    let nodes = rt.nodes();
    assert_eq!(nodes.len(), 3);
    assert!(nodes.contains(&"A"));
    assert!(nodes.contains(&"B"));
    assert!(nodes.contains(&"C"));
}

// ── Further cases ───────────────────────────────────────────────────────

#[test]
fn transverse_route_counts_paths() {
    let mut rt = RouteTable::new(2, 4).unwrap();
    rt.advertise("A", vec![2]).unwrap();
    rt.advertise("B", vec![2]).unwrap();
    let result = rt.check_route("A", "B").unwrap();
    assert_eq!(result.path_count, 1);
    assert_eq!(result.total_codimension, 4);
    assert_eq!(result.solution_dimension, None);
}

#[test]
fn advertisement_outside_the_box_is_rejected() {
    let mut rt = RouteTable::new(2, 4).unwrap();
    assert!(matches!(rt.advertise("A", vec![3]), Err(SchubertError::InvalidPartition { .. })));
    assert!(rt.advertisements_for("A").is_none());
}

#[test]
fn advertise_many_keeps_accepted_prefix() {
    let mut rt = RouteTable::new(2, 4).unwrap();
    assert!(rt.advertise_many("A", vec![vec![1], vec![3], vec![2]]).is_err());
    assert_eq!(rt.advertisements_for("A").unwrap(), &[vec![1]]);
}

#[test]
fn path_through_unknown_node_names_it() {
    let mut rt = RouteTable::new(2, 4).unwrap();
    rt.advertise("A", vec![1]).unwrap();
    assert!(rt.check_path(&["A", "Z"]).is_err());
}

#[test]
fn missing_route_endpoints_are_named() {
    let mut rt = RouteTable::new(2, 4).unwrap();
    assert_eq!(rt.check_route("A", "B").map(|_| ()), Err(SchubertError::Generic("source 'A' not found".to_string())));
    rt.advertise("A", vec![1]).unwrap();
    assert_eq!(
        rt.check_route("A", "B").map(|_| ()),
        Err(SchubertError::Generic("destination 'B' not found".to_string()))
    );
}

#[test]
fn constructors_accept_any_valid_grassmannian() {
    assert!(RouteTable::new(3, usize::MAX).is_ok());
    assert!(schubert::crdt::CrdtState::new(3, usize::MAX).is_ok());
    assert!(schubert::AccessController::new(3, usize::MAX).is_ok());
}

#[test]
fn two_node_path_is_the_route() {
    let mut rt = RouteTable::new(2, 4).unwrap();
    rt.advertise("A", vec![1]).unwrap();
    rt.advertise("B", vec![1]).unwrap();
    rt.advertise("C", vec![2, 2]).unwrap();
    for (s, d) in [("A", "B"), ("A", "C"), ("B", "Z"), ("Z", "A")] {
        let route = rt.check_route(s, d);
        let path = rt.check_path(&[s, d]);
        assert_eq!(route.is_ok(), path.is_ok());
        if let (Ok(a), Ok(b)) = (route, path) {
            assert_eq!(a.path_count, b.path_count);
            assert_eq!(a.total_codimension, b.total_codimension);
            assert_eq!(a.is_congested, b.is_congested);
            assert_eq!(a.solution_dimension, b.solution_dimension);
            assert_eq!(a.path, b.path);
        }
    }
}
