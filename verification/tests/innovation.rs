use neat::innovation_tracker::InnovationTracker;

#[test]
fn tracker_starts_empty() {
    let t = InnovationTracker::new();
    assert_eq!(t.current_innovation, 0);
    assert_eq!(t.node_id_counter, 0);
    assert!(t.connection_innovations.is_empty());
    assert!(t.node_innovations.is_empty());
    let d = InnovationTracker::default();
    assert_eq!(d, t);
}

#[test]
fn connection_innovation_is_stable_per_pair() {
    let mut t = InnovationTracker::new();
    assert_eq!(t.get_connection_innovation(0, 2), 0);
    assert_eq!(t.get_connection_innovation(1, 2), 1);
    assert_eq!(t.current_innovation, 2);
    // asking again gives the same number and changes nothing
    let before = t.clone();
    assert_eq!(t.get_connection_innovation(0, 2), 0);
    assert_eq!(t, before);
    // direction matters
    assert_eq!(t.get_connection_innovation(2, 0), 2);
    assert_eq!(t.current_innovation, 3);
}

#[test]
fn connection_key_separates_halves() {
    let mut t = InnovationTracker::new();
    let a = t.get_connection_innovation(1, 0);
    let b = t.get_connection_innovation(0, 1);
    let c = t.get_connection_innovation(u32::MAX, 0);
    let d = t.get_connection_innovation(0, u32::MAX);
    assert_eq!((a, b, c, d), (0, 1, 2, 3));
    assert_eq!(t.connection_innovations.len(), 4);
}

#[test]
fn node_innovation_hands_out_fresh_triples() {
    let mut t = InnovationTracker::new();
    t.get_connection_innovation(0, 1);
    t.node_id_counter = 2;
    assert_eq!(t.get_node_innovation(0), (2, 1, 2));
    assert_eq!(t.node_id_counter, 3);
    assert_eq!(t.current_innovation, 3);
    let before = t.clone();
    assert_eq!(t.get_node_innovation(0), (2, 1, 2));
    assert_eq!(t, before);
    assert_eq!(t.get_node_innovation(7), (3, 3, 4));
    assert_eq!(t.current_innovation, 5);
}

#[test]
fn innovation_numbers_never_repeat() {
    let mut t = InnovationTracker::new();
    let mut seen = std::collections::HashSet::new();
    for i in 0..5u32 {
        for j in 0..5u32 {
            let r = t.get_connection_innovation(i, j);
            assert!(seen.insert(r));
        }
    }
    for c in 0..10u32 {
        let (_, a, b) = t.get_node_innovation(c);
        assert!(seen.insert(a));
        assert!(seen.insert(b));
    }
    assert_eq!(seen.len() as u32, t.current_innovation);
}
