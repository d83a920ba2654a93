use topo::dep_node::{mark_all, DepNode, Dependent, InnerDepNode, Liveness};

fn node(addr: u64, rooted: bool, dependents: &[u64]) -> DepNode {
    let mut node = DepNode::new(addr);
    for d in dependents {
        node.root(Dependent { addr: *d });
    }
    if rooted {
        node.root(Dependent::default());
    } else {
        node.sweep();
    }
    node
}

#[test]
fn a_new_node_is_neither_rooted_nor_marked() {
    let mut node = DepNode::new(3);
    assert!(!node.has_root());
    assert_eq!(node.as_dependent(), Dependent { addr: 3 });
    assert_eq!(node.as_dependent().addr(), 3);
    assert!(!node.mark(&Vec::new()));
    assert_eq!(node.sweep(), Liveness::Dead);
}

#[test]
fn a_node_goes_from_rooted_to_marked_to_swept_to_dead() {
    let mut node = DepNode::new(3);
    node.root(Dependent::default());
    assert!(node.has_root());
    assert!(node.mark(&Vec::new()));
    assert_eq!(node.sweep(), Liveness::Live);
    assert!(!node.has_root());
    assert!(!node.mark(&Vec::new()));
    assert_eq!(node.sweep(), Liveness::Dead);
    node.root(Dependent { addr: 4 });
    assert!(node.mark(&Vec::new()));
    assert_eq!(node.sweep(), Liveness::Live);
}

#[test]
fn a_rooted_node_that_was_not_marked_is_swept_dead() {
    let mut node = DepNode::new(3);
    node.root(Dependent::default());
    assert_eq!(node.sweep(), Liveness::Dead);
    assert!(!node.has_root());
}

#[test]
fn a_mark_lasts_until_the_sweep() {
    let mut node = DepNode::new(3);
    node.root(Dependent::default());
    assert!(node.mark(&Vec::new()));
    assert_eq!(node.sweep(), Liveness::Live);
    assert_eq!(node.sweep(), Liveness::Dead);
}

#[test]
fn the_inner_record_does_the_same() {
    let mut inner = InnerDepNode::new();
    assert!(!inner.mark(&Vec::new()));
    assert_eq!(inner.sweep(), Liveness::Dead);
    inner.root(Dependent { addr: 1 });
    assert!(inner.mark(&Vec::new()));
    assert_eq!(inner.sweep(), Liveness::Live);
    assert_eq!(inner.sweep(), Liveness::Dead);

    // Not rooted, but made use of by a record that is.
    inner.root(Dependent { addr: 5 });
    inner.sweep();
    assert!(inner.mark(&vec![node(5, true, &[])]));
    assert_eq!(inner.sweep(), Liveness::Live);
    assert!(!inner.mark(&vec![node(5, false, &[])]));
    assert_eq!(inner.sweep(), Liveness::Dead);
}

#[test]
fn a_node_is_marked_through_its_dependents() {
    // Revision one: A is used at the top, and making A uses B.
    let mut a = DepNode::new(1);
    let mut b = DepNode::new(2);
    a.root(Dependent::default());
    b.root(a.as_dependent());
    assert!(a.mark(&Vec::new()));
    let mut others = vec![a];
    assert!(b.mark(&others));
    assert_eq!(others[0].sweep(), Liveness::Live);
    assert_eq!(b.sweep(), Liveness::Live);

    // Revision two: A is used again, B is not.
    others[0].root(Dependent::default());
    assert!(!b.has_root());
    assert!(b.mark(&others));
    let mut others_of_a = vec![b];
    assert!(others[0].mark(&others_of_a));
    assert_eq!(others[0].sweep(), Liveness::Live);
    assert_eq!(others_of_a[0].sweep(), Liveness::Live);

    // Revision three: nothing is used.
    assert!(!others[0].mark(&others_of_a));
    assert!(!others_of_a[0].mark(&others));
    assert_eq!(others[0].sweep(), Liveness::Dead);
    assert_eq!(others_of_a[0].sweep(), Liveness::Dead);
}

#[test]
fn a_node_is_marked_through_a_chain_of_dependents() {
    // 4 was made from 3, 3 from 2, 2 from 1; only 4 is rooted.
    let others = vec![node(4, true, &[]), node(3, false, &[4]), node(2, false, &[3])];
    let mut first = node(1, false, &[2]);
    assert!(first.mark(&others));
    assert_eq!(first.sweep(), Liveness::Live);

    let broken = vec![node(4, true, &[]), node(2, false, &[3])];
    assert!(!first.mark(&broken));
    assert_eq!(first.sweep(), Liveness::Dead);
}

#[test]
fn marking_every_node_notes_what_marking_all_finds() {
    let mut nodes = vec![node(1, true, &[]), node(2, false, &[1]), node(3, false, &[])];
    assert_eq!(mark_all(&nodes), vec![true, true, false]);
    topo::dep_node::mark_each(&mut nodes);
    let swept: Vec<Liveness> = nodes.iter_mut().map(|node| node.sweep()).collect();
    assert_eq!(swept, vec![Liveness::Live, Liveness::Live, Liveness::Dead]);
    assert_eq!(mark_all(&nodes), vec![false, false, false]);
}

#[test]
fn the_null_handle_names_no_record() {
    let nodes = vec![node(0, true, &[]), node(1, false, &[0])];
    assert_eq!(Dependent::default().upgrade(&nodes), None);
    assert_eq!(mark_all(&nodes), vec![true, false]);
    let mut top_level = node(2, false, &[]);
    top_level.root(Dependent::default());
    top_level.sweep();
    assert!(!top_level.mark(&nodes));
}

#[test]
fn a_dependent_that_stands_last_is_not_recorded_again() {
    let mut twice = DepNode::new(1);
    twice.root(Dependent { addr: 2 });
    twice.root(Dependent { addr: 2 });
    let mut once = DepNode::new(1);
    once.root(Dependent { addr: 2 });
    assert_eq!(format!("{:?}", twice), format!("{:?}", once));

    let mut alternating = DepNode::new(1);
    alternating.root(Dependent { addr: 2 });
    alternating.root(Dependent { addr: 3 });
    alternating.root(Dependent { addr: 2 });
    assert_ne!(format!("{:?}", alternating), format!("{:?}", once));
}

#[test]
fn handles_are_equal_by_address() {
    assert_eq!(Dependent { addr: 4 }, Dependent { addr: 4 });
    assert_ne!(Dependent { addr: 4 }, Dependent { addr: 5 });
    assert_eq!(Dependent::default().addr(), 0);
}

#[test]
fn upgrade_finds_the_record_that_is_still_there() {
    let nodes = vec![node(1, true, &[]), node(2, true, &[]), node(3, true, &[])];
    assert_eq!(Dependent { addr: 1 }.upgrade(&nodes), Some(0));
    assert_eq!(Dependent { addr: 3 }.upgrade(&nodes), Some(2));
    assert_eq!(Dependent { addr: 4 }.upgrade(&nodes), None);
    assert_eq!(Dependent::default().upgrade(&nodes), None);
    assert_eq!(Dependent { addr: 1 }.upgrade(&Vec::new()), None);
}

#[test]
fn marking_nothing_gives_nothing() {
    assert_eq!(mark_all(&Vec::new()), Vec::<bool>::new());
}

#[test]
fn rooted_nodes_are_live_and_lonely_unrooted_nodes_are_not() {
    let nodes = vec![node(1, true, &[]), node(2, false, &[]), node(3, true, &[9])];
    assert_eq!(mark_all(&nodes), vec![true, false, true]);
}

#[test]
fn a_rooted_dependent_keeps_the_nodes_it_was_made_from() {
    // 1 was made from 2, and 2 from 3: each lists its consumer.
    let nodes = vec![node(1, true, &[]), node(2, false, &[1]), node(3, false, &[2]), node(4, false, &[])];
    assert_eq!(mark_all(&nodes), vec![true, true, true, false]);
}

#[test]
fn liveness_goes_against_the_order_of_the_list_too() {
    let nodes = vec![node(3, false, &[2]), node(2, false, &[1]), node(1, true, &[])];
    assert_eq!(mark_all(&nodes), vec![true, true, true]);
}

#[test]
fn a_rooted_node_does_not_keep_its_dependents() {
    let nodes = vec![node(1, false, &[]), node(2, true, &[1])];
    assert_eq!(mark_all(&nodes), vec![false, true]);
}

#[test]
fn a_handle_to_a_record_that_is_gone_is_passed_over() {
    let nodes = vec![node(2, false, &[1, 7]), node(3, false, &[0])];
    assert_eq!(mark_all(&nodes), vec![false, false]);
}

#[test]
fn marking_ends_on_cycles() {
    let dead_cycle = vec![node(1, false, &[2]), node(2, false, &[1])];
    assert_eq!(mark_all(&dead_cycle), vec![false, false]);

    let live_cycle = vec![node(1, false, &[2]), node(2, true, &[1]), node(3, false, &[3])];
    assert_eq!(mark_all(&live_cycle), vec![true, true, false]);

    let self_edge = vec![node(1, true, &[1]), node(2, false, &[2])];
    assert_eq!(mark_all(&self_edge), vec![true, false]);

    let ring: Vec<DepNode> =
        (0..50u64).map(|n| node(n + 1, n == 17, &[(n + 1) % 50 + 1])).collect();
    assert_eq!(mark_all(&ring), vec![true; 50]);
}
