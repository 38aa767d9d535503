use lumina::geometry::Pos;
use lumina::graph::LinkGraph;

fn graph_with(n: usize, max_links: usize) -> LinkGraph {
    let mut g = LinkGraph::new(max_links);
    for i in 0..n {
        assert_eq!(g.add_node(Pos { x: i as i64 * 100, y: 0 }), i);
    }
    g
}

#[test]
fn degree_cap_of_one_rejects_second_link() {
    let mut g = graph_with(3, 1);
    let (a, b, c) = (0, 1, 2);
    assert!(g.try_link(a, b));
    assert!(!g.try_link(a, c));
    assert_eq!(g.targets(a), &vec![b]);
    assert_eq!(g.targets(b), &vec![a]);
    assert!(g.targets(c).is_empty());
}

#[test]
fn repeated_link_is_a_no_op() {
    let mut g = graph_with(2, 3);
    assert!(g.try_link(0, 1));
    assert!(!g.try_link(0, 1));
    assert!(!g.try_link(1, 0));
    assert_eq!(g.targets(0), &vec![1]);
    assert_eq!(g.targets(1), &vec![0]);
}

#[test]
fn link_through_third_node_is_rejected() {
    let mut g = graph_with(3, 3);
    let (a, b, c) = (0, 1, 2);
    assert!(g.try_link(a, c));
    assert!(g.try_link(c, b));
    assert!(!g.try_link(a, b));
    assert_eq!(g.targets(a), &vec![c]);
    assert_eq!(g.targets(b), &vec![c]);
}

#[test]
fn degree_never_exceeds_cap() {
    let mut g = graph_with(5, 2);
    assert!(g.try_link(0, 1));
    assert!(g.try_link(0, 2));
    assert!(!g.try_link(0, 3));
    assert!(g.try_link(3, 4));
    for i in 0..5 {
        assert!(g.targets(i).len() <= g.max_links());
    }
}

#[test]
fn self_and_unknown_links_are_rejected() {
    let mut g = graph_with(2, 3);
    assert!(!g.try_link(0, 0));
    assert!(!g.try_link(0, 7));
    assert!(g.targets(0).is_empty());
}

#[test]
fn separate_components_can_join() {
    let mut g = graph_with(4, 3);
    assert!(g.try_link(0, 1));
    assert!(g.try_link(2, 3));
    assert!(g.try_link(1, 2));
    assert!(!g.try_link(0, 3));
}

#[test]
fn network_size_counts_linked_nodes() {
    let mut g = graph_with(5, 3);
    assert_eq!(g.network_size(), 0);
    g.try_link(0, 1);
    g.try_link(1, 2);
    assert_eq!(g.network_size(), 3);
    assert_eq!(g.len(), 5);
}

#[test]
fn cooldown_flag_round_trip() {
    let mut g = graph_with(2, 3);
    assert!(!g.is_cooldown(1));
    g.set_cooldown(1, true);
    assert!(g.is_cooldown(1));
    assert!(!g.is_cooldown(0));
    g.set_cooldown(1, false);
    assert!(!g.is_cooldown(1));
    assert_eq!(g.position(1), Pos { x: 100, y: 0 });
}
