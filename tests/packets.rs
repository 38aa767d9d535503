use lumina::energy::{
    add_distance, advance, branch, chance_in, deliver, generate, retrace, step_packet,
    travel_distance, Energy, Retrace, SPEED,
};
use lumina::geometry::Pos;
use lumina::graph::LinkGraph;

fn forward(path: Vec<usize>, target: usize, distance: u64) -> Energy {
    Energy { target, travelled: 0, path, returning: false, distance }
}

#[test]
fn certain_propagation_without_reflection_gives_one_forward_child() {
    let (a, b, c) = (0usize, 1usize, 2usize);
    // A generates one packet towards its single neighbour B.
    let sent = generate(a, &vec![b], &vec![0], chance_in(1_000_000, 1000));
    assert_eq!(sent.len(), 1);
    assert_eq!(sent[0].path, vec![a]);
    assert_eq!(sent[0].target, b);
    // At B, neighbours are A (back the way it came) and C (onward).
    for draws in [vec![0u32, 0u32], vec![999_999, 999_999], vec![123_456, 654_321]] {
        let children = branch(&sent[0], b, &vec![a, c], &draws, 1_000_000, 0);
        assert_eq!(children.len(), 1);
        assert_eq!(children[0].target, c);
        assert!(!children[0].returning);
        assert_eq!(children[0].path, vec![a, b]);
        assert_eq!(children.iter().filter(|e| e.returning).count(), 0);
    }
}

#[test]
fn reflection_returns_towards_predecessor() {
    let p = forward(vec![0], 1, 700);
    let children = branch(&p, 1, &vec![0, 2, 3], &vec![10, 600_000, 20], 500_000, 500_000);
    assert_eq!(children.len(), 2);
    assert_eq!(children[0].target, 0);
    assert!(children[0].returning);
    assert_eq!(children[1].target, 3);
    assert!(!children[1].returning);
    assert!(children.iter().all(|e| e.distance == 700 && e.travelled == 0));
}

#[test]
fn no_surviving_branch_ends_packet() {
    let p = forward(vec![0], 1, 50);
    let children = branch(&p, 1, &vec![0, 2], &vec![999_999, 999_999], 500_000, 500_000);
    assert!(children.is_empty());
}

#[test]
fn generation_chance_filters_neighbours() {
    let chance = chance_in(1_000_000, 16);
    assert_eq!(chance, 16_000);
    let sent = generate(7, &vec![1, 2, 3], &vec![15_999, 16_000, 0], chance);
    assert_eq!(sent.iter().map(|e| e.target).collect::<Vec<_>>(), vec![1, 3]);
    assert!(sent.iter().all(|e| e.path == vec![7] && !e.returning && e.distance == 0));
}

#[test]
fn returning_packet_shrinks_path_until_home() {
    let mut p = Energy { target: 1, travelled: 0, path: vec![0, 1, 2], returning: true, distance: 10 };
    let mut arrivals = 0;
    loop {
        arrivals += 1;
        let len = p.path.len();
        let at = p.target;
        match retrace(p, at, 0, 1_000_000) {
            Retrace::Onward(q) => {
                assert!(q.returning);
                assert_eq!(q.path.len(), len - 1);
                assert_eq!(q.travelled, 0);
                p = q;
            }
            Retrace::Home => break,
            Retrace::Lost => panic!("certain propagation never loses a packet"),
        }
        assert!(arrivals <= 3);
    }
    assert!(arrivals <= 3);
}

#[test]
fn retrace_heads_for_previous_node() {
    let p = Energy { target: 4, travelled: 9, path: vec![2, 3, 5], returning: true, distance: 10 };
    match retrace(p, 4, 0, 500_000) {
        Retrace::Onward(q) => {
            assert_eq!(q.target, 3);
            assert_eq!(q.path, vec![2, 4]);
            assert_eq!(q.distance, 10);
        }
        _ => panic!("expected the packet to go on"),
    }
    let p = Energy { target: 4, travelled: 9, path: vec![2, 3], returning: true, distance: 10 };
    assert!(matches!(retrace(p, 4, 500_000, 500_000), Retrace::Lost));
    let p = Energy { target: 4, travelled: 9, path: vec![3], returning: true, distance: 10 };
    assert!(matches!(retrace(p, 4, 0, 0), Retrace::Home));
}

#[test]
fn movement_is_clamped_to_edge() {
    assert_eq!(SPEED, 500);
    assert_eq!(travel_distance(1000), 500_000);
    assert_eq!(travel_distance(16), 8_000);
    assert_eq!(travel_distance(15), 7_500);
    assert_eq!(travel_distance(1), 500);
    assert_eq!(advance(0, 100, 8), 8);
    assert_eq!(advance(95, 100, 8), 100);
    assert_eq!(advance(0, 0, 0), 0);
    assert_eq!(add_distance(5, 7), 12);
    assert_eq!(add_distance(u64::MAX - 1, 7), u64::MAX);
}

#[test]
fn delivery_is_clamped_to_cap() {
    assert_eq!(deliver(0, 1000, 100, 1_500_000), 100_000);
    assert_eq!(deliver(1_450_000, 1000, 100, 1_500_000), 1_500_000);
    assert_eq!(deliver(1_500_000, 0, 100, 1_500_000), 1_500_000);
    assert_eq!(deliver(7, u64::MAX, u64::MAX, 1_500_000), 1_500_000);
}

#[test]
fn step_on_graph_branches_forward_only() {
    let mut g = LinkGraph::new(3);
    let a = g.add_node(Pos { x: 0, y: 0 });
    let b = g.add_node(Pos { x: 300, y: 400 });
    let c = g.add_node(Pos { x: 600, y: 800 });
    assert!(g.try_link(a, b));
    assert!(g.try_link(b, c));
    let p = forward(vec![a], b, 0);
    // Halfway along the 500-unit edge (progress in thousandths): still moving.
    let (moving, home) = step_packet(&g, &p, 250_000, &vec![0, 0], 1_000_000, 0);
    assert!(home.is_none());
    assert_eq!(moving.len(), 1);
    assert_eq!(moving[0].travelled, 250_000);
    assert_eq!(moving[0].distance, 0);
    // Arrival: one forward child towards C, none reflected towards A.
    let (children, home) = step_packet(&g, &moving[0], 250_000, &vec![0, 0], 1_000_000, 0);
    assert!(home.is_none());
    assert_eq!(children.len(), 1);
    assert_eq!(children[0].target, c);
    assert!(!children[0].returning);
    assert_eq!(children[0].path, vec![a, b]);
    assert_eq!(children[0].distance, 500);
}

#[test]
fn step_home_reports_delivery_point() {
    let mut g = LinkGraph::new(3);
    let a = g.add_node(Pos { x: 0, y: 0 });
    let b = g.add_node(Pos { x: 30, y: 40 });
    assert!(g.try_link(a, b));
    let p = Energy { target: a, travelled: 0, path: vec![a], returning: true, distance: 100 };
    let (out, home) = step_packet(&g, &p, 1, &vec![999_999], 0, 0);
    assert!(out.is_empty());
    assert_eq!(home, Some((a, 100)));
    let p = Energy { target: a, travelled: 0, path: vec![a, b], returning: true, distance: 100 };
    let (out, home) = step_packet(&g, &p, 50_000, &vec![0], 1_000_000, 0);
    assert_eq!(home, None);
    assert_eq!(out.len(), 1);
    assert_eq!(out[0].target, a);
    assert_eq!(out[0].path, vec![a]);
    assert_eq!(out[0].distance, 150);
}

#[test]
fn one_millisecond_ticks_still_move_packets() {
    let mut g = LinkGraph::new(3);
    let a = g.add_node(Pos { x: 0, y: 0 });
    let b = g.add_node(Pos { x: 0, y: 1 });
    assert!(g.try_link(a, b));
    let mut p = forward(vec![a], b, 0);
    // A 1-unit edge at 500 units per second takes 2 ms.
    let (out, _) = step_packet(&g, &p, travel_distance(1), &vec![999_999], 1_000_000, 0);
    assert_eq!(out.len(), 1);
    assert_eq!(out[0].travelled, 500);
    p = Energy { travelled: out[0].travelled, path: out[0].path.clone(), ..p };
    let (out, _) = step_packet(&g, &p, travel_distance(1), &vec![999_999], 1_000_000, 0);
    // Arrived at B, whose only neighbour is A, back the way it came: no reflection.
    assert!(out.is_empty());
}
