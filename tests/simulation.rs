use lumina::attach::{attachment_transition, Attached, AttachedChange};
use lumina::chance::PPM;
use lumina::geometry::{ChunkCoord, Pos};
use lumina::sim::{Scaling, Simulation};
use lumina::worldgen::{CellDraw, CELL_COUNT};

fn quiet_scaling() -> Scaling {
    Scaling { generation_per_sec: 0, ..Scaling::default() }
}

/// A run whose chunk (0, 0) holds nodes exactly at the centres of `cells`.
fn run_with_cells(scaling: Scaling, cells: &[usize]) -> Simulation {
    let mut sim = Simulation::new(scaling, 1000);
    let thresholds = vec![PPM - 1; CELL_COUNT];
    let mut draws = vec![CellDraw { sample: PPM - 1, jitter_x: 0, jitter_y: 0 }; CELL_COUNT];
    for &c in cells {
        draws[c].sample = 0;
    }
    assert!(sim.populate_chunk_with(ChunkCoord { x: 0, y: 0 }, &thresholds, &draws));
    sim
}

#[test]
fn attachment_follows_the_agent() {
    // X at the centre of cell 0, Y at the centre of cell 1.
    let mut sim = run_with_cells(quiet_scaling(), &[0, 1]);
    let (x, y) = (0usize, 1usize);
    assert_eq!(sim.graph().position(x), Pos { x: 250, y: 250 });
    assert_eq!(sim.graph().position(y), Pos { x: 250, y: 750 });

    // First attach: no event.
    assert_eq!(sim.tick(Pos { x: 250, y: 260 }, 16), None);
    assert_eq!(sim.attached(), Some(Attached { lumina: x, in_range: true }));

    // Moving next to Y fires exactly one event, and links X and Y.
    assert_eq!(sim.tick(Pos { x: 250, y: 740 }, 16), Some(AttachedChange { from: x, to: y }));
    assert_eq!(sim.attached(), Some(Attached { lumina: y, in_range: true }));
    assert_eq!(sim.graph().targets(x), &vec![y]);
    assert_eq!(sim.tick(Pos { x: 250, y: 745 }, 16), None);

    // Heading back towards X without reaching its attach distance: no event,
    // the attachment stays on Y, out of range.
    assert_eq!(sim.tick(Pos { x: 250, y: 400 }, 16), None);
    assert_eq!(sim.attached(), Some(Attached { lumina: y, in_range: false }));
    assert_eq!(sim.tick(Pos { x: 250, y: 380 }, 16), None);
    assert_eq!(sim.attached(), Some(Attached { lumina: y, in_range: false }));
    assert_eq!(sim.graph().network_size(), 2);
}

#[test]
fn nearby_nodes_are_tracked() {
    let mut sim = run_with_cells(quiet_scaling(), &[0, 1, 2]);
    sim.tick(Pos { x: 250, y: 500 }, 16);
    assert_eq!(sim.nearby(), &vec![0, 1]);
    assert_eq!(sim.attached(), None);
    sim.tick(Pos { x: 250, y: 1250 }, 16);
    assert_eq!(sim.nearby(), &vec![2]);
    assert_eq!(sim.attached(), Some(Attached { lumina: 2, in_range: true }));
}

#[test]
fn ties_go_to_the_first_node_scanned() {
    let mut sim = Simulation::new(quiet_scaling(), 0);
    let thresholds = vec![1; CELL_COUNT];
    let mut draws = vec![CellDraw { sample: 1, jitter_x: 0, jitter_y: 0 }; CELL_COUNT];
    draws[0] = CellDraw { sample: 0, jitter_x: 0, jitter_y: 199 };
    draws[1] = CellDraw { sample: 0, jitter_x: 0, jitter_y: -199 };
    assert!(sim.populate_chunk_with(ChunkCoord { x: 0, y: 0 }, &thresholds, &draws));
    assert_eq!(sim.graph().position(0), Pos { x: 250, y: 449 });
    assert_eq!(sim.graph().position(1), Pos { x: 250, y: 551 });
    assert_eq!(sim.tick(Pos { x: 250, y: 500 }, 0), None);
    assert_eq!(sim.attached(), Some(Attached { lumina: 0, in_range: true }));
    assert_eq!(sim.tick(Pos { x: 250, y: 501 }, 0), Some(AttachedChange { from: 0, to: 1 }));
}

#[test]
fn attachment_rules() {
    let a = Attached { lumina: 3, in_range: true };
    let out = Attached { lumina: 3, in_range: false };
    assert_eq!(attachment_transition(None, None), (None, None));
    assert_eq!(attachment_transition(Some(a), None), (Some(out), None));
    assert_eq!(attachment_transition(Some(out), None), (Some(out), None));
    assert_eq!(attachment_transition(Some(out), Some(3)), (Some(a), None));
    assert_eq!(
        attachment_transition(Some(out), Some(4)),
        (Some(Attached { lumina: 4, in_range: true }), Some(AttachedChange { from: 3, to: 4 }))
    );
}

#[test]
fn chunk_is_populated_once() {
    let mut sim = Simulation::new(quiet_scaling(), 0);
    let c = ChunkCoord { x: 0, y: 0 };
    let thresholds = vec![PPM; CELL_COUNT];
    let draws = vec![CellDraw { sample: 0, jitter_x: 0, jitter_y: 0 }; CELL_COUNT];
    assert!(!sim.is_created(c));
    assert!(sim.populate_chunk_with(c, &thresholds, &draws));
    assert_eq!(sim.node_count(), CELL_COUNT);
    assert!(!sim.populate_chunk_with(c, &thresholds, &draws));
    assert!(!sim.populate_chunk(c, &thresholds));
    assert_eq!(sim.node_count(), CELL_COUNT);
    assert!(sim.is_created(c));
}

#[test]
fn missing_chunks_shrink_as_chunks_are_made() {
    let mut sim = Simulation::new(quiet_scaling(), 0);
    let ship = Pos { x: 100, y: -100 };
    let missing = sim.missing_chunks(ship);
    assert_eq!(missing.len(), 9);
    assert_eq!(missing[0], ChunkCoord { x: -1, y: -2 });
    assert_eq!(missing[8], ChunkCoord { x: 1, y: 0 });
    let thresholds = vec![0u32; CELL_COUNT];
    for c in &missing {
        assert!(sim.populate_chunk(*c, &thresholds));
    }
    assert_eq!(sim.node_count(), 0);
    assert!(sim.missing_chunks(ship).is_empty());
    assert_eq!(sim.missing_chunks(Pos { x: 5100, y: -100 }).len(), 3);
}

#[test]
fn energy_never_exceeds_cap() {
    let scaling = Scaling {
        generation_per_sec: 1_000_000,
        propagation_probability: 1_000_000,
        reflection_probability: 1_000_000,
        lumina_cooldown_per_generation: 0,
        energy_extraction: 1_000_000,
        max_battery: 2000,
        max_capacitor: 500,
        ..Scaling::default()
    };
    let mut sim = run_with_cells(scaling, &[0, 1]);
    sim.tick(Pos { x: 250, y: 250 }, 0);
    sim.tick(Pos { x: 250, y: 740 }, 0);
    let mut last = sim.energy();
    for _ in 0..400 {
        sim.tick(Pos { x: 250, y: 745 }, 50);
        assert!(sim.energy() >= last);
        assert!(sim.energy() <= 2500);
        last = sim.energy();
    }
    assert_eq!(sim.energy(), 2500);
}

#[test]
fn packet_travels_and_reflects_home() {
    // Certain generation towards X, then certain reflection back to Y.
    let scaling = Scaling {
        generation_per_sec: 1_000_000,
        propagation_probability: 1_000_000,
        reflection_probability: 1_000_000,
        lumina_cooldown_per_generation: 1_000_000,
        lumina_resume_per_sec: 0,
        energy_extraction: 100,
        ..Scaling::default()
    };
    let mut sim = run_with_cells(scaling, &[0, 1]);
    sim.tick(Pos { x: 250, y: 250 }, 0);
    sim.tick(Pos { x: 250, y: 740 }, 0);
    assert!(sim.packets().is_empty());
    // Y is linked to X: a second of contact sends one packet and cools Y down.
    sim.tick(Pos { x: 250, y: 745 }, 1000);
    assert!(sim.graph().is_cooldown(1));
    let start = sim.energy();
    // X and Y are 500 apart: the packet arrives after a second, reflects,
    // and returns home after another.
    for _ in 0..4 {
        sim.tick(Pos { x: 250, y: 745 }, 1000);
    }
    assert_eq!(sim.energy(), start + 1000 * 100);
    assert!(sim.packets().is_empty());
    // The attached node never recovers while attached.
    assert!(sim.graph().is_cooldown(1));
}

#[test]
fn spending_stops_at_zero() {
    let mut sim = Simulation::new(Scaling::default(), 300);
    sim.spend_energy(100);
    assert_eq!(sim.energy(), 200);
    sim.spend_energy(1000);
    assert_eq!(sim.energy(), 0);
}

#[test]
fn default_scaling() {
    let s = Scaling::default();
    assert_eq!(s.max_links, 3);
    assert_eq!(s.reflection_probability, 500_000);
    assert_eq!(s.energy_cap_value(), 1_500_000);
}

#[test]
fn generation_with_draws() {
    let scaling = Scaling { generation_per_sec: 500_000, lumina_cooldown_per_generation: 300_000, ..quiet_scaling() };
    let mut sim = run_with_cells(scaling, &[0, 1, 2]);
    sim.tick(Pos { x: 250, y: 750 }, 0);
    sim.tick(Pos { x: 250, y: 250 }, 0);
    sim.tick(Pos { x: 250, y: 750 }, 0);
    sim.tick(Pos { x: 250, y: 1250 }, 0);
    sim.tick(Pos { x: 250, y: 750 }, 0);
    // Y (node 1) is attached and linked to X and Z; 100 ms gives a 5% chance.
    assert_eq!(sim.graph().targets(1).len(), 2);
    sim.generate_packets_with(100, &vec![50_000, 49_999], 300_000);
    assert_eq!(sim.packets().len(), 1);
    assert!(!sim.graph().is_cooldown(1));
    sim.generate_packets_with(100, &vec![0, 0], 299_999);
    assert_eq!(sim.packets().len(), 3);
    assert!(sim.graph().is_cooldown(1));
    // A node in cooldown generates nothing.
    sim.generate_packets_with(100, &vec![0, 0], 0);
    assert_eq!(sim.packets().len(), 3);
}

#[test]
fn no_packet_means_no_cooldown() {
    let scaling = Scaling { generation_per_sec: 500_000, lumina_cooldown_per_generation: 1_000_000, ..quiet_scaling() };
    let mut sim = run_with_cells(scaling, &[0, 1]);
    sim.tick(Pos { x: 250, y: 250 }, 0);
    sim.tick(Pos { x: 250, y: 750 }, 0);
    sim.generate_packets_with(100, &vec![PPM - 1], 0);
    assert!(sim.packets().is_empty());
    assert!(!sim.graph().is_cooldown(1));
}

#[test]
fn recovery_with_draws() {
    let scaling = Scaling { generation_per_sec: 1_000_000, lumina_cooldown_per_generation: 1_000_000, lumina_resume_per_sec: 100_000, ..quiet_scaling() };
    let mut sim = run_with_cells(scaling, &[0, 1]);
    sim.tick(Pos { x: 250, y: 250 }, 0);
    sim.tick(Pos { x: 250, y: 750 }, 0);
    sim.generate_packets_with(1000, &vec![0], 0);
    assert!(sim.graph().is_cooldown(1));
    // Attached: never recovers, whatever the draw.
    sim.resume_nodes_with(1000, &vec![PPM - 1, 0]);
    assert!(sim.graph().is_cooldown(1));
    // Leave Y: recovers when its draw is below 10% of a million in one second.
    sim.tick(Pos { x: 250, y: 250 }, 0);
    sim.resume_nodes_with(1000, &vec![0, 100_000]);
    assert!(sim.graph().is_cooldown(1));
    sim.resume_nodes_with(1000, &vec![0, 99_999]);
    assert!(!sim.graph().is_cooldown(1));
}

#[test]
fn populating_several_chunks() {
    let mut sim = Simulation::new(quiet_scaling(), 0);
    let ship = Pos { x: 0, y: 0 };
    let missing = sim.missing_chunks(ship);
    let thresholds = vec![vec![PPM; CELL_COUNT]; missing.len()];
    sim.populate_chunks(&missing, &thresholds);
    assert_eq!(sim.node_count(), 9 * CELL_COUNT);
    assert!(sim.missing_chunks(ship).is_empty());
    // Again: created chunks are left alone.
    sim.populate_chunks(&missing, &thresholds);
    assert_eq!(sim.node_count(), 9 * CELL_COUNT);
}
