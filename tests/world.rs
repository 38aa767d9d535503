use lumina::chance::{roll, roll_offset, PPM};
use lumina::geometry::{
    chunk_of, dist_sq, edge_length, isqrt, neighborhood, ChunkCoord, Pos, CHUNK_SIZE,
};
use lumina::worldgen::{
    cell_dist_sq, draw_cells, generate_chunk, generate_chunk_with, CellDraw, CELL_COUNT, JITTER,
};

fn thresholds_for(c: ChunkCoord, decay: f64) -> Vec<u32> {
    (0..CELL_COUNT)
        .map(|i| {
            let d = (cell_dist_sq(c, i) as f64).sqrt();
            (((-decay * d).exp() * 0.8 + 0.01) * PPM as f64).round() as u32
        })
        .collect()
}

fn quiet_draws() -> Vec<CellDraw> {
    vec![CellDraw { sample: PPM - 1, jitter_x: 0, jitter_y: 0 }; CELL_COUNT]
}

#[test]
fn origin_chunk_spawns_at_chosen_cells() {
    let c = ChunkCoord { x: 0, y: 0 };
    let thresholds = thresholds_for(c, 0.2);
    let mut draws = quiet_draws();
    draws[0] = CellDraw { sample: 0, jitter_x: 10, jitter_y: -20 };
    draws[55] = CellDraw { sample: 0, jitter_x: 150, jitter_y: -199 };
    let nodes = generate_chunk_with(c, &thresholds, &draws);
    assert_eq!(nodes, vec![Pos { x: 260, y: 230 }, Pos { x: 2900, y: 2551 }]);
}

#[test]
fn spawn_threshold_is_strict() {
    let c = ChunkCoord { x: 0, y: 0 };
    let thresholds = vec![500_000u32; CELL_COUNT];
    let mut draws = quiet_draws();
    draws[3] = CellDraw { sample: 500_000, jitter_x: 0, jitter_y: 0 };
    draws[4] = CellDraw { sample: 499_999, jitter_x: 0, jitter_y: 0 };
    let nodes = generate_chunk_with(c, &thresholds, &draws);
    assert_eq!(nodes, vec![Pos { x: 250, y: 2250 }]);
}

#[test]
fn negative_chunk_places_nodes_inside_it() {
    let c = ChunkCoord { x: -2, y: 3 };
    let thresholds = vec![PPM; CELL_COUNT];
    let draws = vec![CellDraw { sample: 0, jitter_x: -JITTER, jitter_y: JITTER - 1 }; CELL_COUNT];
    let nodes = generate_chunk_with(c, &thresholds, &draws);
    assert_eq!(nodes.len(), CELL_COUNT);
    assert_eq!(nodes[0], Pos { x: -10000 + 250 - 200, y: 15000 + 250 + 199 });
    for p in &nodes {
        assert_eq!(chunk_of(*p), c);
    }
}

#[test]
fn generated_chunk_stays_in_its_cells() {
    let c = ChunkCoord { x: 1, y: -1 };
    let thresholds = vec![PPM; CELL_COUNT];
    let nodes = generate_chunk(c, &thresholds);
    assert_eq!(nodes.len(), CELL_COUNT);
    for (i, p) in nodes.iter().enumerate() {
        let cx = 5000 + (i as i64 / 10) * 500 + 250;
        let cy = -5000 + (i as i64 % 10) * 500 + 250;
        assert!(p.x >= cx - JITTER && p.x < cx + JITTER);
        assert!(p.y >= cy - JITTER && p.y < cy + JITTER);
    }
}

#[test]
fn far_chunks_are_sparser() {
    let near = thresholds_for(ChunkCoord { x: 0, y: 0 }, 0.2);
    let far = thresholds_for(ChunkCoord { x: 20, y: 20 }, 0.2);
    assert_eq!(near[0], 810_000);
    assert!(far.iter().all(|t| *t == 10_000));
}

#[test]
fn cell_distances() {
    assert_eq!(cell_dist_sq(ChunkCoord { x: 0, y: 0 }, 55), 50);
    assert_eq!(cell_dist_sq(ChunkCoord { x: -1, y: 0 }, 0), 100);
    assert_eq!(cell_dist_sq(ChunkCoord { x: 1, y: 2 }, 34), 13 * 13 + 24 * 24);
}

#[test]
fn draws_are_in_range() {
    let draws = draw_cells();
    assert_eq!(draws.len(), CELL_COUNT);
    for d in draws {
        assert!(d.sample < PPM);
        assert!(d.jitter_x >= -JITTER && d.jitter_x < JITTER);
        assert!(d.jitter_y >= -JITTER && d.jitter_y < JITTER);
    }
    for _ in 0..1000 {
        assert!(roll() < PPM);
        let o = roll_offset(3);
        assert!((-3..3).contains(&o));
    }
}

#[test]
fn chunk_of_rounds_down() {
    assert_eq!(chunk_of(Pos { x: 0, y: 4999 }), ChunkCoord { x: 0, y: 0 });
    assert_eq!(chunk_of(Pos { x: 5000, y: -1 }), ChunkCoord { x: 1, y: -1 });
    assert_eq!(chunk_of(Pos { x: -5000, y: -5001 }), ChunkCoord { x: -1, y: -2 });
    assert_eq!(CHUNK_SIZE, 5000);
}

#[test]
fn neighborhood_is_three_by_three() {
    let nb = neighborhood(ChunkCoord { x: 4, y: -7 });
    assert_eq!(nb.len(), 9);
    assert_eq!(nb[0], ChunkCoord { x: 3, y: -8 });
    assert_eq!(nb[1], ChunkCoord { x: 3, y: -7 });
    assert_eq!(nb[4], ChunkCoord { x: 4, y: -7 });
    assert_eq!(nb[8], ChunkCoord { x: 5, y: -6 });
}

#[test]
fn distances_and_square_roots() {
    let a = Pos { x: -3, y: 4 };
    let b = Pos { x: 0, y: 0 };
    assert_eq!(dist_sq(a, b), 25);
    assert_eq!(edge_length(a, b), 5);
    assert_eq!(edge_length(a, a), 0);
    assert_eq!(edge_length(Pos { x: 0, y: 0 }, Pos { x: 1, y: 1 }), 1);
    assert_eq!(isqrt(0), 0);
    assert_eq!(isqrt(99), 9);
    assert_eq!(isqrt(100), 10);
    assert_eq!(isqrt(1u128 << 90), 1u64 << 45);
}
