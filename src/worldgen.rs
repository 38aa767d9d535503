//! World generation: which cells of a chunk hold a node, and where.
//!
//! Each cell's spawn threshold (a probability in parts per million that
//! decays with the cell's distance from the origin) is given by the caller;
//! a cell spawns a node when its sample is below its threshold.

use vstd::prelude::*;
use crate::chance::{PPM, roll, roll_offset};
use crate::geometry::{CHUNK_SIZE, ChunkCoord, POS_LIMIT, Pos};

verus! {

/// Cells along each side of a chunk.
pub const CELLS_PER_CHUNK: usize = 10;

/// Cells in a chunk.
pub const CELL_COUNT: usize = 100;

/// Side length of a cell, in world units.
pub const CELL_SIZE: i64 = 500;

/// A node lies at most this far from its cell's centre on each axis (40% of a cell).
pub const JITTER: i64 = 200;

/// The random values spent on one cell: the spawn sample and the jitter of
/// the node on each axis.
#[derive(Clone, Copy, Debug, PartialEq, Eq, Structural)]
pub struct CellDraw {
    pub sample: u32,
    pub jitter_x: i64,
    pub jitter_y: i64,
}

impl CellDraw {
    pub open spec fn wf(self) -> bool {
        &&& self.sample < PPM
        &&& -JITTER <= self.jitter_x < JITTER
        &&& -JITTER <= self.jitter_y < JITTER
    }
}

/// Cells are numbered column by column: cell `i` is column `i / 10`, row `i % 10`.
pub open spec fn cell_column(i: int) -> int {
    i / CELLS_PER_CHUNK as int
}

pub open spec fn cell_row(i: int) -> int {
    i % CELLS_PER_CHUNK as int
}

/// Global coordinate, in cells, of cell `i` of chunk `c`.
pub open spec fn global_cell_spec(c: ChunkCoord, i: int) -> (int, int) {
    (
        c.x * CELLS_PER_CHUNK as int + cell_column(i),
        c.y * CELLS_PER_CHUNK as int + cell_row(i),
    )
}

/// Where the node of cell `i` of chunk `c` stands, given its draw.
pub open spec fn cell_position_spec(c: ChunkCoord, i: int, d: CellDraw) -> Pos {
    Pos {
        x: (c.x * CHUNK_SIZE + cell_column(i) * CELL_SIZE + CELL_SIZE / 2 + d.jitter_x) as i64,
        y: (c.y * CHUNK_SIZE + cell_row(i) * CELL_SIZE + CELL_SIZE / 2 + d.jitter_y) as i64,
    }
}

/// A cell spawns a node when its sample is below its threshold.
pub open spec fn spawns(thresholds: Seq<u32>, draws: Seq<CellDraw>, i: int) -> bool {
    draws[i].sample < thresholds[i]
}

/// The nodes placed by the first `n` cells, in cell order.
pub open spec fn placements(c: ChunkCoord, thresholds: Seq<u32>, draws: Seq<CellDraw>, n: nat) -> Seq<Pos>
    decreases n,
{
    if n == 0 {
        Seq::empty()
    } else {
        let prev = placements(c, thresholds, draws, (n - 1) as nat);
        if spawns(thresholds, draws, n - 1) {
            prev.push(cell_position_spec(c, n - 1, draws[n - 1]))
        } else {
            prev
        }
    }
}

/// Squared distance, in cells, of cell `i` of chunk `c` from the origin. The
/// spawn threshold of a cell is a function of this distance.
pub fn cell_dist_sq(c: ChunkCoord, i: usize) -> (r: u128)
    requires
        i < CELL_COUNT,
    ensures
        r == global_cell_spec(c, i as int).0 * global_cell_spec(c, i as int).0
            + global_cell_spec(c, i as int).1 * global_cell_spec(c, i as int).1,
{
    let gx: i64 = c.x as i64 * 10 + (i / CELLS_PER_CHUNK) as i64;
    let gy: i64 = c.y as i64 * 10 + (i % CELLS_PER_CHUNK) as i64;
    let ax: u128 = if gx >= 0 { gx as u128 } else { (-gx) as u128 };
    let ay: u128 = if gy >= 0 { gy as u128 } else { (-gy) as u128 };
    assert(ax * ax <= 0x1000000000 * 0x1000000000) by (nonlinear_arith)
        requires ax <= 0x1000000000;
    assert(ay * ay <= 0x1000000000 * 0x1000000000) by (nonlinear_arith)
        requires ay <= 0x1000000000;
    assert(ax * ax == gx * gx) by (nonlinear_arith)
        requires ax == gx || ax == -gx;
    assert(ay * ay == gy * gy) by (nonlinear_arith)
        requires ay == gy || ay == -gy;
    ax * ax + ay * ay
}

proof fn lemma_cell_position_in_bounds(c: ChunkCoord, i: int, d: CellDraw)
    requires
        0 <= i < CELL_COUNT,
        d.wf(),
    ensures
        cell_position_spec(c, i, d).in_bounds(),
        cell_position_spec(c, i, d).x as int
            == c.x * CHUNK_SIZE + cell_column(i) * CELL_SIZE + CELL_SIZE / 2 + d.jitter_x,
        cell_position_spec(c, i, d).y as int
            == c.y * CHUNK_SIZE + cell_row(i) * CELL_SIZE + CELL_SIZE / 2 + d.jitter_y,
{
    assert(-0x80000000 * 5000 <= c.x * CHUNK_SIZE <= 0x7fffffff * 5000) by (nonlinear_arith)
        requires -0x80000000 <= c.x <= 0x7fffffff, CHUNK_SIZE == 5000;
    assert(-0x80000000 * 5000 <= c.y * CHUNK_SIZE <= 0x7fffffff * 5000) by (nonlinear_arith)
        requires -0x80000000 <= c.y <= 0x7fffffff, CHUNK_SIZE == 5000;
}

/// A chunk holds at most one node per cell, every one in bounds.
pub proof fn lemma_placements_in_bounds(c: ChunkCoord, thresholds: Seq<u32>, draws: Seq<CellDraw>, n: nat)
    requires
        n <= CELL_COUNT,
        draws.len() >= n,
        forall|k: int| 0 <= k < draws.len() ==> (#[trigger] draws[k]).wf(),
    ensures
        placements(c, thresholds, draws, n).len() <= n,
        forall|k: int|
            0 <= k < placements(c, thresholds, draws, n).len()
                ==> (#[trigger] placements(c, thresholds, draws, n)[k]).in_bounds(),
    decreases n,
{
    if n > 0 {
        lemma_placements_in_bounds(c, thresholds, draws, (n - 1) as nat);
        lemma_cell_position_in_bounds(c, n - 1, draws[n - 1]);
    }
}

/// Places the nodes of chunk `c`: cell `i` holds a node when
/// `draws[i].sample < thresholds[i]`, at its centre moved by the draw's jitter.
pub fn generate_chunk_with(c: ChunkCoord, thresholds: &Vec<u32>, draws: &Vec<CellDraw>) -> (r: Vec<Pos>)
    requires
        thresholds.len() == CELL_COUNT,
        draws.len() == CELL_COUNT,
        forall|k: int| 0 <= k < draws.len() ==> (#[trigger] draws@[k]).wf(),
    ensures
        r@ == placements(c, thresholds@, draws@, CELL_COUNT as nat),
        r.len() <= CELL_COUNT,
        forall|k: int| 0 <= k < r.len() ==> (#[trigger] r@[k]).in_bounds(),
{
    let mut r: Vec<Pos> = Vec::new();
    let mut i: usize = 0;
    while i < CELL_COUNT
        invariant
            i <= CELL_COUNT,
            thresholds.len() == CELL_COUNT,
            draws.len() == CELL_COUNT,
            forall|k: int| 0 <= k < draws.len() ==> (#[trigger] draws@[k]).wf(),
            r@ == placements(c, thresholds@, draws@, i as nat),
        decreases CELL_COUNT - i,
    {
        let d = draws[i];
        if d.sample < thresholds[i] {
            proof {
                lemma_cell_position_in_bounds(c, i as int, d);
            }
            let column: i64 = (i / CELLS_PER_CHUNK) as i64;
            let row: i64 = (i % CELLS_PER_CHUNK) as i64;
            let x: i64 = c.x as i64 * CHUNK_SIZE + column * CELL_SIZE + CELL_SIZE / 2 + d.jitter_x;
            let y: i64 = c.y as i64 * CHUNK_SIZE + row * CELL_SIZE + CELL_SIZE / 2 + d.jitter_y;
            r.push(Pos { x, y });
        }
        i = i + 1;
    }
    proof {
        lemma_placements_in_bounds(c, thresholds@, draws@, CELL_COUNT as nat);
    }
    r
}

/// Draws the random values of every cell of a chunk.
pub fn draw_cells() -> (r: Vec<CellDraw>)
    ensures
        r.len() == CELL_COUNT,
        forall|k: int| 0 <= k < r.len() ==> (#[trigger] r@[k]).wf(),
{
    let mut r: Vec<CellDraw> = Vec::new();
    let mut i: usize = 0;
    while i < CELL_COUNT
        invariant
            i <= CELL_COUNT,
            r.len() == i,
            forall|k: int| 0 <= k < r.len() ==> (#[trigger] r@[k]).wf(),
        decreases CELL_COUNT - i,
    {
        let sample = roll();
        let jitter_x = roll_offset(JITTER as u32);
        let jitter_y = roll_offset(JITTER as u32);
        r.push(CellDraw { sample, jitter_x, jitter_y });
        i = i + 1;
    }
    r
}

/// Places the nodes of chunk `c` with fresh random draws: the result is the
/// placement of `generate_chunk_with` for some well-formed draws.
pub fn generate_chunk(c: ChunkCoord, thresholds: &Vec<u32>) -> (r: Vec<Pos>)
    requires
        thresholds.len() == CELL_COUNT,
    ensures
        exists|draws: Seq<CellDraw>|
            {
                &&& draws.len() == CELL_COUNT
                &&& forall|k: int| 0 <= k < draws.len() ==> (#[trigger] draws[k]).wf()
                &&& r@ == placements(c, thresholds@, draws, CELL_COUNT as nat)
            },
        r.len() <= CELL_COUNT,
        forall|k: int| 0 <= k < r.len() ==> (#[trigger] r@[k]).in_bounds(),
{
    let draws = draw_cells();
    generate_chunk_with(c, thresholds, &draws)
}

} // verus!
