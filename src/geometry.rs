//! Points, chunks and distances in integer world units.

use vstd::prelude::*;

verus! {

/// Side length of a chunk, in world units.
pub const CHUNK_SIZE: i64 = 5000;

/// Every position handled by the library lies in `[-POS_LIMIT, POS_LIMIT]` on
/// both axes; this covers every cell of every chunk with an `i32` coordinate.
pub const POS_LIMIT: i64 = 17592186044416;

/// The agent roams within `[-AGENT_LIMIT, AGENT_LIMIT]` on both axes, so that
/// the chunk around it and its neighbours have `i32` coordinates.
pub const AGENT_LIMIT: i64 = 1099511627776;

/// Bound on the chunk coordinates that the agent can reach.
pub const CHUNK_LIMIT: i32 = 219902326;

/// A point of the plane in world units.
#[derive(Clone, Copy, Debug, PartialEq, Eq, Structural)]
pub struct Pos {
    pub x: i64,
    pub y: i64,
}

/// The integer coordinate of a chunk.
#[derive(Clone, Copy, Debug, PartialEq, Eq, Structural)]
pub struct ChunkCoord {
    pub x: i32,
    pub y: i32,
}

impl Pos {
    pub open spec fn in_bounds(self) -> bool {
        -POS_LIMIT <= self.x <= POS_LIMIT && -POS_LIMIT <= self.y <= POS_LIMIT
    }

    pub open spec fn agent_in_bounds(self) -> bool {
        -AGENT_LIMIT <= self.x <= AGENT_LIMIT && -AGENT_LIMIT <= self.y <= AGENT_LIMIT
    }
}

/// Squared Euclidean distance between two points.
pub open spec fn dist_sq_spec(a: Pos, b: Pos) -> int {
    (a.x - b.x) * (a.x - b.x) + (a.y - b.y) * (a.y - b.y)
}

/// `r` is the integer square root of `n`, rounded down.
pub open spec fn is_floor_sqrt(r: int, n: int) -> bool {
    0 <= r && r * r <= n < (r + 1) * (r + 1)
}

/// The integer square root of `n`, rounded down.
pub open spec fn floor_sqrt(n: int) -> int {
    choose|r: int| is_floor_sqrt(r, n)
}

/// The rounded-down square root is unique, so `floor_sqrt` names it.
pub proof fn lemma_floor_sqrt_unique(r: int, n: int)
    requires
        is_floor_sqrt(r, n),
    ensures
        floor_sqrt(n) == r,
{
    let s = floor_sqrt(n);
    assert(is_floor_sqrt(s, n));
    if s < r {
        assert((s + 1) * (s + 1) <= r * r) by (nonlinear_arith)
            requires 0 <= s, s + 1 <= r;
    } else if s > r {
        assert((r + 1) * (r + 1) <= s * s) by (nonlinear_arith)
            requires 0 <= r, r + 1 <= s;
    }
}

/// The chunk that holds a position: floor division of each axis by the chunk size.
pub open spec fn chunk_of_spec(p: Pos) -> (int, int) {
    (p.x as int / CHUNK_SIZE as int, p.y as int / CHUNK_SIZE as int)
}

/// The chunk that holds a position in the agent's range.
pub open spec fn chunk_at(p: Pos) -> ChunkCoord {
    ChunkCoord { x: chunk_of_spec(p).0 as i32, y: chunk_of_spec(p).1 as i32 }
}

/// The 3x3 block of chunks around `c`, column by column: entry `i` is offset
/// by `i / 3 - 1` on the x axis and `i % 3 - 1` on the y axis.
pub open spec fn neighborhood_spec(c: ChunkCoord) -> Seq<ChunkCoord> {
    Seq::new(9, |i: int| ChunkCoord { x: (c.x + i / 3 - 1) as i32, y: (c.y + i % 3 - 1) as i32 })
}

pub open spec fn coord_spec(c: ChunkCoord) -> (int, int) {
    (c.x as int, c.y as int)
}

fn abs_diff(a: i64, b: i64) -> (r: u128)
    requires
        -POS_LIMIT <= a <= POS_LIMIT,
        -POS_LIMIT <= b <= POS_LIMIT,
    ensures
        r as int == if a >= b { a - b } else { b - a },
        r <= 2 * POS_LIMIT,
{
    if a >= b {
        (a - b) as u128
    } else {
        (b - a) as u128
    }
}

/// Squared distance between two points in bounds.
pub fn dist_sq(a: Pos, b: Pos) -> (r: u128)
    requires
        a.in_bounds(),
        b.in_bounds(),
    ensures
        r as int == dist_sq_spec(a, b),
{
    let dx = abs_diff(a.x, b.x);
    let dy = abs_diff(a.y, b.y);
    assert(dx * dx <= 2 * POS_LIMIT * (2 * POS_LIMIT)) by (nonlinear_arith)
        requires dx <= 2 * POS_LIMIT;
    assert(dy * dy <= 2 * POS_LIMIT * (2 * POS_LIMIT)) by (nonlinear_arith)
        requires dy <= 2 * POS_LIMIT;
    assert(dx * dx == (a.x - b.x) * (a.x - b.x)) by (nonlinear_arith)
        requires dx == a.x - b.x || dx == b.x - a.x;
    assert(dy * dy == (a.y - b.y) * (a.y - b.y)) by (nonlinear_arith)
        requires dy == a.y - b.y || dy == b.y - a.y;
    dx * dx + dy * dy
}

/// Integer square root, rounded down, of a value below `2^100`.
pub fn isqrt(n: u128) -> (r: u64)
    requires
        n < 0x10000000000000000000000000,
    ensures
        is_floor_sqrt(r as int, n as int),
        r < 0x4000000000000,
{
    // lo * lo <= n < hi * hi
    let mut lo: u64 = 0;
    let mut hi: u64 = 0x4000000000000;
    assert(0x4000000000000u64 * 0x4000000000000u64 == 0x10000000000000000000000000);
    while hi - lo > 1
        invariant
            lo < hi <= 0x4000000000000,
            lo * lo <= n,
            n < hi * hi,
        decreases hi - lo,
    {
        let mid: u64 = lo + (hi - lo) / 2;
        assert(mid * mid <= 0x4000000000000 * 0x4000000000000) by (nonlinear_arith)
            requires mid <= 0x4000000000000;
        if (mid as u128) * (mid as u128) <= n {
            lo = mid;
        } else {
            hi = mid;
        }
    }
    lo
}

/// Length of the segment between two points, rounded down.
pub fn edge_length(a: Pos, b: Pos) -> (r: u64)
    requires
        a.in_bounds(),
        b.in_bounds(),
    ensures
        is_floor_sqrt(r as int, dist_sq_spec(a, b)),
        r == floor_sqrt(dist_sq_spec(a, b)),
        r < 0x4000000000000,
{
    let d = dist_sq(a, b);
    assert(d <= 2 * (2 * POS_LIMIT * (2 * POS_LIMIT))) by (nonlinear_arith)
        requires
            d == dist_sq_spec(a, b),
            -2 * POS_LIMIT <= a.x - b.x <= 2 * POS_LIMIT,
            -2 * POS_LIMIT <= a.y - b.y <= 2 * POS_LIMIT;
    let r = isqrt(d);
    proof {
        lemma_floor_sqrt_unique(r as int, dist_sq_spec(a, b));
    }
    r
}

fn floor_div_chunk(v: i64) -> (r: i32)
    requires
        -AGENT_LIMIT <= v <= AGENT_LIMIT,
    ensures
        r as int == v as int / CHUNK_SIZE as int,
        -CHUNK_LIMIT <= r <= CHUNK_LIMIT,
{
    if v >= 0 {
        (v / CHUNK_SIZE) as i32
    } else {
        let m: i64 = -v;
        let q: i64 = (m + (CHUNK_SIZE - 1)) / CHUNK_SIZE;
        assert(-q == v as int / CHUNK_SIZE as int) by (nonlinear_arith)
            requires
                m == -v,
                m > 0,
                q == (m + 4999) / 5000,
                CHUNK_SIZE == 5000;
        (-q) as i32
    }
}

/// The chunk that holds the agent's position.
pub fn chunk_of(p: Pos) -> (r: ChunkCoord)
    requires
        p.agent_in_bounds(),
    ensures
        coord_spec(r) == chunk_of_spec(p),
        r == chunk_at(p),
        -CHUNK_LIMIT <= r.x <= CHUNK_LIMIT,
        -CHUNK_LIMIT <= r.y <= CHUNK_LIMIT,
{
    ChunkCoord { x: floor_div_chunk(p.x), y: floor_div_chunk(p.y) }
}

/// The chunks of the 3x3 block centred on `c`.
pub fn neighborhood(c: ChunkCoord) -> (r: Vec<ChunkCoord>)
    requires
        i32::MIN < c.x < i32::MAX,
        i32::MIN < c.y < i32::MAX,
    ensures
        r@ == neighborhood_spec(c),
{
    let mut r: Vec<ChunkCoord> = Vec::new();
    let mut dx: i32 = -1;
    while dx <= 1
        invariant
            -1 <= dx <= 2,
            i32::MIN < c.x < i32::MAX,
            i32::MIN < c.y < i32::MAX,
            r@.len() == 3 * (dx + 1),
            forall|i: int| 0 <= i < r@.len() ==> #[trigger] r@[i] == neighborhood_spec(c)[i],
        decreases 2 - dx,
    {
        let mut dy: i32 = -1;
        while dy <= 1
            invariant
                -1 <= dx <= 1,
                -1 <= dy <= 2,
                i32::MIN < c.x < i32::MAX,
                i32::MIN < c.y < i32::MAX,
                r@.len() == 3 * (dx + 1) + dy + 1,
                forall|i: int| 0 <= i < r@.len() ==> #[trigger] r@[i] == neighborhood_spec(c)[i],
            decreases 2 - dy,
        {
            r.push(ChunkCoord { x: c.x + dx, y: c.y + dy });
            dy = dy + 1;
        }
        dx = dx + 1;
    }
    assert(r@ =~= neighborhood_spec(c));
    r
}

} // verus!
