//! The simulation of a run: chunk streaming, tracking and linking, packets,
//! node recovery, and the agent's energy, in one tick.

use vstd::prelude::*;
use std::collections::HashMap;
use crate::attach::{Attached, AttachedChange, attachment_transition, dists_spec, is_closest, nearby_spec, scan, transition_spec};
use crate::chance::{PPM, roll};
use crate::energy::{
    Energy, EnergyView, RetraceView, SPEED, SUBUNITS, chance_in, copy_path, deliver, delivered_spec, draws_needed, edge_spec,
    generate, generated, lemma_branched_shape, lemma_generated_shape, retrace_spec, step_packet, step_spec,
    travel_distance, views,
};
use crate::geometry::{ChunkCoord, Pos, chunk_at, chunk_of, neighborhood, neighborhood_spec};
use crate::graph::{GraphView, LinkGraph, NodeView};
use crate::worldgen::{CELL_COUNT, CellDraw, generate_chunk, generate_chunk_with, lemma_placements_in_bounds, placements};

verus! {

broadcast use vstd::std_specs::hash::group_hash_axioms;

/// The tunable rates of a run. Probabilities are in parts per million, rates
/// per second in parts per million per second, energy in thousandths of an
/// energy unit.
#[derive(Clone, Copy, Debug, PartialEq, Eq, Structural)]
pub struct Scaling {
    /// Chance that a packet reflects back the way it came.
    pub reflection_probability: u32,
    /// Chance that a packet propagates to each onward neighbour, and that a
    /// returning packet goes on at each node.
    pub propagation_probability: u32,
    /// Chance per second that the attached node sends a packet to each neighbour.
    pub generation_per_sec: u32,
    /// Most links a node can have.
    pub max_links: usize,
    pub max_battery: u64,
    pub max_capacitor: u64,
    /// Energy delivered per unit of distance that a packet travelled.
    pub energy_extraction: u64,
    /// Chance that a node that generated goes into cooldown.
    pub lumina_cooldown_per_generation: u32,
    /// Chance per second that a node in cooldown, not attached, recovers.
    pub lumina_resume_per_sec: u32,
}

impl Scaling {
    /// The most energy the agent can hold.
    pub open spec fn energy_cap(self) -> int {
        self.max_battery + self.max_capacitor
    }

    pub open spec fn wf(self) -> bool {
        self.energy_cap() <= u64::MAX
    }

    pub fn energy_cap_value(&self) -> (r: u64)
        requires
            self.wf(),
        ensures
            r == self.energy_cap(),
    {
        self.max_battery + self.max_capacitor
    }
}

impl Default for Scaling {
    fn default() -> (r: Scaling)
        ensures
            r == (Scaling {
                reflection_probability: 500000,
                propagation_probability: 500000,
                generation_per_sec: 1000000,
                max_links: 3,
                max_battery: 1500000,
                max_capacitor: 0,
                energy_extraction: 100,
                lumina_cooldown_per_generation: 100000,
                lumina_resume_per_sec: 330000,
            }),
    {
        Scaling {
            reflection_probability: 500000,
            propagation_probability: 500000,
            generation_per_sec: 1000000,
            max_links: 3,
            max_battery: 1500000,
            max_capacitor: 0,
            energy_extraction: 100,
            lumina_cooldown_per_generation: 100000,
            lumina_resume_per_sec: 330000,
        }
    }
}

/// The key of a chunk in the map of created chunks.
pub open spec fn chunk_key(c: ChunkCoord) -> i64 {
    (c.x * 4294967296 + c.y + 2147483648) as i64
}

fn key_of(c: ChunkCoord) -> (r: i64)
    ensures
        r == chunk_key(c),
{
    assert(-0x80000000 * 4294967296 <= c.x * 4294967296 <= 0x7fffffff * 4294967296) by (nonlinear_arith)
        requires -0x80000000 <= c.x <= 0x7fffffff;
    c.x as i64 * 4294967296 + (c.y as i64 + 2147483648)
}

/// A node as it stands when its chunk is generated.
pub open spec fn new_node(p: Pos) -> NodeView {
    NodeView { pos: p, targets: Seq::empty(), cooldown: false }
}

/// The abstract state of a simulation.
pub struct SimView {
    pub scaling: Scaling,
    pub graph: GraphView,
    /// Node indices of each created chunk, by chunk key.
    pub chunks: Map<i64, Seq<usize>>,
    pub attached: Option<Attached>,
    pub nearby: Seq<usize>,
    pub packets: Seq<EnergyView>,
    pub energy: u64,
}

impl SimView {
    pub open spec fn created(self, c: ChunkCoord) -> bool {
        self.chunks.contains_key(chunk_key(c))
    }

    /// A packet refers to existing nodes and has a source.
    pub open spec fn packet_ok(self, p: EnergyView) -> bool {
        &&& self.graph.valid_id(p.target as int)
        &&& p.path.len() > 0
        &&& forall|k: int| 0 <= k < p.path.len() ==> self.graph.valid_id(#[trigger] p.path[k] as int)
    }

    pub open spec fn wf(self) -> bool {
        &&& self.scaling.wf()
        &&& self.graph.wf()
        &&& self.graph.max_links == self.scaling.max_links
        &&& self.energy <= self.scaling.energy_cap()
        &&& forall|key: i64, j: int|
            self.chunks.contains_key(key) && 0 <= j < self.chunks[key].len() ==> self.graph.valid_id(
                #[trigger] self.chunks[key][j] as int,
            )
        &&& self.attached is Some ==> self.graph.valid_id(self.attached.unwrap().lumina as int)
        &&& forall|j: int| 0 <= j < self.nearby.len() ==> self.graph.valid_id(#[trigger] self.nearby[j] as int)
        &&& forall|j: int| 0 <= j < self.packets.len() ==> self.packet_ok(#[trigger] self.packets[j])
    }

    /// The state after chunk `c` is created with nodes at `ps`: they are
    /// appended to the arena and recorded as the chunk's nodes.
    pub open spec fn with_chunk(self, c: ChunkCoord, ps: Seq<Pos>) -> SimView {
        let n = self.graph.nodes.len();
        SimView {
            graph: GraphView { nodes: self.graph.nodes + ps.map_values(|p: Pos| new_node(p)), ..self.graph },
            chunks: self.chunks.insert(chunk_key(c), Seq::new(ps.len(), |j: int| (n + j) as usize)),
            ..self
        }
    }

    /// Populating chunk `c` with nodes at `ps`: nothing happens if the chunk
    /// was created before.
    pub open spec fn populated(self, c: ChunkCoord, ps: Seq<Pos>) -> SimView {
        if self.created(c) {
            self
        } else {
            self.with_chunk(c, ps)
        }
    }
}

/// A chunk is generated at most once: populating it a second time, whatever
/// the placements, leaves the state as the first time left it.
pub proof fn lemma_populate_idempotent(s: SimView, c: ChunkCoord, ps1: Seq<Pos>, ps2: Seq<Pos>)
    ensures
        s.populated(c, ps1).created(c),
        s.populated(c, ps1).populated(c, ps2) == s.populated(c, ps1),
{
}

/// Distinct chunks have distinct keys.
pub proof fn lemma_chunk_key_injective(c1: ChunkCoord, c2: ChunkCoord)
    requires
        c1 != c2,
    ensures
        chunk_key(c1) != chunk_key(c2),
{
    let k1 = c1.x * 4294967296 + c1.y + 2147483648;
    let k2 = c2.x * 4294967296 + c2.y + 2147483648;
    assert(k1 != k2) by (nonlinear_arith)
        requires
            k1 == c1.x * 4294967296 + c1.y + 2147483648,
            k2 == c2.x * 4294967296 + c2.y + 2147483648,
            -2147483648 <= c1.y < 2147483648,
            -2147483648 <= c2.y < 2147483648,
            c1.x != c2.x || c1.y != c2.y;
    assert(-0x80000000 * 4294967296 <= c1.x * 4294967296 <= 0x7fffffff * 4294967296) by (nonlinear_arith)
        requires -0x80000000 <= c1.x <= 0x7fffffff;
    assert(-0x80000000 * 4294967296 <= c2.x * 4294967296 <= 0x7fffffff * 4294967296) by (nonlinear_arith)
        requires -0x80000000 <= c2.x <= 0x7fffffff;
}

/// Populating one chunk leaves every chunk created before, and its nodes,
/// as they were.
pub proof fn lemma_populate_keeps_chunks(s: SimView, c: ChunkCoord, ps: Seq<Pos>, other: ChunkCoord)
    requires
        s.created(other),
    ensures
        s.populated(c, ps).created(other),
        s.populated(c, ps).chunks[chunk_key(other)] == s.chunks[chunk_key(other)],
        forall|i: int| 0 <= i < s.graph.nodes.len() ==> #[trigger] s.populated(c, ps).graph.nodes[i] == s.graph.nodes[i],
{
    if !s.created(c) {
        lemma_chunk_key_injective(c, other);
    }
}

/// The state after the chunks `cs[0..n]` are populated in turn, chunk `k`
/// with thresholds `ths[k]` and draws `dss[k]`.
pub open spec fn populated_all(
    s: SimView,
    cs: Seq<ChunkCoord>,
    ths: Seq<Vec<u32>>,
    dss: Seq<Seq<CellDraw>>,
    n: nat,
) -> SimView
    decreases n,
{
    if n == 0 {
        s
    } else {
        populated_all(s, cs, ths, dss, (n - 1) as nat).populated(
            cs[n - 1],
            placements(cs[n - 1], ths[n - 1]@, dss[n - 1], CELL_COUNT as nat),
        )
    }
}

proof fn lemma_populated_all_same(
    s: SimView,
    cs: Seq<ChunkCoord>,
    ths: Seq<Vec<u32>>,
    a: Seq<Seq<CellDraw>>,
    b: Seq<Seq<CellDraw>>,
    n: nat,
)
    requires
        forall|k: int| 0 <= k < n ==> a[k] == b[k],
    ensures
        populated_all(s, cs, ths, a, n) == populated_all(s, cs, ths, b, n),
    decreases n,
{
    if n > 0 {
        lemma_populated_all_same(s, cs, ths, a, b, (n - 1) as nat);
    }
}

/// Chunks of `nb[0..k]` that are not created yet, in order.
pub open spec fn missing_spec(s: SimView, nb: Seq<ChunkCoord>, k: nat) -> Seq<ChunkCoord>
    decreases k,
{
    if k == 0 {
        Seq::empty()
    } else {
        let prev = missing_spec(s, nb, (k - 1) as nat);
        if s.created(nb[k - 1]) {
            prev
        } else {
            prev.push(nb[k - 1])
        }
    }
}

/// Nodes of the created chunks among `nb[0..k]`, chunk by chunk.
pub open spec fn scanned_spec(chunks: Map<i64, Seq<usize>>, nb: Seq<ChunkCoord>, k: nat) -> Seq<usize>
    decreases k,
{
    if k == 0 {
        Seq::empty()
    } else {
        let prev = scanned_spec(chunks, nb, (k - 1) as nat);
        if chunks.contains_key(chunk_key(nb[k - 1])) {
            prev + chunks[chunk_key(nb[k - 1])]
        } else {
            prev
        }
    }
}

/// Nodes that the tracker scans around an agent at `ship`: those of the
/// created chunks of the 3x3 block around the agent's chunk.
pub open spec fn around(s: SimView, ship: Pos) -> Seq<usize> {
    scanned_spec(s.chunks, neighborhood_spec(chunk_at(ship)), 9)
}

/// The graph after an attachment change event, if any: the link graph is
/// asked to link the event's two nodes.
pub open spec fn linked_by(g: GraphView, event: Option<AttachedChange>) -> GraphView {
    match event {
        Some(e) => if g.admits_link(e.from, e.to) {
            g.with_link(e.from, e.to)
        } else {
            g
        },
        None => g,
    }
}

/// The attached node generates this tick: the agent is in range of it and it
/// is not cooling down.
pub open spec fn generating(s: SimView) -> bool {
    &&& s.attached is Some
    &&& s.attached.unwrap().in_range
    &&& !s.graph.nodes[s.attached.unwrap().lumina as int].cooldown
}

/// `h` has the nodes and links of `g`; only cooldowns may differ.
pub open spec fn same_links(g: GraphView, h: GraphView) -> bool {
    &&& h.nodes.len() == g.nodes.len()
    &&& h.max_links == g.max_links
    &&& h.conn == g.conn
    &&& forall|i: int| 0 <= i < g.nodes.len() ==> (#[trigger] h.nodes[i]).pos == g.nodes[i].pos
        && h.nodes[i].targets == g.nodes[i].targets
}

proof fn lemma_nearby_from(g: GraphView, ship: Pos, ids: Seq<usize>, j: int)
    requires
        0 <= j < nearby_spec(g, ship, ids).len(),
    ensures
        ids.contains(nearby_spec(g, ship, ids)[j]),
    decreases ids.len(),
{
    if ids.len() > 0 {
        let prev = nearby_spec(g, ship, ids.drop_last());
        if j < prev.len() {
            lemma_nearby_from(g, ship, ids.drop_last(), j);
            let k = choose|k: int| 0 <= k < ids.drop_last().len() && ids.drop_last()[k] == prev[j];
            assert(ids[k] == prev[j]);
        } else {
            assert(ids[ids.len() - 1] == ids.last());
        }
    }
}

/// The attached node delivers a packet that is home at `at` when the agent is
/// in range of it.
pub open spec fn delivers_at(s: SimView, at: usize) -> bool {
    &&& s.attached is Some
    &&& s.attached.unwrap().in_range
    &&& s.attached.unwrap().lumina == at
}

/// The packets and the energy after the first `n` packets of `s` take a step,
/// the `k`th with draws `ds[k]`.
pub open spec fn moved(s: SimView, step: u64, ds: Seq<Seq<u32>>, n: nat) -> (Seq<EnergyView>, u64)
    decreases n,
{
    if n == 0 {
        (Seq::empty(), s.energy)
    } else {
        let prev = moved(s, step, ds, (n - 1) as nat);
        let out = step_spec(
            s.graph,
            s.packets[n - 1],
            step,
            ds[n - 1],
            s.scaling.propagation_probability,
            s.scaling.reflection_probability,
        );
        let energy = match out.1 {
            Some(h) => if delivers_at(s, h.0) {
                delivered_spec(prev.1 as int, h.1 as int, s.scaling.energy_extraction as int, s.scaling.energy_cap()) as u64
            } else {
                prev.1
            },
            None => prev.1,
        };
        (prev.0 + out.0, energy)
    }
}

/// `moved` over `n` packets depends only on the first `n` draws.
proof fn lemma_moved_prefix(s: SimView, step: u64, ds: Seq<Seq<u32>>, n: nat)
    requires
        n < ds.len(),
    ensures
        moved(s, step, ds.take(n as int), n) == moved(s, step, ds, n),
    decreases n,
{
    if n > 0 {
        lemma_moved_prefix(s, step, ds, (n - 1) as nat);
        lemma_moved_take(s, step, ds, n);
    }
}

proof fn lemma_moved_take(s: SimView, step: u64, ds: Seq<Seq<u32>>, n: nat)
    requires
        0 < n < ds.len(),
        moved(s, step, ds.take((n - 1) as int), (n - 1) as nat) == moved(s, step, ds, (n - 1) as nat),
    ensures
        moved(s, step, ds.take(n as int), n) == moved(s, step, ds, n),
{
    let t = ds.take(n as int);
    assert(t.take((n - 1) as int) =~= ds.take((n - 1) as int));
    lemma_moved_same(s, step, t, ds, (n - 1) as nat);
}

/// `moved` agrees on draw sequences that agree on the first `n` entries.
proof fn lemma_moved_same(s: SimView, step: u64, a: Seq<Seq<u32>>, b: Seq<Seq<u32>>, n: nat)
    requires
        n <= a.len(),
        n <= b.len(),
        forall|k: int| 0 <= k < n ==> a[k] == b[k],
    ensures
        moved(s, step, a, n) == moved(s, step, b, n),
    decreases n,
{
    if n > 0 {
        lemma_moved_same(s, step, a, b, (n - 1) as nat);
    }
}

/// Every packet that a step produces is well formed.
proof fn lemma_step_ok(s: SimView, p: EnergyView, step: u64, draws: Seq<u32>)
    requires
        s.wf(),
        s.packet_ok(p),
    ensures
        ({
            let out = step_spec(s.graph, p, step, draws, s.scaling.propagation_probability, s.scaling.reflection_probability);
            forall|k: int| 0 <= k < out.0.len() ==> s.packet_ok(#[trigger] out.0[k])
        }),
{
    let prop = s.scaling.propagation_probability;
    let refl = s.scaling.reflection_probability;
    let out = step_spec(s.graph, p, step, draws, prop, refl);
    let edge = edge_spec(s.graph, p);
    let span = edge * SUBUNITS;
    let t = if p.travelled + step >= span { span } else { p.travelled + step };
    if t >= span {
        let d = if p.distance + edge > u64::MAX { u64::MAX as int } else { p.distance + edge };
        let a = EnergyView { travelled: t as u64, distance: d as u64, ..p };
        let neighbors = s.graph.nodes[p.target as int].targets;
        if !p.returning {
            lemma_branched_shape(a, p.target, neighbors, draws, prop, refl, neighbors.len());
            assert forall|k: int| 0 <= k < out.0.len() implies s.packet_ok(#[trigger] out.0[k]) by {
                let e = out.0[k];
                let j = choose|j: int| 0 <= j < neighbors.len() && neighbors[j] == e.target;
                assert(s.graph.nodes[p.target as int].targets[j] == e.target);
                assert forall|m: int| 0 <= m < e.path.len() implies s.graph.valid_id(#[trigger] e.path[m] as int) by {
                    if m < p.path.len() {
                        assert(e.path[m] == p.path[m]);
                    }
                }
            }
        } else {
            if let RetraceView::Onward(q) = retrace_spec(a, p.target, draws[0], prop) {
                let rest = p.path.drop_last();
                assert(q.target == rest[rest.len() - 1]);
                assert(s.graph.valid_id(p.path[rest.len() - 1] as int));
                assert forall|m: int| 0 <= m < q.path.len() implies s.graph.valid_id(#[trigger] q.path[m] as int) by {
                    if m < q.path.len() - 1 {
                        assert(q.path[m] == p.path[m]);
                    }
                }
                assert(out.0[0] == q);
            }
        }
    }
}

/// Changing cooldowns keeps a simulation state well formed.
proof fn lemma_wf_same_links(s: SimView, h: GraphView)
    requires
        s.wf(),
        h.wf(),
        same_links(s.graph, h),
    ensures
        (SimView { graph: h, ..s }).wf(),
{
    let t = SimView { graph: h, ..s };
    assert forall|key: i64, j: int| t.chunks.contains_key(key) && 0 <= j < t.chunks[key].len() implies t.graph.valid_id(
        #[trigger] t.chunks[key][j] as int,
    ) by {
        assert(s.graph.valid_id(s.chunks[key][j] as int));
    }
    assert forall|j: int| 0 <= j < t.nearby.len() implies t.graph.valid_id(#[trigger] t.nearby[j] as int) by {
        assert(s.graph.valid_id(s.nearby[j] as int));
    }
    assert forall|j: int| 0 <= j < t.packets.len() implies t.packet_ok(#[trigger] t.packets[j]) by {
        assert(s.packet_ok(s.packets[j]));
    }
}

/// The proximity step took `s` to `t` and fired `r`: the candidate is the
/// closest scanned node within attach distance, the attachment rules give the
/// new attachment and the event, and the event's pair is offered to the graph.
pub open spec fn tracking_step(s: SimView, ship: Pos, t: SimView, r: Option<AttachedChange>) -> bool {
    &&& exists|candidate: Option<usize>|
        {
            &&& is_closest(dists_spec(s.graph, ship, around(s, ship)), around(s, ship), candidate)
            &&& (t.attached, r) == transition_spec(s.attached, candidate)
        }
    &&& t == (SimView {
        graph: linked_by(s.graph, r),
        attached: t.attached,
        nearby: nearby_spec(s.graph, ship, around(s, ship)),
        ..s
    })
}

/// Chance, in parts per million, that the attached node sends a packet to
/// a neighbour within `dt_ms` milliseconds.
pub open spec fn generation_chance(s: SimView, dt_ms: u32) -> int {
    s.scaling.generation_per_sec as int * dt_ms as int / 1000
}

/// Chance, in parts per million, that a node leaves cooldown within `dt_ms`
/// milliseconds.
pub open spec fn recovery_chance(s: SimView, dt_ms: u32) -> int {
    s.scaling.lumina_resume_per_sec as int * dt_ms as int / 1000
}

/// The graph with node `i` in or out of cooldown.
pub open spec fn with_cooldown(g: GraphView, i: int, on: bool) -> GraphView {
    GraphView { nodes: g.nodes.update(i, NodeView { cooldown: on, ..g.nodes[i] }), ..g }
}

pub open spec fn all_draws(draws: Seq<u32>) -> bool {
    forall|k: int| 0 <= k < draws.len() ==> #[trigger] draws[k] < PPM
}

/// The generation step, with one draw per neighbour of the attached node and
/// one cooldown draw, took `s` to `t`: each neighbour whose draw is below the
/// chance gets a fresh packet; if any did, the node goes into cooldown when
/// the cooldown draw is below the cooldown probability.
pub open spec fn generation_with(s: SimView, dt_ms: u32, draws: Seq<u32>, cooldown_draw: u32, t: SimView) -> bool {
    if !generating(s) {
        t == s
    } else {
        let a = s.attached.unwrap().lumina;
        let targets = s.graph.nodes[a as int].targets;
        let fresh = generated(a, targets, draws, generation_chance(s, dt_ms), targets.len());
        &&& t.packets == s.packets + fresh
        &&& t.graph == if fresh.len() > 0 && cooldown_draw < s.scaling.lumina_cooldown_per_generation {
            with_cooldown(s.graph, a as int, true)
        } else {
            s.graph
        }
        &&& t == (SimView { graph: t.graph, packets: t.packets, ..s })
    }
}

/// The generation step took `s` to `t` with some draws below `PPM`.
pub open spec fn generation_step(s: SimView, dt_ms: u32, t: SimView) -> bool {
    exists|draws: Seq<u32>, cooldown_draw: u32|
        {
            &&& all_draws(draws)
            &&& cooldown_draw < PPM
            &&& generating(s) ==> draws.len() == s.graph.nodes[s.attached.unwrap().lumina as int].targets.len()
            &&& #[trigger] generation_with(s, dt_ms, draws, cooldown_draw, t)
        }
}

/// The movement step took `s` to `t` over `dt_ms` milliseconds: every packet
/// took one step, with draws of its own below `PPM`, and deliveries were added.
pub open spec fn movement_step(s: SimView, dt_ms: u32, t: SimView) -> bool {
    &&& t == (SimView { packets: t.packets, energy: t.energy, ..s })
    &&& s.energy <= t.energy <= s.scaling.energy_cap()
    &&& exists|ds: Seq<Seq<u32>>|
        {
            &&& ds.len() == s.packets.len()
            &&& forall|k: int| 0 <= k < ds.len() ==> (#[trigger] ds[k]).len() == draws_needed(s.graph, s.packets[k])
                && all_draws(ds[k])
            &&& (t.packets, t.energy) == #[trigger] moved(s, (SPEED * dt_ms) as u64, ds, s.packets.len())
        }
}

/// The agent is attached to node `i`.
pub open spec fn attached_to(s: SimView, i: int) -> bool {
    s.attached matches Some(a) && a.lumina == i
}

/// The recovery step, with one draw per node, took `s` to `t`: a node in
/// cooldown that the agent is not attached to becomes active when its draw is
/// below the chance; nothing else changes.
pub open spec fn recovery_with(s: SimView, dt_ms: u32, draws: Seq<u32>, t: SimView) -> bool {
    &&& same_links(s.graph, t.graph)
    &&& t == (SimView { graph: t.graph, ..s })
    &&& forall|i: int| 0 <= i < s.graph.nodes.len() ==> (#[trigger] t.graph.nodes[i]).cooldown == (s.graph.nodes[i].cooldown
        && (attached_to(s, i) || draws[i] >= recovery_chance(s, dt_ms)))
}

/// The recovery step took `s` to `t` with some draws below `PPM`.
pub open spec fn recovery_step(s: SimView, dt_ms: u32, t: SimView) -> bool {
    exists|draws: Seq<u32>|
        {
            &&& draws.len() == s.graph.nodes.len()
            &&& all_draws(draws)
            &&& #[trigger] recovery_with(s, dt_ms, draws, t)
        }
}

/// The simulation core of a run: the chunks generated so far and their nodes,
/// the links between nodes, the agent's attachment and energy, and the
/// packets in flight.
pub struct Simulation {
    scaling: Scaling,
    graph: LinkGraph,
    chunks: HashMap<i64, Vec<usize>>,
    attached: Option<Attached>,
    nearby: Vec<usize>,
    packets: Vec<Energy>,
    energy: u64,
}

impl View for Simulation {
    type V = SimView;

    closed spec fn view(&self) -> SimView {
        SimView {
            scaling: self.scaling,
            graph: self.graph@,
            chunks: self.chunks@.map_values(|v: Vec<usize>| v@),
            attached: self.attached,
            nearby: self.nearby@,
            packets: self.packets@.map_values(|e: Energy| e@),
            energy: self.energy,
        }
    }
}

impl Simulation {
    pub open spec fn wf(&self) -> bool {
        self@.wf()
    }

    /// A run with no chunk yet, the agent unattached, holding `energy`.
    pub fn new(scaling: Scaling, energy: u64) -> (r: Simulation)
        requires
            scaling.wf(),
            energy <= scaling.energy_cap(),
        ensures
            r.wf(),
            r@.scaling == scaling,
            r@.graph.nodes.len() == 0,
            r@.chunks == Map::<i64, Seq<usize>>::empty(),
            r@.attached is None,
            r@.nearby.len() == 0,
            r@.packets.len() == 0,
            r@.energy == energy,
    {
        let r = Simulation {
            scaling,
            graph: LinkGraph::new(scaling.max_links),
            chunks: HashMap::new(),
            attached: None,
            nearby: Vec::new(),
            packets: Vec::new(),
            energy,
        };
        assert(r@.chunks =~= Map::<i64, Seq<usize>>::empty());
        r
    }

    pub fn scaling(&self) -> (r: Scaling)
        ensures
            r == self@.scaling,
    {
        self.scaling
    }

    pub fn graph(&self) -> (r: &LinkGraph)
        ensures
            r@ == self@.graph,
    {
        &self.graph
    }

    pub fn energy(&self) -> (r: u64)
        ensures
            r == self@.energy,
    {
        self.energy
    }

    pub fn attached(&self) -> (r: Option<Attached>)
        ensures
            r == self@.attached,
    {
        self.attached
    }

    pub fn nearby(&self) -> (r: &Vec<usize>)
        ensures
            r@ == self@.nearby,
    {
        &self.nearby
    }

    pub fn packets(&self) -> (r: &Vec<Energy>)
        ensures
            r@.map_values(|e: Energy| e@) == self@.packets,
    {
        &self.packets
    }

    pub fn node_count(&self) -> (r: usize)
        ensures
            r == self@.graph.nodes.len(),
    {
        self.graph.len()
    }

    pub fn is_created(&self, c: ChunkCoord) -> (r: bool)
        ensures
            r == self@.created(c),
    {
        let key = key_of(c);
        self.chunks.contains_key(&key)
    }

    /// Takes up to `amount` from the agent's energy, stopping at zero.
    pub fn spend_energy(&mut self, amount: u64)
        requires
            old(self).wf(),
        ensures
            final(self).wf(),
            final(self)@ == (SimView {
                energy: if amount >= old(self)@.energy { 0 } else { (old(self)@.energy - amount) as u64 },
                ..old(self)@
            }),
    {
        if amount >= self.energy {
            self.energy = 0;
        } else {
            self.energy = self.energy - amount;
        }
    }

    /// Creates chunk `c`, with the nodes that the draws place, unless it was
    /// created before; returns whether it was created now.
    pub fn populate_chunk_with(&mut self, c: ChunkCoord, thresholds: &Vec<u32>, draws: &Vec<CellDraw>) -> (r: bool)
        requires
            old(self).wf(),
            thresholds.len() == CELL_COUNT,
            draws.len() == CELL_COUNT,
            forall|k: int| 0 <= k < draws.len() ==> (#[trigger] draws@[k]).wf(),
            !old(self)@.created(c) ==> old(self)@.graph.nodes.len() + CELL_COUNT <= usize::MAX,
        ensures
            final(self).wf(),
            r == !old(self)@.created(c),
            final(self)@ == old(self)@.populated(c, placements(c, thresholds@, draws@, CELL_COUNT as nat)),
    {
        let key = key_of(c);
        if self.chunks.contains_key(&key) {
            return false;
        }
        let ps = generate_chunk_with(c, thresholds, draws);
        self.add_chunk(c, key, &ps);
        true
    }

    /// Creates chunk `c` with fresh random draws, unless it was created
    /// before; returns whether it was created now.
    pub fn populate_chunk(&mut self, c: ChunkCoord, thresholds: &Vec<u32>) -> (r: bool)
        requires
            old(self).wf(),
            thresholds.len() == CELL_COUNT,
            !old(self)@.created(c) ==> old(self)@.graph.nodes.len() + CELL_COUNT <= usize::MAX,
        ensures
            final(self).wf(),
            r == !old(self)@.created(c),
            exists|draws: Seq<CellDraw>|
                {
                    &&& draws.len() == CELL_COUNT
                    &&& forall|k: int| 0 <= k < draws.len() ==> (#[trigger] draws[k]).wf()
                    &&& final(self)@ == old(self)@.populated(c, placements(c, thresholds@, draws, CELL_COUNT as nat))
                },
    {
        let key = key_of(c);
        if self.chunks.contains_key(&key) {
            let ghost d = Seq::new(CELL_COUNT as nat, |k: int| CellDraw { sample: 0, jitter_x: 0, jitter_y: 0 });
            assert(forall|k: int| 0 <= k < d.len() ==> (#[trigger] d[k]).wf());
            assert(self@.populated(c, placements(c, thresholds@, d, CELL_COUNT as nat)) == self@);
            return false;
        }
        let ps = generate_chunk(c, thresholds);
        self.add_chunk(c, key, &ps);
        true
    }

    /// Chunks of the 3x3 block around the agent that are not created yet.
    pub fn missing_chunks(&self, ship: Pos) -> (r: Vec<ChunkCoord>)
        requires
            ship.agent_in_bounds(),
        ensures
            r@ == missing_spec(self@, neighborhood_spec(chunk_at(ship)), 9),
    {
        let nb = neighborhood(chunk_of(ship));
        let mut r: Vec<ChunkCoord> = Vec::new();
        let mut k: usize = 0;
        while k < 9
            invariant
                k <= 9,
                nb@ == neighborhood_spec(chunk_at(ship)),
                r@ == missing_spec(self@, nb@, k as nat),
            decreases 9 - k,
        {
            if !self.is_created(nb[k]) {
                r.push(nb[k]);
            }
            k = k + 1;
        }
        r
    }

    fn scanned_ids(&self, nb: &Vec<ChunkCoord>) -> (r: Vec<usize>)
        requires
            self.wf(),
            nb.len() == 9,
        ensures
            r@ == scanned_spec(self@.chunks, nb@, 9),
            forall|j: int| 0 <= j < r.len() ==> self@.graph.valid_id(#[trigger] r@[j] as int),
    {
        let mut r: Vec<usize> = Vec::new();
        let mut k: usize = 0;
        while k < 9
            invariant
                self.wf(),
                k <= 9,
                nb.len() == 9,
                r@ == scanned_spec(self@.chunks, nb@, k as nat),
                forall|j: int| 0 <= j < r.len() ==> self@.graph.valid_id(#[trigger] r@[j] as int),
            decreases 9 - k,
        {
            let key = key_of(nb[k]);
            match self.chunks.get(&key) {
                Some(ids) => {
                    let ghost before = r@;
                    let mut j: usize = 0;
                    while j < ids.len()
                        invariant
                            self.wf(),
                            self.chunks@.contains_key(key),
                            ids@ == self@.chunks[key],
                            j <= ids.len(),
                            r@ == before + ids@.take(j as int),
                            forall|m: int| 0 <= m < r.len() ==> self@.graph.valid_id(#[trigger] r@[m] as int),
                        decreases ids.len() - j,
                    {
                        assert(self@.graph.valid_id(self@.chunks[key][j as int] as int));
                        r.push(ids[j]);
                        j = j + 1;
                        assert(r@ =~= before + ids@.take(j as int));
                    }
                    assert(ids@.take(j as int) =~= ids@);
                },
                None => {},
            }
            k = k + 1;
        }
        r
    }

    /// The proximity step: records the nearby nodes, updates the attachment,
    /// and links the two nodes of the change event it fires, if any.
    pub fn track(&mut self, ship: Pos) -> (r: Option<AttachedChange>)
        requires
            old(self).wf(),
            ship.agent_in_bounds(),
        ensures
            final(self).wf(),
            tracking_step(old(self)@, ship, final(self)@, r),
    {
        let nb = neighborhood(chunk_of(ship));
        let ids = self.scanned_ids(&nb);
        let found = scan(&self.graph, ship, &ids);
        let (attached, event) = attachment_transition(self.attached, found.closest);
        self.attached = attached;
        self.nearby = found.nearby;
        match event {
            Some(e) => {
                self.graph.try_link(e.from, e.to);
            },
            None => {},
        }
        proof {
            let s = self@;
            assert forall|key: i64, j: int| s.chunks.contains_key(key) && 0 <= j < s.chunks[key].len() implies s.graph.valid_id(
                #[trigger] s.chunks[key][j] as int,
            ) by {
                assert(old(self)@.graph.valid_id(old(self)@.chunks[key][j] as int));
            }
            assert forall|j: int| 0 <= j < s.packets.len() implies s.packet_ok(#[trigger] s.packets[j]) by {
                assert(old(self)@.packet_ok(old(self)@.packets[j]));
            }
            assert forall|j: int| 0 <= j < s.nearby.len() implies s.graph.valid_id(#[trigger] s.nearby[j] as int) by {
                lemma_nearby_from(old(self)@.graph, ship, ids@, j);
            }
        }
        event
    }

    /// The generation step with given draws: while the agent is in range of
    /// its node and the node is active, the node sends a fresh packet to each
    /// neighbour whose draw is below the chance of this tick; if it sent any,
    /// it goes into cooldown when `cooldown_draw` is below the cooldown
    /// probability.
    pub fn generate_packets_with(&mut self, dt_ms: u32, draws: &Vec<u32>, cooldown_draw: u32)
        requires
            old(self).wf(),
            generating(old(self)@) ==> draws.len() == old(self)@.graph.nodes[old(self)@.attached.unwrap().lumina as int].targets.len(),
        ensures
            final(self).wf(),
            generation_with(old(self)@, dt_ms, draws@, cooldown_draw, final(self)@),
    {
        let a = match self.attached {
            Some(a) => a,
            None => {
                return ;
            },
        };
        if !a.in_range || self.graph.is_cooldown(a.lumina) {
            return ;
        }
        let neighbors = copy_path(self.graph.targets(a.lumina));
        let chance = chance_in(self.scaling.generation_per_sec, dt_ms);
        let mut fresh = generate(a.lumina, &neighbors, draws, chance);
        let count = fresh.len();
        proof {
            lemma_generated_shape(a.lumina, neighbors@, draws@, chance as int, neighbors.len() as nat);
            assert forall|k: int| 0 <= k < fresh.len() implies self@.packet_ok(#[trigger] fresh@[k]@) by {
                let e = fresh@[k]@;
                assert(generated(a.lumina, neighbors@, draws@, chance as int, neighbors.len() as nat)[k] == e);
                let j = choose|j: int| 0 <= j < neighbors@.len() && neighbors@[j] == e.target;
                assert(self@.graph.nodes[a.lumina as int].targets[j] == e.target);
                assert(e.path[0] == a.lumina);
            }
        }
        let ghost before = self.packets@;
        let ghost added = fresh@;
        self.packets.append(&mut fresh);
        assert(self@.packets =~= old(self)@.packets + generated(
            a.lumina,
            neighbors@,
            draws@,
            chance as int,
            neighbors.len() as nat,
        )) by {
            assert(self.packets@ == before + added);
        }
        assert forall|j: int| 0 <= j < self@.packets.len() implies self@.packet_ok(#[trigger] self@.packets[j]) by {
            if j < before.len() {
                assert(old(self)@.packet_ok(old(self)@.packets[j]));
            } else {
                assert(self@.packets[j] == added[j - before.len()]@);
            }
        }
        assert(self@ == (SimView { packets: self@.packets, ..old(self)@ }));
        assert(self@.wf()) by {
            let t = self@;
            let o = old(self)@;
            assert forall|key: i64, j: int| t.chunks.contains_key(key) && 0 <= j < t.chunks[key].len() implies t.graph.valid_id(
                #[trigger] t.chunks[key][j] as int,
            ) by {
                assert(o.graph.valid_id(o.chunks[key][j] as int));
            }
            assert forall|j: int| 0 <= j < t.nearby.len() implies t.graph.valid_id(#[trigger] t.nearby[j] as int) by {
                assert(o.graph.valid_id(o.nearby[j] as int));
            }
        }
        if count > 0 && cooldown_draw < self.scaling.lumina_cooldown_per_generation {
            let ghost s0 = self@;
            self.graph.set_cooldown(a.lumina, true);
            proof {
                lemma_wf_same_links(s0, self@.graph);
            }
            assert(self@.graph == with_cooldown(old(self)@.graph, a.lumina as int, true));
        }
    }

    /// The generation step with fresh random draws.
    pub fn generate_packets(&mut self, dt_ms: u32)
        requires
            old(self).wf(),
        ensures
            final(self).wf(),
            generation_step(old(self)@, dt_ms, final(self)@),
    {
        let n = match self.attached {
            Some(a) => if a.in_range && !self.graph.is_cooldown(a.lumina) {
                self.graph.targets(a.lumina).len()
            } else {
                0
            },
            None => 0,
        };
        let draws = Self::roll_each(n);
        let cooldown_draw = roll();
        self.generate_packets_with(dt_ms, &draws, cooldown_draw);
        assert(generation_with(old(self)@, dt_ms, draws@, cooldown_draw, self@));
    }

    fn roll_each(n: usize) -> (r: Vec<u32>)
        ensures
            r.len() == n,
            all_draws(r@),
    {
        let mut draws: Vec<u32> = Vec::new();
        let mut k: usize = 0;
        while k < n
            invariant
                k <= n,
                draws.len() == k,
                all_draws(draws@),
            decreases n - k,
        {
            draws.push(roll());
            k = k + 1;
        }
        draws
    }

    /// The movement step: each packet takes one step (`step_spec`), in order,
    /// with draws of its own; a returning packet whose path is used up at the
    /// attached, in-range node delivers its energy (any other ends with no
    /// delivery).
    pub fn move_packets(&mut self, dt_ms: u32)
        requires
            old(self).wf(),
        ensures
            final(self).wf(),
            movement_step(old(self)@, dt_ms, final(self)@),
    {
        let step = travel_distance(dt_ms);
        let cap = self.scaling.energy_cap_value();
        let mut next: Vec<Energy> = Vec::new();
        let ghost mut ds: Seq<Seq<u32>> = Seq::empty();
        let mut i: usize = 0;
        while i < self.packets.len()
            invariant
                old(self).wf(),
                self.wf(),
                i <= self.packets.len(),
                cap == self@.scaling.energy_cap(),
                step == (SPEED * dt_ms) as u64,
                self@ == (SimView { energy: self@.energy, ..old(self)@ }),
                old(self)@.energy <= self@.energy,
                forall|j: int| 0 <= j < next.len() ==> self@.packet_ok(#[trigger] next@[j]@),
                ds.len() == i,
                forall|k: int| 0 <= k < ds.len() ==> (#[trigger] ds[k]).len() == draws_needed(
                    old(self)@.graph,
                    old(self)@.packets[k],
                ) && all_draws(ds[k]),
                (views(next@), self@.energy) == moved(old(self)@, step, ds, i as nat),
            decreases self.packets.len() - i,
        {
            let p = &self.packets[i];
            assert(self@.packets[i as int] == p@);
            assert(self@.packet_ok(p@));
            assert(self@.graph.valid_id(p@.path[p@.path.len() - 1] as int));
            let degree = self.graph.targets(p.target).len();
            let draws = Self::roll_each(if degree == 0 {
                1
            } else {
                degree
            });
            let (mut out, home) = step_packet(
                &self.graph,
                p,
                step,
                &draws,
                self.scaling.propagation_probability,
                self.scaling.reflection_probability,
            );
            let ghost out_spec = step_spec(
                old(self)@.graph,
                old(self)@.packets[i as int],
                step,
                draws@,
                old(self)@.scaling.propagation_probability,
                old(self)@.scaling.reflection_probability,
            );
            let ghost ds_old = ds;
            let ghost prev = moved(old(self)@, step, ds_old, i as nat);
            proof {
                lemma_step_ok(old(self)@, p@, step, draws@);
                ds = ds.push(draws@);
                assert(ds.take(i as int) =~= ds_old);
                lemma_moved_prefix(old(self)@, step, ds, i as nat);
                assert(ds[i as int] == draws@);
            }
            let ghost before = next@;
            let ghost added = out@;
            assert(views(added) == out_spec.0);
            assert(home == out_spec.1);
            next.append(&mut out);
            match home {
                Some((at, distance)) => {
                    match self.attached {
                        Some(a) => {
                            if a.in_range && a.lumina == at {
                                self.energy = deliver(self.energy, distance, self.scaling.energy_extraction, cap);
                            }
                        },
                        None => {},
                    }
                },
                None => {},
            }
            proof {
                assert(views(next@) =~= views(before) + views(added));
                assert(moved(old(self)@, step, ds, (i + 1) as nat).0 == prev.0 + out_spec.0);
                assert forall|j: int| 0 <= j < next.len() implies self@.packet_ok(#[trigger] next@[j]@) by {
                    if j >= before.len() {
                        assert(next@[j] == added[j - before.len()]);
                        assert(views(added)[j - before.len()] == added[j - before.len()]@);
                        assert(old(self)@.packet_ok(out_spec.0[j - before.len()]));
                    } else {
                        assert(next@[j] == before[j]);
                    }
                }
            }
            i = i + 1;
        }
        self.packets = next;
        proof {
            assert(self@.packets == views(next@));
            assert forall|j: int| 0 <= j < self@.packets.len() implies self@.packet_ok(#[trigger] self@.packets[j]) by {
                assert(self@.packets[j] == next@[j]@);
            }
        }
    }

    /// The recovery step with given draws, one per node: each node in
    /// cooldown that the agent is not attached to becomes active when its draw
    /// is below the chance of this tick.
    pub fn resume_nodes_with(&mut self, dt_ms: u32, draws: &Vec<u32>)
        requires
            old(self).wf(),
            draws.len() == old(self)@.graph.nodes.len(),
        ensures
            final(self).wf(),
            recovery_with(old(self)@, dt_ms, draws@, final(self)@),
    {
        let chance = chance_in(self.scaling.lumina_resume_per_sec, dt_ms);
        let n = self.graph.len();
        let mut i: usize = 0;
        while i < n
            invariant
                self.wf(),
                i <= n,
                n == old(self)@.graph.nodes.len(),
                draws.len() == n,
                chance == recovery_chance(old(self)@, dt_ms),
                same_links(old(self)@.graph, self@.graph),
                self@ == (SimView { graph: self@.graph, ..old(self)@ }),
                forall|j: int| 0 <= j < i ==> (#[trigger] self@.graph.nodes[j]).cooldown == (old(self)@.graph.nodes[j].cooldown
                    && (attached_to(old(self)@, j) || draws@[j] >= recovery_chance(old(self)@, dt_ms))),
                forall|j: int| i <= j < n ==> (#[trigger] self@.graph.nodes[j]).cooldown == old(self)@.graph.nodes[j].cooldown,
            decreases n - i,
        {
            let attached_here = match self.attached {
                Some(a) => a.lumina == i,
                None => false,
            };
            if self.graph.is_cooldown(i) && !attached_here && (draws[i] as u64) < chance {
                let ghost s0 = self@;
                self.graph.set_cooldown(i, false);
                proof {
                    lemma_wf_same_links(s0, self@.graph);
                }
            }
            i = i + 1;
        }
    }

    /// The recovery step with fresh random draws.
    pub fn resume_nodes(&mut self, dt_ms: u32)
        requires
            old(self).wf(),
        ensures
            final(self).wf(),
            recovery_step(old(self)@, dt_ms, final(self)@),
    {
        let draws = Self::roll_each(self.graph.len());
        self.resume_nodes_with(dt_ms, &draws);
        assert(recovery_with(old(self)@, dt_ms, draws@, self@));
    }

    /// One tick of the core, in order: the proximity step (and the link its
    /// change event asks for), generation, movement and delivery, recovery.
    /// Returns the attachment change event of this tick, if any.
    pub fn tick(&mut self, ship: Pos, dt_ms: u32) -> (r: Option<AttachedChange>)
        requires
            old(self).wf(),
            ship.agent_in_bounds(),
        ensures
            final(self).wf(),
            exists|s1: SimView, s2: SimView, s3: SimView|
                {
                    &&& tracking_step(old(self)@, ship, s1, r)
                    &&& generation_step(s1, dt_ms, s2)
                    &&& movement_step(s2, dt_ms, s3)
                    &&& recovery_step(s3, dt_ms, final(self)@)
                },
            final(self)@.nearby == nearby_spec(old(self)@.graph, ship, around(old(self)@, ship)),
            same_links(linked_by(old(self)@.graph, r), final(self)@.graph),
            final(self)@.chunks == old(self)@.chunks,
            final(self)@.scaling == old(self)@.scaling,
            old(self)@.energy <= final(self)@.energy <= old(self)@.scaling.energy_cap(),
    {
        let event = self.track(ship);
        let ghost s1 = self@;
        self.generate_packets(dt_ms);
        let ghost s2 = self@;
        self.move_packets(dt_ms);
        let ghost s3 = self@;
        self.resume_nodes(dt_ms);
        assert(tracking_step(old(self)@, ship, s1, event) && generation_step(s1, dt_ms, s2) && movement_step(s2, dt_ms, s3)
            && recovery_step(s3, dt_ms, self@));
        event
    }

    /// Creates each chunk of `cs` in turn, with the spawn thresholds of the
    /// same position in `thresholds` and fresh random draws; a chunk created
    /// before is left as it was.
    pub fn populate_chunks(&mut self, cs: &Vec<ChunkCoord>, thresholds: &Vec<Vec<u32>>)
        requires
            old(self).wf(),
            thresholds.len() == cs.len(),
            forall|k: int| 0 <= k < thresholds.len() ==> (#[trigger] thresholds@[k]).len() == CELL_COUNT,
            old(self)@.graph.nodes.len() + CELL_COUNT * cs.len() <= usize::MAX,
        ensures
            final(self).wf(),
            exists|dss: Seq<Seq<CellDraw>>|
                {
                    &&& dss.len() == cs.len()
                    &&& forall|k: int, j: int| 0 <= k < dss.len() && 0 <= j < CELL_COUNT ==> (#[trigger] dss[k][j]).wf()
                    &&& forall|k: int| 0 <= k < dss.len() ==> (#[trigger] dss[k]).len() == CELL_COUNT
                    &&& final(self)@ == populated_all(old(self)@, cs@, thresholds@, dss, cs.len() as nat)
                },
    {
        let ghost mut dss: Seq<Seq<CellDraw>> = Seq::empty();
        let mut k: usize = 0;
        while k < cs.len()
            invariant
                self.wf(),
                k <= cs.len(),
                thresholds.len() == cs.len(),
                forall|m: int| 0 <= m < thresholds.len() ==> (#[trigger] thresholds@[m]).len() == CELL_COUNT,
                old(self)@.graph.nodes.len() + CELL_COUNT * cs.len() <= usize::MAX,
                self@.graph.nodes.len() <= old(self)@.graph.nodes.len() + CELL_COUNT * k,
                dss.len() == k,
                forall|m: int, j: int| 0 <= m < dss.len() && 0 <= j < CELL_COUNT ==> (#[trigger] dss[m][j]).wf(),
                forall|m: int| 0 <= m < dss.len() ==> (#[trigger] dss[m]).len() == CELL_COUNT,
                self@ == populated_all(old(self)@, cs@, thresholds@, dss, k as nat),
            decreases cs.len() - k,
        {
            let ghost before = self@;
            assert(CELL_COUNT * k + CELL_COUNT <= CELL_COUNT * cs.len());
            self.populate_chunk(cs[k], &thresholds[k]);
            let ghost d = choose|d: Seq<CellDraw>|
                {
                    &&& d.len() == CELL_COUNT
                    &&& forall|j: int| 0 <= j < d.len() ==> (#[trigger] d[j]).wf()
                    &&& self@ == before.populated(cs@[k as int], placements(cs@[k as int], thresholds@[k as int]@, d, CELL_COUNT as nat))
                };
            proof {
                lemma_placements_in_bounds(cs@[k as int], thresholds@[k as int]@, d, CELL_COUNT as nat);
                let ghost old_dss = dss;
                dss = dss.push(d);
                lemma_populated_all_same(old(self)@, cs@, thresholds@, old_dss, dss, k as nat);
                assert(dss[k as int] == d);
            }
            k = k + 1;
        }
    }

    fn add_chunk(&mut self, c: ChunkCoord, key: i64, ps: &Vec<Pos>)
        requires
            old(self).wf(),
            key == chunk_key(c),
            !old(self)@.created(c),
            ps.len() <= CELL_COUNT,
            forall|k: int| 0 <= k < ps.len() ==> (#[trigger] ps@[k]).in_bounds(),
            old(self)@.graph.nodes.len() + CELL_COUNT <= usize::MAX,
        ensures
            final(self).wf(),
            final(self)@ == old(self)@.with_chunk(c, ps@),
    {
        let ghost g0 = self.graph@;
        let n0 = self.graph.len();
        let mut ids: Vec<usize> = Vec::new();
        let mut j: usize = 0;
        while j < ps.len()
            invariant
                j <= ps.len(),
                ps.len() <= CELL_COUNT,
                n0 == g0.nodes.len(),
                n0 + CELL_COUNT <= usize::MAX,
                forall|k: int| 0 <= k < ps.len() ==> (#[trigger] ps@[k]).in_bounds(),
                self.graph.wf(),
                self.graph@ == (GraphView { nodes: g0.nodes + ps@.take(j as int).map_values(|p: Pos| new_node(p)), ..g0 }),
                ids@ == Seq::new(j as nat, |k: int| (n0 + k) as usize),
                self.scaling == old(self).scaling,
                self.chunks == old(self).chunks,
                self.attached == old(self).attached,
                self.nearby == old(self).nearby,
                self.packets == old(self).packets,
                self.energy == old(self).energy,
            decreases ps.len() - j,
        {
            let id = self.graph.add_node(ps[j]);
            ids.push(id);
            j = j + 1;
            assert(ps@.take(j as int).map_values(|p: Pos| new_node(p)) =~= ps@.take(j - 1).map_values(|p: Pos| new_node(p)).push(new_node(ps@[j - 1])));
            assert(self.graph@.nodes =~= g0.nodes + ps@.take(j as int).map_values(|p: Pos| new_node(p)));
            assert(ids@ =~= Seq::new(j as nat, |k: int| (n0 + k) as usize));
        }
        assert(ps@.take(j as int) =~= ps@);
        let ghost ids_view = ids@;
        let ghost before = self.chunks@;
        self.chunks.insert(key, ids);
        let ghost s = old(self)@.with_chunk(c, ps@);
        assert(self.chunks@ == before.insert(key, ids));
        assert(ids_view =~= Seq::new(ps@.len(), |k: int| (g0.nodes.len() + k) as usize));
        assert(self@.chunks =~= s.chunks);
        assert(self@ == s);
        assert forall|key2: i64, k: int| s.chunks.contains_key(key2) && 0 <= k < s.chunks[key2].len() implies s.graph.valid_id(
            #[trigger] s.chunks[key2][k] as int,
        ) by {
            if key2 != key {
                assert(old(self)@.chunks.contains_key(key2));
                assert(old(self)@.graph.valid_id(old(self)@.chunks[key2][k] as int));
            }
        }
    }
}

} // verus!
