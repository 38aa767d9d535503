//! Energy packets: generation, movement along edges, branching at nodes,
//! retracing on the way back, and delivery.

use vstd::prelude::*;
use crate::geometry::{dist_sq_spec, edge_length, floor_sqrt};
use crate::graph::{GraphView, LinkGraph};

verus! {

/// Speed of a packet, in world units per second.
pub const SPEED: u64 = 500;

/// Progress along an edge is kept in thousandths of a world unit, so that a
/// packet moving for `dt` milliseconds covers exactly `SPEED * dt` of them.
pub const SUBUNITS: u64 = 1000;

/// A packet of energy in transit from `path.last()` to `target`.
pub struct Energy {
    pub target: usize,
    /// Distance already covered on the current edge, in thousandths of a unit.
    pub travelled: u64,
    /// The nodes visited so far; the last one is the current edge's source.
    pub path: Vec<usize>,
    pub returning: bool,
    /// Length of the edges completed so far.
    pub distance: u64,
}

pub struct EnergyView {
    pub target: usize,
    pub travelled: u64,
    pub path: Seq<usize>,
    pub returning: bool,
    pub distance: u64,
}

impl View for Energy {
    type V = EnergyView;

    open spec fn view(&self) -> EnergyView {
        EnergyView {
            target: self.target,
            travelled: self.travelled,
            path: self.path@,
            returning: self.returning,
            distance: self.distance,
        }
    }
}

pub open spec fn views(s: Seq<Energy>) -> Seq<EnergyView> {
    s.map_values(|e: Energy| e@)
}

/// A fresh packet leaving `source` for `target`.
pub open spec fn fresh_packet(source: usize, target: usize) -> EnergyView {
    EnergyView { target, travelled: 0, path: seq![source], returning: false, distance: 0 }
}

/// Packets that `source` sends to the first `n` of its neighbours: one to
/// each neighbour whose draw is below `chance`.
pub open spec fn generated(source: usize, neighbors: Seq<usize>, draws: Seq<u32>, chance: int, n: nat) -> Seq<
    EnergyView,
>
    decreases n,
{
    if n == 0 {
        Seq::empty()
    } else {
        let prev = generated(source, neighbors, draws, chance, (n - 1) as nat);
        if draws[n - 1] < chance {
            prev.push(fresh_packet(source, neighbors[n - 1]))
        } else {
            prev
        }
    }
}

/// The child sent on to `t` by a forward packet `p` that arrived at `arrival`.
pub open spec fn child(p: EnergyView, arrival: usize, t: usize) -> EnergyView {
    EnergyView {
        target: t,
        travelled: 0,
        path: p.path.push(arrival),
        returning: t == p.path.last(),
        distance: p.distance,
    }
}

/// A branch towards `t` survives when its draw is below the reflection
/// probability (back the way it came) or the propagation probability (onward).
pub open spec fn survives(p: EnergyView, t: usize, draw: u32, propagation: u32, reflection: u32) -> bool {
    draw < if t == p.path.last() {
        reflection
    } else {
        propagation
    }
}

/// Children of a forward packet `p` at `arrival`, over the first `n` neighbours.
pub open spec fn branched(
    p: EnergyView,
    arrival: usize,
    neighbors: Seq<usize>,
    draws: Seq<u32>,
    propagation: u32,
    reflection: u32,
    n: nat,
) -> Seq<EnergyView>
    decreases n,
{
    if n == 0 {
        Seq::empty()
    } else {
        let prev = branched(p, arrival, neighbors, draws, propagation, reflection, (n - 1) as nat);
        if survives(p, neighbors[n - 1], draws[n - 1], propagation, reflection) {
            prev.push(child(p, arrival, neighbors[n - 1]))
        } else {
            prev
        }
    }
}

/// What becomes of a returning packet when it arrives.
pub enum Retrace {
    /// Its path is used up at the node it arrived at: it may be delivered there.
    Home,
    /// It was cut short on the way back and is dropped.
    Lost,
    /// It goes on towards the next node of its path.
    Onward(Energy),
}

pub enum RetraceView {
    Home,
    Lost,
    Onward(EnergyView),
}

impl View for Retrace {
    type V = RetraceView;

    open spec fn view(&self) -> RetraceView {
        match self {
            Retrace::Home => RetraceView::Home,
            Retrace::Lost => RetraceView::Lost,
            Retrace::Onward(e) => RetraceView::Onward(e@),
        }
    }
}

/// A returning packet `p` arrives at `arrival`: its source leaves the path;
/// if nodes remain it heads for the last of them, from `arrival`, unless its
/// draw is at or above the propagation probability.
pub open spec fn retrace_spec(p: EnergyView, arrival: usize, draw: u32, propagation: u32) -> RetraceView {
    let rest = p.path.drop_last();
    if rest.len() == 0 {
        RetraceView::Home
    } else if draw >= propagation {
        RetraceView::Lost
    } else {
        RetraceView::Onward(
            EnergyView {
                target: rest.last(),
                travelled: 0,
                path: rest.drop_last().push(arrival),
                returning: true,
                distance: p.distance,
            },
        )
    }
}

/// Chance of an event of `rate_ppm` per second happening within `dt_ms`
/// milliseconds, in parts per million.
pub fn chance_in(rate_ppm: u32, dt_ms: u32) -> (r: u64)
    ensures
        r == rate_ppm as int * dt_ms as int / 1000,
{
    assert(rate_ppm as int * dt_ms as int <= 0xffffffff * 0xffffffff) by (nonlinear_arith)
        requires rate_ppm <= 0xffffffff, dt_ms <= 0xffffffff;
    (rate_ppm as u64) * (dt_ms as u64) / 1000
}

/// Distance a packet covers in `dt_ms` milliseconds, in thousandths of a unit.
pub fn travel_distance(dt_ms: u32) -> (r: u64)
    ensures
        r == SPEED * dt_ms,
        dt_ms > 0 ==> r > 0,
{
    SPEED * (dt_ms as u64)
}

/// Progress on an edge that is `edge_len` long after moving `step` further,
/// clamped to the edge's end (all in one unit). The packet has arrived when it
/// equals `edge_len` (at once on an edge of length zero).
pub fn advance(travelled: u64, edge_len: u64, step: u64) -> (r: u64)
    ensures
        r == if travelled + step >= edge_len { edge_len as int } else { travelled + step },
{
    if travelled >= edge_len || step >= edge_len - travelled {
        edge_len
    } else {
        travelled + step
    }
}

/// Length of completed edges after one more edge, saturating at `u64::MAX`.
pub fn add_distance(distance: u64, edge_len: u64) -> (r: u64)
    ensures
        r == if distance + edge_len > u64::MAX { u64::MAX as int } else { distance + edge_len },
{
    distance.saturating_add(edge_len)
}

/// Energy reserve after a delivery of `distance * rate`, clamped to `cap`.
pub open spec fn delivered_spec(energy: int, distance: int, rate: int, cap: int) -> int {
    if energy + distance * rate >= cap {
        cap
    } else {
        energy + distance * rate
    }
}

/// Adds the energy of a packet that travelled `distance` to the reserve,
/// clamped to `cap`.
pub fn deliver(energy: u64, distance: u64, rate: u64, cap: u64) -> (r: u64)
    requires
        energy <= cap,
    ensures
        r == delivered_spec(energy as int, distance as int, rate as int, cap as int),
        r <= cap,
{
    match distance.checked_mul(rate) {
        Some(gain) => if gain >= cap - energy {
            cap
        } else {
            energy + gain
        },
        None => cap,
    }
}

pub(crate) fn copy_path(v: &Vec<usize>) -> (r: Vec<usize>)
    ensures
        r@ == v@,
{
    let mut r: Vec<usize> = Vec::new();
    let mut i: usize = 0;
    while i < v.len()
        invariant
            i <= v.len(),
            r@ == v@.take(i as int),
        decreases v.len() - i,
    {
        r.push(v[i]);
        i = i + 1;
        assert(r@ =~= v@.take(i as int));
    }
    assert(v@.take(i as int) =~= v@);
    r
}

/// Packets that `source` sends to its neighbours: one to each neighbour
/// whose draw is below `chance`, in neighbour order.
pub fn generate(source: usize, neighbors: &Vec<usize>, draws: &Vec<u32>, chance: u64) -> (r: Vec<Energy>)
    requires
        draws.len() == neighbors.len(),
    ensures
        views(r@) == generated(source, neighbors@, draws@, chance as int, neighbors.len() as nat),
{
    let mut r: Vec<Energy> = Vec::new();
    let mut i: usize = 0;
    while i < neighbors.len()
        invariant
            i <= neighbors.len(),
            draws.len() == neighbors.len(),
            views(r@) == generated(source, neighbors@, draws@, chance as int, i as nat),
        decreases neighbors.len() - i,
    {
        if (draws[i] as u64) < chance {
            let e = Energy { target: neighbors[i], travelled: 0, path: vec![source], returning: false, distance: 0 };
            assert(e@.path =~= seq![source]);
            assert(e@ == fresh_packet(source, neighbors@[i as int]));
            let ghost before = r@;
            r.push(e);
            assert(views(r@) =~= views(before).push(e@));
        }
        i = i + 1;
    }
    r
}

/// Children of a forward packet `p` that arrived at `arrival`, whose
/// neighbours are `neighbors`: one per surviving branch, in neighbour order.
/// The packet itself ends; when no branch survives it ends with no delivery.
pub fn branch(
    p: &Energy,
    arrival: usize,
    neighbors: &Vec<usize>,
    draws: &Vec<u32>,
    propagation: u32,
    reflection: u32,
) -> (r: Vec<Energy>)
    requires
        p.path.len() > 0,
        draws.len() >= neighbors.len(),
    ensures
        views(r@) == branched(p@, arrival, neighbors@, draws@, propagation, reflection, neighbors.len() as nat),
{
    let source = p.path[p.path.len() - 1];
    let mut r: Vec<Energy> = Vec::new();
    let mut i: usize = 0;
    while i < neighbors.len()
        invariant
            i <= neighbors.len(),
            draws.len() >= neighbors.len(),
            p.path.len() > 0,
            source == p@.path.last(),
            views(r@) == branched(p@, arrival, neighbors@, draws@, propagation, reflection, i as nat),
        decreases neighbors.len() - i,
    {
        let t = neighbors[i];
        let back = t == source;
        let limit = if back {
            reflection
        } else {
            propagation
        };
        if draws[i] < limit {
            let mut path = copy_path(&p.path);
            path.push(arrival);
            let e = Energy { target: t, travelled: 0, path, returning: back, distance: p.distance };
            assert(e@ == child(p@, arrival, t));
            let ghost before = r@;
            r.push(e);
            assert(views(r@) =~= views(before).push(e@));
        }
        i = i + 1;
    }
    r
}

/// A returning packet `p` arrives at `arrival`.
pub fn retrace(p: Energy, arrival: usize, draw: u32, propagation: u32) -> (r: Retrace)
    requires
        p.path.len() > 0,
    ensures
        r@ == retrace_spec(p@, arrival, draw, propagation),
{
    let ghost old_p = p@;
    let mut path = p.path;
    path.pop();
    if path.len() == 0 {
        Retrace::Home
    } else if draw >= propagation {
        Retrace::Lost
    } else {
        let next = path.pop().unwrap();
        path.push(arrival);
        let e = Energy { target: next, travelled: 0, path, returning: true, distance: p.distance };
        assert(e@.path =~= old_p.path.drop_last().drop_last().push(arrival));
        Retrace::Onward(e)
    }
}

/// Every generated packet leaves `source` for one of its neighbours.
pub proof fn lemma_generated_shape(source: usize, neighbors: Seq<usize>, draws: Seq<u32>, chance: int, n: nat)
    requires
        n <= neighbors.len(),
    ensures
        forall|k: int| 0 <= k < generated(source, neighbors, draws, chance, n).len() ==> {
            let e = #[trigger] generated(source, neighbors, draws, chance, n)[k];
            &&& e.path == seq![source]
            &&& neighbors.contains(e.target)
        },
    decreases n,
{
    if n > 0 {
        lemma_generated_shape(source, neighbors, draws, chance, (n - 1) as nat);
        assert(neighbors[n - 1] == neighbors[n - 1]);
        let prev = generated(source, neighbors, draws, chance, (n - 1) as nat);
        assert forall|k: int| 0 <= k < generated(source, neighbors, draws, chance, n).len() implies {
            let e = #[trigger] generated(source, neighbors, draws, chance, n)[k];
            &&& e.path == seq![source]
            &&& neighbors.contains(e.target)
        } by {
            if k < prev.len() {
                assert(generated(source, neighbors, draws, chance, n)[k] == prev[k]);
            } else {
                assert(neighbors[n - 1] == generated(source, neighbors, draws, chance, n)[k].target);
            }
        }
    }
}

/// Every child of a forward packet extends its path with the arrival node and
/// heads for one of the arrival node's neighbours.
pub proof fn lemma_branched_shape(
    p: EnergyView,
    arrival: usize,
    neighbors: Seq<usize>,
    draws: Seq<u32>,
    propagation: u32,
    reflection: u32,
    n: nat,
)
    requires
        n <= neighbors.len(),
    ensures
        forall|k: int| 0 <= k < branched(p, arrival, neighbors, draws, propagation, reflection, n).len() ==> {
            let e = #[trigger] branched(p, arrival, neighbors, draws, propagation, reflection, n)[k];
            &&& e.path == p.path.push(arrival)
            &&& neighbors.contains(e.target)
        },
    decreases n,
{
    if n > 0 {
        lemma_branched_shape(p, arrival, neighbors, draws, propagation, reflection, (n - 1) as nat);
        let prev = branched(p, arrival, neighbors, draws, propagation, reflection, (n - 1) as nat);
        assert forall|k: int| 0 <= k < branched(p, arrival, neighbors, draws, propagation, reflection, n).len() implies {
            let e = #[trigger] branched(p, arrival, neighbors, draws, propagation, reflection, n)[k];
            &&& e.path == p.path.push(arrival)
            &&& neighbors.contains(e.target)
        } by {
            if k < prev.len() {
                assert(branched(p, arrival, neighbors, draws, propagation, reflection, n)[k] == prev[k]);
            } else {
                assert(neighbors[n - 1] == branched(p, arrival, neighbors, draws, propagation, reflection, n)[k].target);
            }
        }
    }
}

/// A delivery never takes the reserve above the cap, nor below where it was.
pub proof fn lemma_delivery_bounded(energy: int, distance: int, rate: int, cap: int)
    requires
        0 <= energy <= cap,
        0 <= distance,
        0 <= rate,
    ensures
        energy <= delivered_spec(energy, distance, rate, cap) <= cap,
{
    assert(distance * rate >= 0) by (nonlinear_arith)
        requires 0 <= distance, 0 <= rate;
}

/// Length of the edge that packet `p` is on, rounded down.
pub open spec fn edge_spec(g: GraphView, p: EnergyView) -> int {
    floor_sqrt(dist_sq_spec(g.nodes[p.path.last() as int].pos, g.nodes[p.target as int].pos))
}

/// What one packet becomes in a tick: the packets that replace it, and, when
/// a returning packet has used up its path, the node where it stands and the
/// distance it travelled (it may then deliver its energy there).
///
/// It moves `step` thousandths of a unit further along its edge. Once at the
/// end, the edge's length is added to its distance; a forward packet branches over the arrival
/// node's neighbours with `draws`, and a returning one retraces with `draws[0]`.
pub open spec fn step_spec(g: GraphView, p: EnergyView, step: u64, draws: Seq<u32>, propagation: u32, reflection: u32) -> (
    Seq<EnergyView>,
    Option<(usize, u64)>,
) {
    let edge = edge_spec(g, p);
    let span = edge * SUBUNITS;
    let t = if p.travelled + step >= span {
        span
    } else {
        p.travelled + step
    };
    if t < span {
        (seq![EnergyView { travelled: t as u64, ..p }], None)
    } else {
        let d = if p.distance + edge > u64::MAX {
            u64::MAX as int
        } else {
            p.distance + edge
        };
        let a = EnergyView { travelled: t as u64, distance: d as u64, ..p };
        if !p.returning {
            let neighbors = g.nodes[p.target as int].targets;
            (branched(a, p.target, neighbors, draws, propagation, reflection, neighbors.len()), None)
        } else {
            match retrace_spec(a, p.target, draws[0], propagation) {
                RetraceView::Home => (Seq::empty(), Some((p.target, d as u64))),
                RetraceView::Lost => (Seq::empty(), None),
                RetraceView::Onward(q) => (seq![q], None),
            }
        }
    }
}

/// A packet keeps moving: a step of positive length takes it exactly that
/// much further along its edge, or, once the edge is covered, to its end,
/// where it arrives and every packet that replaces it starts a new edge.
/// A packet that has covered `t` of an edge spanning `span` thousandths thus
/// arrives within `(span - t) / step + 1` steps.
pub proof fn lemma_step_progress(g: GraphView, p: EnergyView, step: u64, draws: Seq<u32>, propagation: u32, reflection: u32)
    requires
        step > 0,
        p.travelled < edge_spec(g, p) * SUBUNITS,
    ensures
        p.travelled + step < edge_spec(g, p) * SUBUNITS ==> step_spec(g, p, step, draws, propagation, reflection)
            == (seq![EnergyView { travelled: (p.travelled + step) as u64, ..p }], None::<(usize, u64)>),
        p.travelled + step >= edge_spec(g, p) * SUBUNITS ==> forall|k: int|
            0 <= k < step_spec(g, p, step, draws, propagation, reflection).0.len()
                ==> (#[trigger] step_spec(g, p, step, draws, propagation, reflection).0[k]).travelled == 0,
{
    let edge = edge_spec(g, p);
    if p.travelled + step >= edge * SUBUNITS {
        let d = if p.distance + edge > u64::MAX { u64::MAX as int } else { p.distance + edge };
        let a = EnergyView { travelled: (edge * SUBUNITS) as u64, distance: d as u64, ..p };
        if !p.returning {
            let neighbors = g.nodes[p.target as int].targets;
            lemma_branched_travelled(a, p.target, neighbors, draws, propagation, reflection, neighbors.len());
        }
    }
}

proof fn lemma_branched_travelled(
    p: EnergyView,
    arrival: usize,
    neighbors: Seq<usize>,
    draws: Seq<u32>,
    propagation: u32,
    reflection: u32,
    n: nat,
)
    ensures
        forall|k: int| 0 <= k < branched(p, arrival, neighbors, draws, propagation, reflection, n).len()
            ==> (#[trigger] branched(p, arrival, neighbors, draws, propagation, reflection, n)[k]).travelled == 0,
    decreases n,
{
    if n > 0 {
        lemma_branched_travelled(p, arrival, neighbors, draws, propagation, reflection, (n - 1) as nat);
        let prev = branched(p, arrival, neighbors, draws, propagation, reflection, (n - 1) as nat);
        assert forall|k: int| 0 <= k < branched(p, arrival, neighbors, draws, propagation, reflection, n).len()
            implies (#[trigger] branched(p, arrival, neighbors, draws, propagation, reflection, n)[k]).travelled == 0 by {
            if k < prev.len() {
                assert(branched(p, arrival, neighbors, draws, propagation, reflection, n)[k] == prev[k]);
            }
        }
    }
}

/// Draws that a step of packet `p` takes: one per neighbour of its target,
/// and at least one.
pub open spec fn draws_needed(g: GraphView, p: EnergyView) -> nat {
    if g.nodes[p.target as int].targets.len() == 0 {
        1
    } else {
        g.nodes[p.target as int].targets.len()
    }
}

/// One tick of packet `p` on graph `g`.
pub fn step_packet(g: &LinkGraph, p: &Energy, step: u64, draws: &Vec<u32>, propagation: u32, reflection: u32) -> (r: (
    Vec<Energy>,
    Option<(usize, u64)>,
))
    requires
        g.wf(),
        g@.valid_id(p.target as int),
        p.path.len() > 0,
        g@.valid_id(p@.path.last() as int),
        draws.len() == draws_needed(g@, p@),
    ensures
        (views(r.0@), r.1) == step_spec(g@, p@, step, draws@, propagation, reflection),
{
    let src = p.path[p.path.len() - 1];
    let dst = p.target;
    assert(g@.nodes[src as int].pos.in_bounds());
    assert(g@.nodes[dst as int].pos.in_bounds());
    let edge = edge_length(g.position(src), g.position(dst));
    let span = edge * SUBUNITS;
    let t = advance(p.travelled, span, step);
    let path = copy_path(&p.path);
    let mut out: Vec<Energy> = Vec::new();
    if t < span {
        out.push(Energy { target: dst, travelled: t, path, returning: p.returning, distance: p.distance });
        assert(views(out@) =~= seq![EnergyView { travelled: t, ..p@ }]);
        return (out, None);
    }
    let distance = add_distance(p.distance, edge);
    let arrived = Energy { target: dst, travelled: t, path, returning: p.returning, distance };
    if !p.returning {
        let out = branch(&arrived, dst, g.targets(dst), draws, propagation, reflection);
        (out, None)
    } else {
        match retrace(arrived, dst, draws[0], propagation) {
            Retrace::Home => (out, Some((dst, distance))),
            Retrace::Lost => (out, None),
            Retrace::Onward(q) => {
                out.push(q);
                assert(views(out@) =~= seq![out@[0]@]);
                (out, None)
            },
        }
    }
}

/// Applies `k` returning arrivals to `p`, each at the packet's target, with
/// the draws `draws[0..k]`.
pub open spec fn retrace_chain(p: EnergyView, draws: Seq<u32>, propagation: u32, k: nat) -> RetraceView
    decreases k,
{
    if k == 0 {
        RetraceView::Onward(p)
    } else {
        match retrace_chain(p, draws, propagation, (k - 1) as nat) {
            RetraceView::Onward(q) => retrace_spec(q, q.target, draws[k - 1], propagation),
            other => other,
        }
    }
}

/// Each returning arrival takes one node off the path.
pub proof fn lemma_retrace_shrinks(p: EnergyView, arrival: usize, draw: u32, propagation: u32)
    requires
        p.path.len() > 0,
    ensures
        retrace_spec(p, arrival, draw, propagation) matches RetraceView::Onward(q) ==> {
            &&& q.returning
            &&& q.path.len() == p.path.len() - 1
            &&& q.path.len() > 0
        },
{
}

/// A returning packet ends, at home or lost, within as many arrivals as its
/// path has nodes.
pub proof fn lemma_return_terminates(p: EnergyView, draws: Seq<u32>, propagation: u32)
    requires
        p.returning,
        p.path.len() > 0,
    ensures
        !(retrace_chain(p, draws, propagation, p.path.len()) is Onward),
{
    lemma_retrace_chain_len(p, draws, propagation, p.path.len());
}

proof fn lemma_retrace_chain_len(p: EnergyView, draws: Seq<u32>, propagation: u32, k: nat)
    requires
        p.path.len() > 0,
        k <= p.path.len(),
    ensures
        retrace_chain(p, draws, propagation, k) matches RetraceView::Onward(q) ==> q.path.len()
            == p.path.len() - k,
    decreases k,
{
    if k > 0 {
        lemma_retrace_chain_len(p, draws, propagation, (k - 1) as nat);
        if let RetraceView::Onward(q) = retrace_chain(p, draws, propagation, (k - 1) as nat) {
            if q.path.len() > 0 {
                lemma_retrace_shrinks(q, q.target, draws[k - 1], propagation);
            }
        }
    }
}

} // verus!
