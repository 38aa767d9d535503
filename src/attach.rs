//! The proximity tracker: nearby nodes, the attach candidate, and the
//! attachment rules with their change events.

use vstd::prelude::*;
use crate::geometry::{Pos, dist_sq, dist_sq_spec};
use crate::graph::LinkGraph;

verus! {

/// Nodes closer than this to the agent are "nearby".
pub const NEARBY_DISTANCE: u64 = 300;

/// The agent attaches to the closest node closer than this.
pub const ATTACH_DISTANCE: u64 = 100;

/// The agent's attachment: the node it is attached to, and whether the agent
/// is still within attach distance of it.
#[derive(Clone, Copy, Debug, PartialEq, Eq, Structural)]
pub struct Attached {
    pub lumina: usize,
    pub in_range: bool,
}

/// The attachment moved from one node to another.
#[derive(Clone, Copy, Debug, PartialEq, Eq, Structural)]
pub struct AttachedChange {
    pub from: usize,
    pub to: usize,
}

/// The attachment after a scan that found `candidate`, and the change event
/// that the scan fires, if any.
pub open spec fn transition_spec(current: Option<Attached>, candidate: Option<usize>) -> (
    Option<Attached>,
    Option<AttachedChange>,
) {
    match candidate {
        Some(c) => match current {
            Some(a) => if a.lumina != c {
                (Some(Attached { lumina: c, in_range: true }), Some(AttachedChange { from: a.lumina, to: c }))
            } else {
                (Some(Attached { lumina: c, in_range: true }), None)
            },
            None => (Some(Attached { lumina: c, in_range: true }), None),
        },
        None => match current {
            Some(a) => (Some(Attached { lumina: a.lumina, in_range: false }), None),
            None => (None, None),
        },
    }
}

/// Applies the attachment rules to the candidate of a scan.
pub fn attachment_transition(current: Option<Attached>, candidate: Option<usize>) -> (r: (
    Option<Attached>,
    Option<AttachedChange>,
))
    ensures
        r == transition_spec(current, candidate),
{
    match candidate {
        Some(c) => match current {
            Some(a) => if a.lumina != c {
                (Some(Attached { lumina: c, in_range: true }), Some(AttachedChange { from: a.lumina, to: c }))
            } else {
                (Some(Attached { lumina: c, in_range: true }), None)
            },
            None => (Some(Attached { lumina: c, in_range: true }), None),
        },
        None => match current {
            Some(a) => (Some(Attached { lumina: a.lumina, in_range: false }), None),
            None => (None, None),
        },
    }
}

/// An event fires exactly when the attached node changes: it names the old
/// node and the new one, and the agent stays attached once it has attached.
pub proof fn lemma_event_iff_node_changes(current: Option<Attached>, candidate: Option<usize>)
    ensures
        ({
            let (next, event) = transition_spec(current, candidate);
            &&& current is Some ==> next is Some
            &&& (event is Some <==> (current is Some && next is Some && current.unwrap().lumina
                != next.unwrap().lumina))
            &&& event is Some ==> event.unwrap() == (AttachedChange {
                from: current.unwrap().lumina,
                to: next.unwrap().lumina,
            })
        }),
{
}

/// `d` is below `limit` in squared units, so the distance is below `limit`.
pub open spec fn within(d: int, limit: u64) -> bool {
    d < limit * limit
}

/// `r` is the candidate of a scan of `ids` at squared distances `dists`: the
/// closest node within the attach distance, the first one scanned on ties, or
/// none if no node is that close.
pub open spec fn is_closest(dists: Seq<int>, ids: Seq<usize>, r: Option<usize>) -> bool {
    match r {
        None => forall|j: int| 0 <= j < dists.len() ==> !within(#[trigger] dists[j], ATTACH_DISTANCE),
        Some(c) => exists|k: int|
            {
                &&& 0 <= k < dists.len()
                &&& ids[k] == c
                &&& within(dists[k], ATTACH_DISTANCE)
                &&& forall|j: int| 0 <= j < dists.len() ==> #[trigger] dists[j] >= dists[k]
                &&& forall|j: int| 0 <= j < k ==> #[trigger] dists[j] > dists[k]
            },
    }
}

/// The result of a scan around the agent.
pub struct Scan {
    /// The scanned nodes within the nearby distance, in scan order.
    pub nearby: Vec<usize>,
    /// The attach candidate.
    pub closest: Option<usize>,
}

/// Squared distances of the nodes `ids` of `g` from `ship`.
pub open spec fn dists_spec(g: crate::graph::GraphView, ship: Pos, ids: Seq<usize>) -> Seq<int> {
    ids.map_values(|i: usize| dist_sq_spec(g.nodes[i as int].pos, ship))
}

/// Nodes of `ids` within `limit` of `ship`, in order.
pub open spec fn nearby_spec(g: crate::graph::GraphView, ship: Pos, ids: Seq<usize>) -> Seq<usize>
    decreases ids.len(),
{
    if ids.len() == 0 {
        Seq::empty()
    } else {
        let prev = nearby_spec(g, ship, ids.drop_last());
        if within(dist_sq_spec(g.nodes[ids.last() as int].pos, ship), NEARBY_DISTANCE) {
            prev.push(ids.last())
        } else {
            prev
        }
    }
}

/// Scans the nodes `ids` around the agent at `ship`: which are nearby, and
/// which is the attach candidate.
pub fn scan(g: &LinkGraph, ship: Pos, ids: &Vec<usize>) -> (r: Scan)
    requires
        g.wf(),
        ship.in_bounds(),
        forall|k: int| 0 <= k < ids.len() ==> g@.valid_id(#[trigger] ids@[k] as int),
    ensures
        r.nearby@ == nearby_spec(g@, ship, ids@),
        is_closest(dists_spec(g@, ship, ids@), ids@, r.closest),
{
    let ghost dists = dists_spec(g@, ship, ids@);
    let ghost mut bk: int = 0;
    let mut nearby: Vec<usize> = Vec::new();
    let mut closest: Option<usize> = None;
    let mut best: u128 = 0;
    let mut i: usize = 0;
    while i < ids.len()
        invariant
            g.wf(),
            ship.in_bounds(),
            forall|k: int| 0 <= k < ids.len() ==> g@.valid_id(#[trigger] ids@[k] as int),
            dists == dists_spec(g@, ship, ids@),
            i <= ids.len(),
            nearby@ == nearby_spec(g@, ship, ids@.take(i as int)),
            closest is None ==> forall|j: int| 0 <= j < i ==> !within(#[trigger] dists[j], ATTACH_DISTANCE),
            closest is Some ==> {
                &&& 0 <= bk < i
                &&& ids@[bk] == closest.unwrap()
                &&& dists[bk] == best as int
                &&& within(best as int, ATTACH_DISTANCE)
                &&& forall|j: int| 0 <= j < i ==> #[trigger] dists[j] >= best as int
                &&& forall|j: int| 0 <= j < bk ==> #[trigger] dists[j] > best as int
            },
        decreases ids.len() - i,
    {
        let id = ids[i];
        proof {
            assert(g@.nodes[id as int].pos.in_bounds());
        }
        let d = dist_sq(g.position(id), ship);
        assert(d as int == dists[i as int]);
        assert(ids@.take(i as int + 1).drop_last() =~= ids@.take(i as int));
        assert(ids@.take(i as int + 1).last() == id);
        if d < NEARBY_DISTANCE as u128 * NEARBY_DISTANCE as u128 {
            nearby.push(id);
        }
        if d < ATTACH_DISTANCE as u128 * ATTACH_DISTANCE as u128 {
            let better = match closest {
                None => true,
                Some(_) => d < best,
            };
            if better {
                closest = Some(id);
                best = d;
                proof {
                    bk = i as int;
                }
            }
        }
        i = i + 1;
    }
    assert(ids@.take(i as int) =~= ids@);
    proof {
        if closest is Some {
            assert(ids@[bk] == closest.unwrap());
        }
    }
    Scan { nearby, closest }
}

} // verus!
