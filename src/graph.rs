//! The link graph: nodes, their links, a degree cap, and a union-find
//! structure that refuses links between nodes already connected.

use vstd::prelude::*;
use disjoint_hash_set::DisjointHashSet;
use crate::geometry::Pos;

verus! {

#[verifier::external_type_specification]
#[verifier::external_body]
#[verifier::reject_recursive_types(K)]
pub struct ExDisjointHashSet<K>(DisjointHashSet<K>);

/// The pairs of keys that a disjoint set reports as members of one set.
pub uninterp spec fn linked_pairs(s: DisjointHashSet<usize>) -> Set<(usize, usize)>;

/// `x` belongs to the set of `a` or to the set of `b` under the relation `r`
/// (a key not yet in `r` forms a set of its own).
pub open spec fn in_either_set(r: Set<(usize, usize)>, x: usize, a: usize, b: usize) -> bool {
    x == a || x == b || r.contains((x, a)) || r.contains((x, b))
}

/// The relation after the sets of `a` and `b` are merged.
pub open spec fn joined(r: Set<(usize, usize)>, a: usize, b: usize) -> Set<(usize, usize)> {
    Set::new(
        |p: (usize, usize)|
            r.contains(p) || (in_either_set(r, p.0, a, b) && in_either_set(r, p.1, a, b)),
    )
}

/// Relies on `DisjointHashSet::new`: a new structure holds no key.
#[verifier::external_body]
fn sets_new() -> (r: DisjointHashSet<usize>)
    ensures
        linked_pairs(r) == Set::<(usize, usize)>::empty(),
{
    DisjointHashSet::new()
}

/// Relies on `DisjointHashSet::is_linked`: true when both keys are present and
/// in one set; path compression leaves the sets as they were.
#[verifier::external_body]
fn sets_is_linked(s: &mut DisjointHashSet<usize>, a: usize, b: usize) -> (r: bool)
    ensures
        r == linked_pairs(*old(s)).contains((a, b)),
        linked_pairs(*final(s)) == linked_pairs(*old(s)),
{
    s.is_linked(a, b)
}

/// Relies on `DisjointHashSet::link`: inserts missing keys as sets of their own,
/// then merges the set of `a` with the set of `b`.
#[verifier::external_body]
fn sets_link(s: &mut DisjointHashSet<usize>, a: usize, b: usize)
    ensures
        linked_pairs(*final(s)) == joined(linked_pairs(*old(s)), a, b),
{
    s.link(a, b)
}

/// A node of the field ("Lumina"): its position, the nodes it is linked to,
/// and whether it is cooling down (and so generates nothing).
pub struct Lumina {
    pub pos: Pos,
    pub targets: Vec<usize>,
    pub cooldown: bool,
}

pub struct NodeView {
    pub pos: Pos,
    pub targets: Seq<usize>,
    pub cooldown: bool,
}

impl View for Lumina {
    type V = NodeView;

    open spec fn view(&self) -> NodeView {
        NodeView { pos: self.pos, targets: self.targets@, cooldown: self.cooldown }
    }
}

/// The abstract state of a link graph: its nodes, the degree cap, and the
/// connectivity relation of the union-find structure.
pub struct GraphView {
    pub nodes: Seq<NodeView>,
    pub max_links: nat,
    pub conn: Set<(usize, usize)>,
}

impl GraphView {
    pub open spec fn len(self) -> nat {
        self.nodes.len()
    }

    pub open spec fn valid_id(self, i: int) -> bool {
        0 <= i < self.nodes.len()
    }

    pub open spec fn degree(self, i: int) -> nat {
        self.nodes[i].targets.len()
    }

    pub open spec fn has_link(self, a: int, b: int) -> bool {
        self.nodes[a].targets.contains(b as usize)
    }

    pub open spec fn connected(self, a: usize, b: usize) -> bool {
        self.conn.contains((a, b))
    }

    /// `try_link(a, b)` links `a` and `b` exactly when this holds.
    pub open spec fn admits_link(self, a: usize, b: usize) -> bool {
        &&& a != b
        &&& self.valid_id(a as int)
        &&& self.valid_id(b as int)
        &&& !self.connected(a, b)
        &&& self.degree(a as int) < self.max_links
        &&& self.degree(b as int) < self.max_links
    }

    /// The graph after linking `a` and `b`.
    pub open spec fn with_link(self, a: usize, b: usize) -> GraphView {
        let na = self.nodes[a as int];
        let nodes1 = self.nodes.update(a as int, NodeView { targets: na.targets.push(b), ..na });
        let nb = nodes1[b as int];
        GraphView {
            nodes: nodes1.update(b as int, NodeView { targets: nb.targets.push(a), ..nb }),
            max_links: self.max_links,
            conn: joined(self.conn, a, b),
        }
    }

    /// The connectivity relation is an equivalence over node identifiers.
    pub open spec fn conn_wf(self) -> bool {
        &&& forall|p: (usize, usize)| #[trigger] self.conn.contains(p)
            ==> self.valid_id(p.0 as int) && self.valid_id(p.1 as int)
        &&& forall|x: usize, y: usize| #[trigger] self.conn.contains((x, y))
            ==> self.conn.contains((y, x)) && self.conn.contains((x, x))
        &&& forall|x: usize, y: usize, z: usize|
            #[trigger] self.conn.contains((x, y)) && #[trigger] self.conn.contains((y, z))
                ==> self.conn.contains((x, z))
    }

    /// Well-formedness: positions in bounds, each node under the degree cap,
    /// links stored once on each side, never a loop, and linked nodes connected.
    pub open spec fn wf(self) -> bool {
        &&& forall|i: int| self.valid_id(i) ==> (#[trigger] self.nodes[i]).pos.in_bounds()
        &&& forall|i: int| self.valid_id(i) ==> #[trigger] self.degree(i) <= self.max_links
        &&& forall|i: int| self.valid_id(i) ==> (#[trigger] self.nodes[i]).targets.no_duplicates()
        &&& forall|i: int, k: int|
            self.valid_id(i) && 0 <= k < self.nodes[i].targets.len() ==> {
                let t = #[trigger] self.nodes[i].targets[k];
                &&& self.valid_id(t as int)
                &&& t != i
                &&& self.has_link(t as int, i)
                &&& self.connected(i as usize, t)
            }
        &&& self.conn_wf()
    }

    /// Number of nodes among the first `k` that have at least one link.
    pub open spec fn linked_count(self, k: nat) -> nat
        decreases k,
    {
        if k == 0 {
            0
        } else {
            self.linked_count((k - 1) as nat) + if self.nodes[k - 1].targets.len() > 0 {
                1nat
            } else {
                0nat
            }
        }
    }

    /// Network size: the nodes that take part in at least one link. Links are
    /// never removed, so these are the nodes that were ever linked.
    pub open spec fn network_size(self) -> nat {
        self.linked_count(self.nodes.len())
    }
}

/// Merging two sets of an equivalence keeps it an equivalence.
proof fn lemma_joined_wf(g: GraphView, a: usize, b: usize)
    requires
        g.conn_wf(),
        g.valid_id(a as int),
        g.valid_id(b as int),
    ensures
        (GraphView { conn: joined(g.conn, a, b), ..g }).conn_wf(),
{
    let r = g.conn;
    let j = joined(r, a, b);
    assert forall|x: usize, y: usize, z: usize| j.contains((x, y)) && j.contains((y, z)) implies j.contains(
        (x, z),
    ) by {
        if r.contains((x, y)) && r.contains((y, z)) {
        } else if r.contains((x, y)) {
            assert(r.contains((y, x)));
            if r.contains((y, a)) {
                assert(r.contains((x, a)));
            }
            if r.contains((y, b)) {
                assert(r.contains((x, b)));
            }
        } else if r.contains((y, z)) {
            assert(r.contains((z, y)));
            if r.contains((y, a)) {
                assert(r.contains((z, a)));
            }
            if r.contains((y, b)) {
                assert(r.contains((z, b)));
            }
        }
    }
    assert forall|x: usize, y: usize| #[trigger] j.contains((x, y)) implies j.contains((y, x)) && j.contains(
        (x, x),
    ) by {
        if r.contains((x, y)) {
            assert(r.contains((y, x)));
            assert(r.contains((x, x)));
        }
    }
    assert forall|p: (usize, usize)| #[trigger] j.contains(p) implies g.valid_id(p.0 as int)
        && g.valid_id(p.1 as int) by {
        if !r.contains(p) {
            if r.contains((p.0, a)) {
            }
            if r.contains((p.0, b)) {
            }
            if r.contains((p.1, a)) {
            }
            if r.contains((p.1, b)) {
            }
        }
    }
}

/// Growing the arena with unlinked nodes, or changing cooldowns, keeps a
/// graph well formed.
proof fn lemma_same_links_wf(g: GraphView, h: GraphView)
    requires
        g.wf(),
        h.nodes.len() >= g.nodes.len(),
        h.max_links == g.max_links,
        h.conn == g.conn,
        forall|i: int| 0 <= i < g.nodes.len() ==> (#[trigger] h.nodes[i]).pos == g.nodes[i].pos
            && h.nodes[i].targets == g.nodes[i].targets,
        forall|i: int| g.nodes.len() <= i < h.nodes.len() ==> (#[trigger] h.nodes[i]).pos.in_bounds()
            && h.nodes[i].targets.len() == 0,
    ensures
        h.wf(),
{
    assert forall|i: int| h.valid_id(i) implies (#[trigger] h.nodes[i]).targets.no_duplicates() by {
        if i < g.nodes.len() {
            assert(g.nodes[i].targets.no_duplicates());
        }
    }
    assert forall|i: int| h.valid_id(i) implies #[trigger] h.degree(i) <= h.max_links by {
        if i < g.nodes.len() {
            assert(g.degree(i) <= g.max_links);
        }
    }
    assert forall|i: int| h.valid_id(i) implies (#[trigger] h.nodes[i]).pos.in_bounds() by {
        if i < g.nodes.len() {
            assert(g.nodes[i].pos.in_bounds());
        }
    }
    assert forall|i: int, k: int| h.valid_id(i) && 0 <= k < h.nodes[i].targets.len() implies {
        let t = #[trigger] h.nodes[i].targets[k];
        &&& h.valid_id(t as int)
        &&& t != i
        &&& h.has_link(t as int, i)
        &&& h.connected(i as usize, t)
    } by {
        let t = h.nodes[i].targets[k];
        assert(i < g.nodes.len());
        assert(g.nodes[i].targets[k] == t);
        assert(g.has_link(t as int, i));
        assert(h.nodes[t as int].targets == g.nodes[t as int].targets);
    }
}

/// Degree invariant: in a well-formed graph no node has more links than the cap.
pub proof fn lemma_degree_bound(g: GraphView, i: int)
    requires
        g.wf(),
        g.valid_id(i),
    ensures
        g.degree(i) <= g.max_links,
{
}

/// A pair that is linked directly is never linked again, so no node lists
/// another twice among its targets.
pub proof fn lemma_no_duplicate_link(g: GraphView, a: usize, b: usize)
    requires
        g.wf(),
        g.valid_id(a as int),
        g.has_link(a as int, b as int),
    ensures
        !g.admits_link(a, b),
        !g.admits_link(b, a),
        g.nodes[a as int].targets.no_duplicates(),
{
    let k = choose|k: int| 0 <= k < g.nodes[a as int].targets.len() && g.nodes[a as int].targets[k] == b;
    assert(g.nodes[a as int].targets[k] == b);
    assert(g.connected(a, b));
}

/// Nodes joined through a third node (`a`–`c`, `c`–`b`) are connected, so a
/// direct link between them is refused.
pub proof fn lemma_connected_through(g: GraphView, a: usize, c: usize, b: usize)
    requires
        g.wf(),
        g.valid_id(a as int),
        g.valid_id(c as int),
        g.has_link(a as int, c as int),
        g.has_link(c as int, b as int),
    ensures
        g.connected(a, b),
        !g.admits_link(a, b),
{
    let k1 = choose|k: int| 0 <= k < g.nodes[a as int].targets.len() && g.nodes[a as int].targets[k] == c;
    assert(g.nodes[a as int].targets[k1] == c);
    let k2 = choose|k: int| 0 <= k < g.nodes[c as int].targets.len() && g.nodes[c as int].targets[k] == b;
    assert(g.nodes[c as int].targets[k2] == b);
    assert(g.connected(a, c));
    assert(g.connected(c, b));
}

/// The link graph: an arena of nodes addressed by stable indices, each with
/// its links, and a union-find structure over the indices of linked nodes.
pub struct LinkGraph {
    nodes: Vec<Lumina>,
    connectivity: DisjointHashSet<usize>,
    max_links: usize,
}

impl View for LinkGraph {
    type V = GraphView;

    closed spec fn view(&self) -> GraphView {
        GraphView {
            nodes: self.nodes@.map_values(|n: Lumina| n@),
            max_links: self.max_links as nat,
            conn: linked_pairs(self.connectivity),
        }
    }
}

impl LinkGraph {
    pub open spec fn wf(&self) -> bool {
        self@.wf()
    }

    /// An empty graph whose nodes take at most `max_links` links each.
    pub fn new(max_links: usize) -> (r: LinkGraph)
        ensures
            r@.nodes == Seq::<NodeView>::empty(),
            r@.max_links == max_links,
            r@.conn == Set::<(usize, usize)>::empty(),
            r.wf(),
    {
        let r = LinkGraph { nodes: Vec::new(), connectivity: sets_new(), max_links };
        assert(r@.nodes =~= Seq::<NodeView>::empty());
        r
    }

    pub fn len(&self) -> (r: usize)
        ensures
            r == self@.len(),
    {
        self.nodes.len()
    }

    pub fn max_links(&self) -> (r: usize)
        ensures
            r == self@.max_links,
    {
        self.max_links
    }

    pub fn position(&self, i: usize) -> (r: Pos)
        requires
            self@.valid_id(i as int),
        ensures
            r == self@.nodes[i as int].pos,
    {
        self.nodes[i].pos
    }

    pub fn targets(&self, i: usize) -> (r: &Vec<usize>)
        requires
            self@.valid_id(i as int),
        ensures
            r@ == self@.nodes[i as int].targets,
    {
        &self.nodes[i].targets
    }

    pub fn is_cooldown(&self, i: usize) -> (r: bool)
        requires
            self@.valid_id(i as int),
        ensures
            r == self@.nodes[i as int].cooldown,
    {
        self.nodes[i].cooldown
    }

    /// Adds an unlinked, active node at `pos` and returns its index.
    pub fn add_node(&mut self, pos: Pos) -> (r: usize)
        requires
            old(self).wf(),
            pos.in_bounds(),
            old(self)@.len() < usize::MAX,
        ensures
            final(self).wf(),
            r == old(self)@.len(),
            final(self)@ == (GraphView {
                nodes: old(self)@.nodes.push(NodeView { pos, targets: Seq::empty(), cooldown: false }),
                ..old(self)@
            }),
    {
        let r = self.nodes.len();
        let node = Lumina { pos, targets: Vec::new(), cooldown: false };
        assert(node@.targets =~= Seq::<usize>::empty());
        self.nodes.push(node);
        assert(self@.nodes =~= old(self)@.nodes.push(NodeView { pos, targets: Seq::empty(), cooldown: false }));
        proof {
            lemma_same_links_wf(old(self)@, self@);
        }
        r
    }

    /// Puts node `i` into or out of cooldown.
    pub fn set_cooldown(&mut self, i: usize, on: bool)
        requires
            old(self).wf(),
            old(self)@.valid_id(i as int),
        ensures
            final(self).wf(),
            final(self)@ == (GraphView {
                nodes: old(self)@.nodes.update(i as int, NodeView { cooldown: on, ..old(self)@.nodes[i as int] }),
                ..old(self)@
            }),
    {
        self.nodes[i].cooldown = on;
        assert(self@.nodes =~= old(self)@.nodes.update(i as int, NodeView { cooldown: on, ..old(self)@.nodes[i as int] }));
        proof {
            lemma_same_links_wf(old(self)@, self@);
        }
    }

    /// Links `a` and `b` unless they are one node, already connected, or either
    /// is at the degree cap; returns whether the link was made.
    pub fn try_link(&mut self, a: usize, b: usize) -> (r: bool)
        requires
            old(self).wf(),
        ensures
            final(self).wf(),
            r == old(self)@.admits_link(a, b),
            r ==> final(self)@ == old(self)@.with_link(a, b),
            !r ==> final(self)@ == old(self)@,
    {
        let n = self.nodes.len();
        if a == b || a >= n || b >= n {
            return false;
        }
        if self.nodes[a].targets.len() >= self.max_links || self.nodes[b].targets.len() >= self.max_links {
            return false;
        }
        if sets_is_linked(&mut self.connectivity, a, b) {
            assert(self@ =~= old(self)@);
            return false;
        }
        let ghost g = old(self)@;
        sets_link(&mut self.connectivity, a, b);
        self.nodes[a].targets.push(b);
        self.nodes[b].targets.push(a);
        assert(self@.nodes =~= g.with_link(a, b).nodes);
        assert(self@ == g.with_link(a, b));
        proof {
            lemma_with_link_wf(g, a, b);
        }
        true
    }

    /// Number of nodes that take part in at least one link.
    pub fn network_size(&self) -> (r: usize)
        ensures
            r == self@.network_size(),
    {
        let mut count: usize = 0;
        let mut i: usize = 0;
        while i < self.nodes.len()
            invariant
                i <= self.nodes.len(),
                count == self@.linked_count(i as nat),
                count <= i,
            decreases self.nodes.len() - i,
        {
            if self.nodes[i].targets.len() > 0 {
                count = count + 1;
            }
            i = i + 1;
        }
        count
    }
}

proof fn lemma_with_link_wf(g: GraphView, a: usize, b: usize)
    requires
        g.wf(),
        g.admits_link(a, b),
    ensures
        g.with_link(a, b).wf(),
{
    let h = g.with_link(a, b);
    lemma_joined_wf(g, a, b);
    assert(h.conn.contains((a, b)));
    assert(h.conn.contains((b, a)));
    assert(!g.has_link(a as int, b as int)) by {
        if g.has_link(a as int, b as int) {
            lemma_no_duplicate_link(g, a, b);
        }
    }
    assert(!g.has_link(b as int, a as int)) by {
        if g.has_link(b as int, a as int) {
            lemma_no_duplicate_link(g, b, a);
        }
    }
    assert forall|i: int| h.valid_id(i) implies #[trigger] h.degree(i) <= h.max_links by {
        assert(g.degree(i) <= g.max_links);
    }
    assert forall|i: int| h.valid_id(i) implies (#[trigger] h.nodes[i]).pos.in_bounds() by {
        assert(g.nodes[i].pos.in_bounds());
    }
    assert forall|i: int| h.valid_id(i) implies (#[trigger] h.nodes[i]).targets.no_duplicates() by {
        assert(g.nodes[i].targets.no_duplicates());
        if i == a as int {
            assert(h.nodes[i].targets == g.nodes[i].targets.push(b));
        } else if i == b as int {
            assert(h.nodes[i].targets == g.nodes[i].targets.push(a));
        }
    }
    assert forall|i: int, k: int| h.valid_id(i) && 0 <= k < h.nodes[i].targets.len() implies {
        let t = #[trigger] h.nodes[i].targets[k];
        &&& h.valid_id(t as int)
        &&& t != i
        &&& h.has_link(t as int, i)
        &&& h.connected(i as usize, t)
    } by {
        let t = h.nodes[i].targets[k];
        if i == a as int && k == g.nodes[i].targets.len() {
            assert(h.nodes[b as int].targets.last() == a);
            assert(h.nodes[b as int].targets[h.nodes[b as int].targets.len() - 1] == a);
        } else if i == b as int && k == g.nodes[i].targets.len() {
            assert(h.nodes[a as int].targets.last() == b);
            assert(h.nodes[a as int].targets[h.nodes[a as int].targets.len() - 1] == b);
        } else {
            assert(t == g.nodes[i].targets[k]);
            assert(g.has_link(t as int, i));
            let iu = i as usize;
            assert(g.nodes[t as int].targets.contains(iu));
            let k2 = choose|k2: int| 0 <= k2 < g.nodes[t as int].targets.len() && g.nodes[t as int].targets[k2] == iu;
            assert(h.nodes[t as int].targets[k2] == iu);
            assert(g.conn.contains((i as usize, t)));
        }
    }
}

} // verus!
