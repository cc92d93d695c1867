//! The terrain graph and the route search over it.
//!
//! [`SideMapGraph`] is a weighted undirected graph whose nodes are grid
//! addresses; an edge only ever connects two 4-adjacent addresses, and its
//! weight is the sum of the traversal costs of the two endpoint cells.
//! The node set is fixed when the world is built; afterwards only edge
//! weights change (or edges disappear when an endpoint turns impassable).

use vstd::prelude::*;
use std::collections::HashMap;
use crate::positions::{SideIPos, spec_addr_key, addr_key, lemma_addr_key_injective, adjacent};
use crate::map::{CellContent, SideMapCells};

verus! {

/// Upper bound on the number of graph nodes; keeps every distance value the
/// search can compute far below `u64::MAX`.
pub const NODE_LIMIT: usize = 0x1000_0000;

/// Largest possible edge weight: two endpoint costs of at most 256 each.
pub const MAX_EDGE_WEIGHT: u64 = 512;

/// The address one step in direction `d` from `p`: directions are
/// 0 = `+x`, 1 = `+y`, 2 = `-x`, 3 = `-y`.
pub open spec fn dir_step(p: SideIPos, d: int) -> SideIPos {
    if d == 0 {
        SideIPos { x: (p.x + 1) as i32, y: p.y }
    } else if d == 1 {
        SideIPos { x: p.x, y: (p.y + 1) as i32 }
    } else if d == 2 {
        SideIPos { x: (p.x - 1) as i32, y: p.y }
    } else {
        SideIPos { x: p.x, y: (p.y - 1) as i32 }
    }
}

/// The direction opposite to `d`.
pub open spec fn opp_dir(d: int) -> int {
    if d < 2 {
        d + 2
    } else {
        d - 2
    }
}

/// Stepping in direction `d` and then back returns to the start, and the
/// step target is 4-adjacent to the start (coordinates stay far from the
/// `i32` limits, so the casts never wrap).
proof fn lemma_dir_step_inverse(p: SideIPos, d: int)
    requires
        p.in_bounds(),
        0 <= d < 4,
    ensures
        dir_step(dir_step(p, d), opp_dir(d)) == p,
        adjacent(p, dir_step(p, d)),
        adjacent(dir_step(p, d), p),
{
}

/// The four step targets from one address are pairwise distinct.
proof fn lemma_dir_step_distinct(p: SideIPos)
    requires
        p.in_bounds(),
    ensures
        forall|d1: int, d2: int|
            0 <= d1 < 4 && 0 <= d2 < 4 && d1 != d2 ==> dir_step(p, d1) != dir_step(p, d2),
{
}

/// Finds the direction that steps from `a` to `b`, if the two are 4-adjacent.
fn dir_between(a: &SideIPos, b: &SideIPos) -> (r: Option<usize>)
    requires
        a.in_bounds(),
    ensures
        match r {
            Some(d) => d < 4 && *b == dir_step(*a, d as int),
            None => forall|d: int| 0 <= d < 4 ==> *b != dir_step(*a, d),
        },
{
    if b.x == a.x + 1 && b.y == a.y {
        Some(0)
    } else if b.x == a.x && b.y == a.y + 1 {
        Some(1)
    } else if b.x == a.x - 1 && b.y == a.y {
        Some(2)
    } else if b.x == a.x && b.y == a.y - 1 {
        Some(3)
    } else {
        None
    }
}

/// Emitted by the movement pass when an agent lands exactly on a waypoint
/// cell; consumed by the terrain mutator, which erodes the visited cell.
#[derive(Clone, Copy, PartialEq, Eq, Debug, Structural)]
pub struct VisitedNodeEvent {
    /// Identifier of the creature that crossed the waypoint.
    pub creature_entity: u64,
    /// The cell that was reached.
    pub position: SideIPos,
    /// Whether this waypoint was the last one of the route.
    pub is_final: bool,
}

/// One node of the graph: its address and the weights of the up to four
/// edges leaving it, one per direction.
#[derive(Clone, Copy)]
struct NodeInfo {
    pos: SideIPos,
    e_right: Option<u64>,
    e_up: Option<u64>,
    e_left: Option<u64>,
    e_down: Option<u64>,
}

impl NodeInfo {
    /// The edge weight stored for direction `d`.
    spec fn edge(self, d: int) -> Option<u64> {
        if d == 0 {
            self.e_right
        } else if d == 1 {
            self.e_up
        } else if d == 2 {
            self.e_left
        } else {
            self.e_down
        }
    }

    fn fresh(pos: SideIPos) -> (r: Self)
        ensures
            r.pos == pos,
            forall|d: int| 0 <= d < 4 ==> r.edge(d) is None,
    {
        NodeInfo { pos, e_right: None, e_up: None, e_left: None, e_down: None }
    }

    fn get_edge(&self, d: usize) -> (r: Option<u64>)
        requires
            d < 4,
        ensures
            r == self.edge(d as int),
    {
        match d {
            0 => self.e_right,
            1 => self.e_up,
            2 => self.e_left,
            _ => self.e_down,
        }
    }

    fn with_edge(self, d: usize, v: Option<u64>) -> (r: Self)
        requires
            d < 4,
        ensures
            r.pos == self.pos,
            r.edge(d as int) == v,
            forall|e: int| 0 <= e < 4 && e != d as int ==> r.edge(e) == self.edge(e),
    {
        match d {
            0 => NodeInfo { e_right: v, ..self },
            1 => NodeInfo { e_up: v, ..self },
            2 => NodeInfo { e_left: v, ..self },
            _ => NodeInfo { e_down: v, ..self },
        }
    }
}

/// The weighted undirected graph of the side-view world.
pub struct SideMapGraph {
    nodes: Vec<NodeInfo>,
    index_of: HashMap<u64, usize>,
}

impl SideMapGraph {
    /// True when `p` is a node of the graph.
    pub closed spec fn spec_has_node(self, p: SideIPos) -> bool {
        self.index_of@.contains_key(spec_addr_key(p))
    }

    /// The internal index of node `p`.
    spec fn idx(self, p: SideIPos) -> int {
        self.index_of@[spec_addr_key(p)] as int
    }

    /// How many nodes the graph holds.
    pub closed spec fn spec_node_count(self) -> int {
        self.nodes@.len() as int
    }

    /// The weight of the edge between `a` and `b`, `None` when there is no
    /// such edge. On a well-formed graph this is symmetric in `a` and `b`.
    #[verifier::opaque]
    pub closed spec fn spec_edge_weight(self, a: SideIPos, b: SideIPos) -> Option<u64> {
        if self.spec_has_node(a) && self.spec_has_node(b) {
            if b == dir_step(a, 0) {
                self.nodes@[self.idx(a)].edge(0)
            } else if b == dir_step(a, 1) {
                self.nodes@[self.idx(a)].edge(1)
            } else if b == dir_step(a, 2) {
                self.nodes@[self.idx(a)].edge(2)
            } else if b == dir_step(a, 3) {
                self.nodes@[self.idx(a)].edge(3)
            } else {
                None
            }
        } else {
            None
        }
    }

    /// Internal well-formedness: the node list and the key index mirror each
    /// other exactly, all addresses are in bounds, and every stored edge is
    /// mirrored on its other endpoint with the same weight, within bounds.
    #[verifier::opaque]
    pub closed spec fn wf(self) -> bool {
        &&& self.nodes@.len() <= NODE_LIMIT
        &&& forall|i: int| 0 <= i < self.nodes@.len() ==> {
            &&& (#[trigger] self.nodes@[i]).pos.in_bounds()
            &&& self.index_of@.contains_key(spec_addr_key(self.nodes@[i].pos))
            &&& self.index_of@[spec_addr_key(self.nodes@[i].pos)] == i as usize
        }
        &&& forall|k: u64| #[trigger] self.index_of@.contains_key(k) ==> {
            &&& (self.index_of@[k] as int) < self.nodes@.len()
            &&& spec_addr_key(self.nodes@[self.index_of@[k] as int].pos) == k
        }
        &&& forall|i: int, d: int|
            0 <= i < self.nodes@.len() && 0 <= d < 4 && (#[trigger] self.nodes@[i].edge(d)) is Some
                ==> {
                let q = dir_step(self.nodes@[i].pos, d);
                &&& self.index_of@.contains_key(spec_addr_key(q))
                &&& self.nodes@[self.index_of@[spec_addr_key(q)] as int].edge(opp_dir(d))
                    == self.nodes@[i].edge(d)
                &&& 2 <= self.nodes@[i].edge(d)->0 <= MAX_EDGE_WEIGHT
            }
    }

    /// An empty graph.
    pub fn new() -> (r: Self)
        ensures
            r.wf(),
            r.spec_node_count() == 0,
            r.spec_edgeless(),
            forall|p: SideIPos| !(#[trigger] r.spec_has_node(p)),
            forall|a: SideIPos, b: SideIPos| #[trigger] r.spec_edge_weight(a, b) is None,
    {
        broadcast use vstd::std_specs::hash::group_hash_axioms;

        let r = SideMapGraph { nodes: Vec::new(), index_of: HashMap::new() };
        proof {
            reveal(SideMapGraph::wf);
            reveal(SideMapGraph::spec_edge_weight);
        }
        r
    }

    pub fn node_count(&self) -> (r: usize)
        ensures
            r == self.spec_node_count(),
    {
        self.nodes.len()
    }

    pub fn has_node(&self, p: &SideIPos) -> (r: bool)
        ensures
            r == self.spec_has_node(*p),
    {
        broadcast use vstd::std_specs::hash::group_hash_axioms;

        let k = addr_key(p);
        self.index_of.contains_key(&k)
    }

    /// The internal index of node `p`, if `p` is in the graph.
    fn node_index(&self, p: &SideIPos) -> (r: Option<usize>)
        requires
            self.wf(),
        ensures
            match r {
                Some(i) => self.spec_has_node(*p) && i == self.idx(*p) && (i as int)
                    < self.spec_node_count(),
                None => !self.spec_has_node(*p),
            },
    {
        broadcast use vstd::std_specs::hash::group_hash_axioms;

        proof {
            reveal(SideMapGraph::wf);
        }
        let k = addr_key(p);
        match self.index_of.get(&k) {
            Some(i) => Some(*i),
            None => None,
        }
    }

    /// A node's list entry carries exactly the address it was indexed under,
    /// and that address is in bounds.
    proof fn lemma_node_pos(self, p: SideIPos)
        requires
            self.wf(),
            self.spec_has_node(p),
        ensures
            0 <= self.idx(p) < self.spec_node_count(),
            self.nodes@[self.idx(p)].pos == p,
            p.in_bounds(),
    {
        reveal(SideMapGraph::wf);
        let k = spec_addr_key(p);
        lemma_addr_key_injective(self.nodes@[self.index_of@[k] as int].pos, p);
    }

    /// Distinct node addresses sit at distinct indices.
    proof fn lemma_idx_distinct(self, a: SideIPos, b: SideIPos)
        requires
            self.wf(),
            self.spec_has_node(a),
            self.spec_has_node(b),
            a != b,
        ensures
            self.idx(a) != self.idx(b),
    {
        self.lemma_node_pos(a);
        self.lemma_node_pos(b);
    }

    /// The internal index of node `p`, which must be in the graph.
    fn index_of_node(&self, p: &SideIPos) -> (i: usize)
        requires
            self.wf(),
            self.spec_has_node(*p),
        ensures
            i == self.idx(*p),
            (i as int) < self.spec_node_count(),
    {
        broadcast use vstd::std_specs::hash::group_hash_axioms;

        let k = addr_key(p);
        proof {
            reveal(SideMapGraph::wf);
            self.lemma_node_pos(*p);
        }
        match self.index_of.get(&k) {
            Some(i) => *i,
            None => {
                proof {
                    assert(false);
                }
                0
            },
        }
    }

    /// Relation between a graph and the same graph with one fresh node for
    /// `p` appended (no edges, index extended accordingly).
    spec fn is_with_new_node(self, news: SideMapGraph, p: SideIPos) -> bool {
        &&& news.nodes@.len() == self.nodes@.len() + 1
        &&& forall|i: int| 0 <= i < self.nodes@.len() ==> news.nodes@[i] == self.nodes@[i]
        &&& news.nodes@[self.nodes@.len() as int].pos == p
        &&& forall|d: int| 0 <= d < 4 ==> news.nodes@[self.nodes@.len() as int].edge(d) is None
        &&& news.index_of@ == self.index_of@.insert(
            spec_addr_key(p),
            self.nodes@.len() as usize,
        )
    }

    /// True while the graph has no edges at all (its state between node
    /// insertion and edge construction).
    pub closed spec fn spec_edgeless(self) -> bool {
        forall|i: int, d: int|
            0 <= i < self.nodes@.len() && 0 <= d < 4 ==> (#[trigger] self.nodes@[i].edge(
                d,
            )) is None
    }

    /// An edgeless graph has no edge weight between any two addresses.
    proof fn lemma_edgeless_no_edge_weight(self)
        requires
            self.wf(),
            self.spec_edgeless(),
        ensures
            forall|a: SideIPos, b: SideIPos| #[trigger] self.spec_edge_weight(a, b) is None,
    {
        reveal(SideMapGraph::wf);
        reveal(SideMapGraph::spec_edge_weight);
        assert forall|a: SideIPos, b: SideIPos| #[trigger]
            self.spec_edge_weight(a, b) is None by {
            if self.spec_has_node(a) {
                assert(0 <= self.idx(a) < self.nodes@.len());
                assert(self.nodes@[self.idx(a)].edge(0) is None);
                assert(self.nodes@[self.idx(a)].edge(1) is None);
                assert(self.nodes@[self.idx(a)].edge(2) is None);
                assert(self.nodes@[self.idx(a)].edge(3) is None);
            }
        }
    }

    /// Appending a fresh node keeps the graph well formed and adds exactly
    /// that one address to the node set.
    #[verifier::rlimit(100)]
    proof fn lemma_add_node_wf(self, news: SideMapGraph, p: SideIPos)
        requires
            self.wf(),
            p.in_bounds(),
            !self.spec_has_node(p),
            self.spec_node_count() < NODE_LIMIT,
            self.is_with_new_node(news, p),
        ensures
            news.wf(),
            forall|q: SideIPos| #[trigger]
                news.spec_has_node(q) <==> (self.spec_has_node(q) || q == p),
    {
        reveal(SideMapGraph::wf);
        assert forall|q: SideIPos| #[trigger]
            news.spec_has_node(q) <==> (self.spec_has_node(q) || q == p) by {
            if spec_addr_key(q) == spec_addr_key(p) {
                lemma_addr_key_injective(q, p);
            }
        }
        assert forall|j: int, d: int|
            0 <= j < news.nodes@.len() && 0 <= d < 4 && (#[trigger] news.nodes@[j].edge(
                d,
            )) is Some implies {
            let q = dir_step(news.nodes@[j].pos, d);
            &&& news.index_of@.contains_key(spec_addr_key(q))
            &&& news.nodes@[news.index_of@[spec_addr_key(q)] as int].edge(opp_dir(d))
                == news.nodes@[j].edge(d)
            &&& 2 <= news.nodes@[j].edge(d)->0 <= MAX_EDGE_WEIGHT
        } by {
            assert(j < self.nodes@.len());
            assert(self.nodes@[j].edge(d) is Some);
            let q = dir_step(self.nodes@[j].pos, d);
            assert(self.index_of@.contains_key(spec_addr_key(q)));
            assert(spec_addr_key(q) != spec_addr_key(p));
        }
    }

    /// Adds a node for address `p`, with no edges yet. The node set is meant
    /// to be fixed at world-build time, so this is only used while building.
    #[verifier::rlimit(100)]
    pub fn add_node(&mut self, p: SideIPos)
        requires
            old(self).wf(),
            p.in_bounds(),
            !old(self).spec_has_node(p),
            old(self).spec_node_count() < NODE_LIMIT,
        ensures
            final(self).wf(),
            final(self).spec_node_count() == old(self).spec_node_count() + 1,
            forall|q: SideIPos| #[trigger]
                final(self).spec_has_node(q) <==> (old(self).spec_has_node(q) || q == p),
            old(self).spec_edgeless() ==> final(self).spec_edgeless(),
    {
        broadcast use vstd::std_specs::hash::group_hash_axioms;

        let k = addr_key(&p);
        let i = self.nodes.len();
        self.nodes.push(NodeInfo::fresh(p));
        self.index_of.insert(k, i);
        proof {
            assert(old(self).is_with_new_node(*self, p));
            old(self).lemma_add_node_wf(*self, p);
        }
    }

    /// Sets or clears the edge between the adjacent nodes `a` and `b`,
    /// mirroring the change on both endpoints.
    #[verifier::rlimit(100)]
    fn set_edge_between(&mut self, a: SideIPos, b: SideIPos, v: Option<u64>)
        requires
            old(self).wf(),
            old(self).spec_has_node(a),
            old(self).spec_has_node(b),
            adjacent(a, b),
            v is Some ==> 2 <= v->0 <= MAX_EDGE_WEIGHT,
        ensures
            final(self).wf(),
            final(self).spec_node_count() == old(self).spec_node_count(),
            forall|q: SideIPos| #[trigger]
                final(self).spec_has_node(q) == old(self).spec_has_node(q),
            final(self).spec_edge_weight(a, b) == v,
            final(self).spec_edge_weight(b, a) == v,
            forall|x: SideIPos, y: SideIPos|
                !(x == a && y == b) && !(x == b && y == a)
                    ==> #[trigger] final(self).spec_edge_weight(x, y)
                        == old(self).spec_edge_weight(x, y),
    {
        proof {
            reveal(SideMapGraph::wf);
            reveal(SideMapGraph::spec_edge_weight);
            old(self).lemma_node_pos(a);
            old(self).lemma_node_pos(b);
            old(self).lemma_idx_distinct(a, b);
        }
        let ia = self.index_of_node(&a);
        let ib = self.index_of_node(&b);
        let d = match dir_between(&a, &b) {
            Some(d) => d,
            None => {
                proof {
                    assert(false);
                }
                0
            },
        };
        let dopp = if d < 2 {
            d + 2
        } else {
            d - 2
        };
        let na = self.nodes[ia];
        self.nodes[ia] = na.with_edge(d, v);
        let nb = self.nodes[ib];
        self.nodes[ib] = nb.with_edge(dopp, v);
        proof {
            reveal(SideMapGraph::wf);
            reveal(SideMapGraph::spec_edge_weight);
            let olds = *old(self);
            let news = *self;
            let n = news.nodes@.len() as int;
            let dd = d as int;
            lemma_dir_step_inverse(a, dd);
            lemma_dir_step_distinct(a);
            lemma_dir_step_distinct(b);
            assert(dir_step(b, opp_dir(dd)) == a);
            // well-formedness of the edge mirror after the paired update
            assert forall|j: int, e: int|
                0 <= j < n && 0 <= e < 4 && (#[trigger] news.nodes@[j].edge(e)) is Some implies {
                let q = dir_step(news.nodes@[j].pos, e);
                &&& news.index_of@.contains_key(spec_addr_key(q))
                &&& news.nodes@[news.index_of@[spec_addr_key(q)] as int].edge(opp_dir(e))
                    == news.nodes@[j].edge(e)
                &&& 2 <= news.nodes@[j].edge(e)->0 <= MAX_EDGE_WEIGHT
            } by {
                lemma_dir_step_inverse(olds.nodes@[j].pos, e);
                if j == ia as int && e == dd {
                    assert(news.nodes@[j].edge(e) == v);
                    assert(dir_step(a, dd) == b);
                    assert(news.nodes@[ib as int].edge(opp_dir(dd)) == v);
                } else if j == ib as int && e == opp_dir(dd) {
                    assert(news.nodes@[j].edge(e) == v);
                    assert(news.nodes@[ia as int].edge(dd) == v);
                } else {
                    assert(news.nodes@[j].edge(e) == olds.nodes@[j].edge(e));
                    let q = dir_step(olds.nodes@[j].pos, e);
                    assert(olds.index_of@.contains_key(spec_addr_key(q)));
                    let iq = news.index_of@[spec_addr_key(q)] as int;
                    olds.lemma_node_pos(q);
                    assert(olds.nodes@[iq].pos == q);
                    // the mirror entry was only touched at the two changed slots
                    if iq == ia as int && opp_dir(e) == dd {
                        // then q == a and j's address is one step d from a: j == ib, e == opp(d)
                        assert(q == a);
                        assert(olds.nodes@[j].pos == dir_step(q, opp_dir(e)));
                        assert(olds.nodes@[j].pos == b);
                        assert(j == ib as int && e == opp_dir(dd));
                        assert(false);
                    }
                    if iq == ib as int && opp_dir(e) == opp_dir(dd) {
                        assert(q == b);
                        assert(olds.nodes@[j].pos == dir_step(q, opp_dir(e)));
                        assert(olds.nodes@[j].pos == a);
                        assert(j == ia as int && e == dd);
                        assert(false);
                    }
                    assert(news.nodes@[iq].edge(opp_dir(e)) == olds.nodes@[iq].edge(opp_dir(e)));
                }
            }
            assert(news.wf());
            // the two mirrored entries now hold exactly `v`
            assert(news.spec_edge_weight(a, b) == v);
            assert(news.spec_edge_weight(b, a) == v);
            // every other pair kept its weight
            assert forall|x: SideIPos, y: SideIPos|
                !(x == a && y == b) && !(x == b && y == a) implies #[trigger] news.spec_edge_weight(
                x,
                y,
            ) == olds.spec_edge_weight(x, y) by {
                if news.spec_has_node(x) && news.spec_has_node(y) {
                    olds.lemma_node_pos(x);
                    lemma_dir_step_distinct(x);
                    if x == a {
                        assert(news.nodes@[ia as int].edge(dd) == v);
                        assert(forall|e: int|
                            0 <= e < 4 && e != dd ==> news.nodes@[ia as int].edge(e)
                                == olds.nodes@[ia as int].edge(e));
                        assert(y != b);
                        assert(y != dir_step(a, dd));
                    } else if x == b {
                        assert(forall|e: int|
                            0 <= e < 4 && e != opp_dir(dd) ==> news.nodes@[ib as int].edge(e)
                                == olds.nodes@[ib as int].edge(e));
                        assert(y != a);
                        assert(y != dir_step(b, opp_dir(dd)));
                    } else {
                        olds.lemma_idx_distinct(x, a);
                        olds.lemma_idx_distinct(x, b);
                        assert(news.nodes@[olds.idx(x)] == olds.nodes@[olds.idx(x)]);
                    }
                }
            }
        }
    }

    /// Connects the adjacent nodes `a` and `b` with an edge of weight `w`
    /// (replacing any previous weight), mirrored on both endpoints.
    pub fn add_edge(&mut self, a: SideIPos, b: SideIPos, w: u64)
        requires
            old(self).wf(),
            old(self).spec_has_node(a),
            old(self).spec_has_node(b),
            adjacent(a, b),
            2 <= w <= MAX_EDGE_WEIGHT,
        ensures
            final(self).wf(),
            final(self).spec_node_count() == old(self).spec_node_count(),
            forall|q: SideIPos| #[trigger]
                final(self).spec_has_node(q) == old(self).spec_has_node(q),
            final(self).spec_edge_weight(a, b) == Some(w),
            final(self).spec_edge_weight(b, a) == Some(w),
            forall|x: SideIPos, y: SideIPos|
                !(x == a && y == b) && !(x == b && y == a)
                    ==> #[trigger] final(self).spec_edge_weight(x, y)
                        == old(self).spec_edge_weight(x, y),
    {
        self.set_edge_between(a, b, Some(w));
    }

    /// Removes the edge between the adjacent nodes `a` and `b`, if any.
    pub fn remove_edge(&mut self, a: SideIPos, b: SideIPos)
        requires
            old(self).wf(),
            old(self).spec_has_node(a),
            old(self).spec_has_node(b),
            adjacent(a, b),
        ensures
            final(self).wf(),
            final(self).spec_node_count() == old(self).spec_node_count(),
            forall|q: SideIPos| #[trigger]
                final(self).spec_has_node(q) == old(self).spec_has_node(q),
            final(self).spec_edge_weight(a, b) is None,
            final(self).spec_edge_weight(b, a) is None,
            forall|x: SideIPos, y: SideIPos|
                !(x == a && y == b) && !(x == b && y == a)
                    ==> #[trigger] final(self).spec_edge_weight(x, y)
                        == old(self).spec_edge_weight(x, y),
    {
        self.set_edge_between(a, b, None);
    }

    /// The weight of the edge between `a` and `b`, `None` when they are not
    /// connected.
    #[verifier::rlimit(60)]
    pub fn edge_weight(&self, a: &SideIPos, b: &SideIPos) -> (r: Option<u64>)
        requires
            self.wf(),
        ensures
            r == self.spec_edge_weight(*a, *b),
    {
        proof {
            reveal(SideMapGraph::spec_edge_weight);
        }
        match self.node_index(a) {
            Some(ia) => match self.node_index(b) {
                Some(_ib) => {
                    proof {
                        reveal(SideMapGraph::spec_edge_weight);
                        self.lemma_node_pos(*a);
                        lemma_dir_step_distinct(*a);
                    }
                    match dir_between(a, b) {
                        Some(d) => self.nodes[ia].get_edge(d),
                        None => None,
                    }
                },
                None => None,
            },
            None => None,
        }
    }

    /// The stored edge of a node in direction `d` always agrees with the
    /// entry mirrored on the neighbouring node.
    proof fn lemma_mirror(self, a: SideIPos, d: int)
        requires
            self.wf(),
            self.spec_has_node(a),
            0 <= d < 4,
            self.spec_has_node(dir_step(a, d)),
        ensures
            self.nodes@[self.idx(a)].edge(d) == self.nodes@[self.idx(dir_step(a, d))].edge(
                opp_dir(d),
            ),
    {
        reveal(SideMapGraph::wf);
        let b = dir_step(a, d);
        self.lemma_node_pos(a);
        self.lemma_node_pos(b);
        lemma_dir_step_inverse(a, d);
        if self.nodes@[self.idx(a)].edge(d) is Some {
            assert(dir_step(self.nodes@[self.idx(a)].pos, d) == b);
        } else {
            if self.nodes@[self.idx(b)].edge(opp_dir(d)) is Some {
                assert(dir_step(self.nodes@[self.idx(b)].pos, opp_dir(d)) == a);
                assert(self.nodes@[self.idx(a)].edge(opp_dir(opp_dir(d)))
                    == self.nodes@[self.idx(b)].edge(opp_dir(d)));
                assert(opp_dir(opp_dir(d)) == d);
                assert(false);
            }
        }
    }

    /// The graph is undirected: the weight between `a` and `b` is the weight
    /// between `b` and `a`.
    #[verifier::rlimit(100)]
    pub proof fn lemma_edge_weight_symmetric(self, a: SideIPos, b: SideIPos)
        requires
            self.wf(),
        ensures
            self.spec_edge_weight(a, b) == self.spec_edge_weight(b, a),
    {
        reveal(SideMapGraph::wf);
        reveal(SideMapGraph::spec_edge_weight);
        if self.spec_has_node(a) && self.spec_has_node(b) {
            self.lemma_node_pos(a);
            self.lemma_node_pos(b);
            lemma_dir_step_distinct(a);
            lemma_dir_step_distinct(b);
            if b == dir_step(a, 0) {
                self.lemma_mirror(a, 0);
                lemma_dir_step_inverse(a, 0);
            } else if b == dir_step(a, 1) {
                self.lemma_mirror(a, 1);
                lemma_dir_step_inverse(a, 1);
            } else if b == dir_step(a, 2) {
                self.lemma_mirror(a, 2);
                lemma_dir_step_inverse(a, 2);
            } else if b == dir_step(a, 3) {
                self.lemma_mirror(a, 3);
                lemma_dir_step_inverse(a, 3);
            } else {
                assert forall|d: int| 0 <= d < 4 implies a != dir_step(b, d) by {
                    lemma_dir_step_inverse(b, d);
                }
            }
        }
    }

    /// Adds one node per listed address, with no edges yet. `order` lists
    /// each address exactly once.
    #[verifier::rlimit(50)]
    fn add_all_nodes(order: &Vec<SideIPos>) -> (g: SideMapGraph)
        requires
            forall|i: int, j: int| 0 <= i < j < order@.len() ==> order@[i] != order@[j],
            forall|i: int| 0 <= i < order@.len() ==> (#[trigger] order@[i]).in_bounds(),
            order@.len() <= NODE_LIMIT,
        ensures
            g.wf(),
            g.spec_node_count() == order@.len(),
            forall|p: SideIPos| #[trigger] g.spec_has_node(p) <==> order@.contains(p),
            forall|a: SideIPos, b: SideIPos| #[trigger] g.spec_edge_weight(a, b) is None,
    {
        let mut g = SideMapGraph::new();
        let n = order.len();
        let mut i: usize = 0;
        while i < n
            invariant
                n == order@.len() <= NODE_LIMIT,
                forall|k1: int, k2: int|
                    0 <= k1 < k2 < order@.len() ==> order@[k1] != order@[k2],
                forall|k: int| 0 <= k < order@.len() ==> (#[trigger] order@[k]).in_bounds(),
                i <= n,
                g.wf(),
                g.spec_node_count() == i,
                forall|p: SideIPos| #[trigger]
                    g.spec_has_node(p) <==> order@.take(i as int).contains(p),
                g.spec_edgeless(),
            decreases n - i,
        {
            let p = order[i];
            proof {
                if order@.take(i as int).contains(p) {
                    let k = choose|k: int| 0 <= k < i && order@.take(i as int)[k] == p;
                    assert(order@[k] == order@[i as int]);
                    assert(false);
                }
            }
            g.add_node(p);
            proof {
                assert forall|q: SideIPos| #[trigger]
                    g.spec_has_node(q) <==> order@.take(i as int + 1).contains(q) by {
                    lemma_contains_take_succ(order@, i as int, q);
                }
            }
            i = i + 1;
        }
        proof {
            assert(order@.take(n as int) =~= order@);
            g.lemma_edgeless_no_edge_weight();
        }
        g
    }

    /// One step of construction or repair: make the edge between `p` (a
    /// passable node of cost `pc`) and its neighbour `q` what the cells call
    /// for, assuming it currently holds no stale weight.
    #[verifier::rlimit(50)]
    fn build_edge(&mut self, cells: &SideMapCells, p: SideIPos, pc: u16, q: SideIPos)
        requires
            old(self).wf(),
            old(self).spec_has_node(p),
            adjacent(p, q),
            cells@.contains_key(p),
            cells@[p].spec_weight() == Some(pc),
            old(self).spec_has_node(q) <==> cells@.contains_key(q),
            old(self).spec_edge_weight(p, q) is None || old(self).spec_edge_weight(p, q)
                == spec_expected_edge(cells@, p, q),
        ensures
            final(self).wf(),
            final(self).spec_node_count() == old(self).spec_node_count(),
            forall|r: SideIPos| #[trigger]
                final(self).spec_has_node(r) == old(self).spec_has_node(r),
            final(self).spec_edge_weight(p, q) == spec_expected_edge(cells@, p, q),
            final(self).spec_edge_weight(q, p) == spec_expected_edge(cells@, q, p),
            forall|x: SideIPos, y: SideIPos|
                !(x == p && y == q) && !(x == q && y == p)
                    ==> #[trigger] final(self).spec_edge_weight(x, y)
                        == old(self).spec_edge_weight(x, y),
    {
        proof {
            lemma_expected_edge_symmetric(cells@, p, q);
            old(self).lemma_edge_weight_symmetric(p, q);
        }
        if self.has_node(&q) {
            match cells.get(&q) {
                Some(cq) => match cq.weight() {
                    Some(qc) => {
                        self.add_edge(p, q, pc as u64 + qc as u64);
                    },
                    None => {},
                },
                None => {
                    proof {
                        assert(false);
                    }
                },
            }
        }
    }

    /// Makes every edge around node `p` what the current cells call for,
    /// assuming none of them holds a stale weight.
    #[verifier::rlimit(100)]
    fn connect_node(&mut self, cells: &SideMapCells, p: SideIPos)
        requires
            old(self).wf(),
            old(self).spec_has_node(p),
            cells@.contains_key(p),
            forall|r: SideIPos| #[trigger] old(self).spec_has_node(r) <==> cells@.contains_key(r),
            forall|b: SideIPos| #[trigger] old(self).spec_edge_weight(p, b) is None
                || old(self).spec_edge_weight(p, b) == spec_expected_edge(cells@, p, b),
        ensures
            final(self).wf(),
            final(self).spec_node_count() == old(self).spec_node_count(),
            forall|r: SideIPos| #[trigger]
                final(self).spec_has_node(r) == old(self).spec_has_node(r),
            forall|b: SideIPos| #[trigger]
                final(self).spec_edge_weight(p, b) == spec_expected_edge(cells@, p, b),
            forall|b: SideIPos| #[trigger]
                final(self).spec_edge_weight(b, p) == spec_expected_edge(cells@, b, p),
            forall|x: SideIPos, y: SideIPos|
                x != p && y != p ==> #[trigger] final(self).spec_edge_weight(x, y)
                    == old(self).spec_edge_weight(x, y),
    {
        proof {
            old(self).lemma_node_pos(p);
            lemma_dir_step_distinct(p);
        }
        let cell = match cells.get(&p) {
            Some(c) => *c,
            None => {
                proof {
                    assert(false);
                }
                CellContent::empty_air()
            },
        };
        match cell.weight() {
            Some(pc) => {
                let sides = p.sides();
                self.build_edge(cells, p, pc, sides[0]);
                self.build_edge(cells, p, pc, sides[1]);
                self.build_edge(cells, p, pc, sides[2]);
                self.build_edge(cells, p, pc, sides[3]);
                proof {
                    assert forall|b: SideIPos| #[trigger]
                        self.spec_edge_weight(p, b) == spec_expected_edge(cells@, p, b) by {
                        if b != dir_step(p, 0) && b != dir_step(p, 1) && b != dir_step(p, 2) && b
                            != dir_step(p, 3) {
                            assert(!adjacent(p, b));
                            assert(self.spec_edge_weight(p, b) is None);
                        }
                    }
                    assert forall|b: SideIPos| #[trigger]
                        self.spec_edge_weight(b, p) == spec_expected_edge(cells@, b, p) by {
                        self.lemma_edge_weight_symmetric(p, b);
                        lemma_expected_edge_symmetric(cells@, p, b);
                    }
                }
            },
            None => {
                proof {
                    assert forall|b: SideIPos| #[trigger]
                        self.spec_edge_weight(p, b) == spec_expected_edge(cells@, p, b) by {
                        assert(spec_expected_edge(cells@, p, b) is None);
                    }
                    assert forall|b: SideIPos| #[trigger]
                        self.spec_edge_weight(b, p) == spec_expected_edge(cells@, b, p) by {
                        self.lemma_edge_weight_symmetric(p, b);
                        lemma_expected_edge_symmetric(cells@, p, b);
                    }
                }
            },
        }
    }

    /// Builds the graph for a freshly generated world: one node per stored
    /// cell, and an edge between every two 4-adjacent passable cells,
    /// weighted with the sum of their traversal costs. `order` lists each
    /// stored address exactly once.
    #[verifier::rlimit(100)]
    pub fn build_from_cells(cells: &SideMapCells, order: &Vec<SideIPos>) -> (g: SideMapGraph)
        requires
            forall|i: int, j: int| 0 <= i < j < order@.len() ==> order@[i] != order@[j],
            forall|i: int| 0 <= i < order@.len() ==> (#[trigger] order@[i]).in_bounds(),
            forall|p: SideIPos| #[trigger] cells@.contains_key(p) <==> order@.contains(p),
            order@.len() <= NODE_LIMIT,
        ensures
            g.wf(),
            g.spec_node_count() == order@.len(),
            graph_matches_cells(g, cells@),
    {
        let mut g = Self::add_all_nodes(order);
        let n = order.len();
        let mut i: usize = 0;
        while i < n
            invariant
                n == order@.len(),
                forall|p: SideIPos| #[trigger] cells@.contains_key(p) <==> order@.contains(p),
                i <= n,
                g.wf(),
                g.spec_node_count() == order@.len(),
                forall|p: SideIPos| #[trigger] g.spec_has_node(p) <==> cells@.contains_key(p),
                forall|a: SideIPos, b: SideIPos| #[trigger]
                    g.spec_edge_weight(a, b) == (if order@.take(i as int).contains(a)
                        || order@.take(i as int).contains(b) {
                        spec_expected_edge(cells@, a, b)
                    } else {
                        None
                    }),
            decreases n - i,
        {
            let p = order[i];
            proof {
                assert(order@.contains(p)) by {
                    assert(order@[i as int] == p);
                }
            }
            g.connect_node(cells, p);
            proof {
                let done = order@.take(i as int);
                let done1 = order@.take(i as int + 1);
                assert(done1.contains(p)) by {
                    assert(done1[i as int] == p);
                }
                assert forall|a: SideIPos, b: SideIPos| #[trigger]
                    g.spec_edge_weight(a, b) == (if done1.contains(a) || done1.contains(b) {
                        spec_expected_edge(cells@, a, b)
                    } else {
                        None
                    }) by {
                    lemma_contains_take_succ(order@, i as int, a);
                    lemma_contains_take_succ(order@, i as int, b);
                }
            }
            i = i + 1;
        }
        proof {
            assert(order@.take(n as int) =~= order@);
            assert forall|a: SideIPos, b: SideIPos| #[trigger]
                g.spec_edge_weight(a, b) == spec_expected_edge(cells@, a, b) by {
                if spec_expected_edge(cells@, a, b) is Some {
                    assert(cells@.contains_key(a));
                }
            }
        }
        g
    }

    /// What a refresh leaves between `a` and `b`: the weight the cells call
    /// for where an edge already existed, and no edge otherwise. An edge is
    /// never created by a refresh, only retuned or removed.
    pub open spec fn spec_refreshed_edge(
        self,
        cells: Map<SideIPos, CellContent>,
        a: SideIPos,
        b: SideIPos,
    ) -> Option<u64> {
        if self.spec_edge_weight(a, b) is Some {
            spec_expected_edge(cells, a, b)
        } else {
            None
        }
    }

    /// Re-derives the edge between `p` and its neighbour `q` from the current
    /// cells: an existing edge is reweighted, or removed when an endpoint has
    /// become impassable; a missing edge stays missing.
    #[verifier::rlimit(100)]
    fn refresh_edge(&mut self, cells: &SideMapCells, p: SideIPos, q: SideIPos)
        requires
            old(self).wf(),
            old(self).spec_has_node(p),
            adjacent(p, q),
        ensures
            final(self).wf(),
            final(self).spec_node_count() == old(self).spec_node_count(),
            forall|r: SideIPos| #[trigger]
                final(self).spec_has_node(r) == old(self).spec_has_node(r),
            final(self).spec_edge_weight(p, q) == old(self).spec_refreshed_edge(cells@, p, q),
            final(self).spec_edge_weight(q, p) == old(self).spec_refreshed_edge(cells@, q, p),
            forall|x: SideIPos, y: SideIPos|
                !(x == p && y == q) && !(x == q && y == p)
                    ==> #[trigger] final(self).spec_edge_weight(x, y)
                        == old(self).spec_edge_weight(x, y),
    {
        proof {
            reveal(SideMapGraph::spec_edge_weight);
            lemma_expected_edge_symmetric(cells@, p, q);
            old(self).lemma_edge_weight_symmetric(p, q);
        }
        match self.edge_weight(&p, &q) {
            Some(_) => {
                let pw = match cells.get(&p) {
                    Some(c) => c.weight(),
                    None => None,
                };
                let qw = match cells.get(&q) {
                    Some(c) => c.weight(),
                    None => None,
                };
                proof {
                    assert(pw == (if cells@.contains_key(p) {
                        cells@[p].spec_weight()
                    } else {
                        None
                    }));
                    assert(qw == (if cells@.contains_key(q) {
                        cells@[q].spec_weight()
                    } else {
                        None
                    }));
                }
                match (pw, qw) {
                    (Some(pc), Some(qc)) => {
                        proof {
                            assert(spec_expected_edge(cells@, p, q) == Some((pc + qc) as u64));
                        }
                        self.add_edge(p, q, pc as u64 + qc as u64);
                    },
                    _ => {
                        proof {
                            assert(spec_expected_edge(cells@, p, q) is None);
                        }
                        self.remove_edge(p, q);
                    },
                }
            },
            None => {},
        }
    }

    /// The incremental update of the graph after the cell at `p` changed:
    /// every existing edge incident to `p` is reweighted from the current
    /// cells, or removed when an endpoint has become impassable. At most the
    /// four incident edges are touched; addresses without a node are ignored.
    #[verifier::rlimit(100)]
    pub fn update_edges_at(&mut self, cells: &SideMapCells, p: SideIPos)
        requires
            old(self).wf(),
        ensures
            final(self).wf(),
            final(self).spec_node_count() == old(self).spec_node_count(),
            forall|r: SideIPos| #[trigger]
                final(self).spec_has_node(r) == old(self).spec_has_node(r),
            forall|b: SideIPos| #[trigger]
                final(self).spec_edge_weight(p, b) == old(self).spec_refreshed_edge(cells@, p, b),
            forall|b: SideIPos| #[trigger]
                final(self).spec_edge_weight(b, p) == old(self).spec_refreshed_edge(cells@, b, p),
            forall|x: SideIPos, y: SideIPos|
                x != p && y != p ==> #[trigger] final(self).spec_edge_weight(x, y)
                    == old(self).spec_edge_weight(x, y),
    {
        if self.has_node(&p) {
            proof {
                reveal(SideMapGraph::spec_edge_weight);
                self.lemma_node_pos(p);
                lemma_dir_step_distinct(p);
            }
            let sides = p.sides();
            self.refresh_edge(cells, p, sides[0]);
            self.refresh_edge(cells, p, sides[1]);
            self.refresh_edge(cells, p, sides[2]);
            self.refresh_edge(cells, p, sides[3]);
            proof {
                assert forall|b: SideIPos| #[trigger]
                    self.spec_edge_weight(p, b) == old(self).spec_refreshed_edge(
                    cells@,
                    p,
                    b,
                ) by {
                    if b != dir_step(p, 0) && b != dir_step(p, 1) && b != dir_step(p, 2) && b
                        != dir_step(p, 3) {
                        assert(self.spec_edge_weight(p, b) is None);
                        assert(old(self).spec_edge_weight(p, b) is None);
                    }
                }
                assert forall|b: SideIPos| #[trigger]
                    self.spec_edge_weight(b, p) == old(self).spec_refreshed_edge(
                    cells@,
                    b,
                    p,
                ) by {
                    self.lemma_edge_weight_symmetric(p, b);
                    old(self).lemma_edge_weight_symmetric(p, b);
                    lemma_expected_edge_symmetric(cells@, p, b);
                }
            }
        } else {
            proof {
                reveal(SideMapGraph::spec_edge_weight);
                assert forall|b: SideIPos| #[trigger]
                    self.spec_edge_weight(p, b) == old(self).spec_refreshed_edge(
                    cells@,
                    p,
                    b,
                ) by {
                    assert(old(self).spec_edge_weight(p, b) is None);
                }
                assert forall|b: SideIPos| #[trigger]
                    self.spec_edge_weight(b, p) == old(self).spec_refreshed_edge(
                    cells@,
                    b,
                    p,
                ) by {
                    assert(old(self).spec_edge_weight(b, p) is None);
                }
            }
        }
    }
}

/// Membership in a prefix one longer: either already in the shorter prefix
/// or equal to the newly included element.
proof fn lemma_contains_take_succ(s: Seq<SideIPos>, i: int, x: SideIPos)
    requires
        0 <= i < s.len(),
    ensures
        s.take(i + 1).contains(x) <==> (s.take(i).contains(x) || x == s[i]),
{
    let t1 = s.take(i + 1);
    let t0 = s.take(i);
    if t1.contains(x) {
        let k = choose|k: int| 0 <= k < t1.len() && t1[k] == x;
        if k < i {
            assert(t0[k] == x);
        }
    }
    if t0.contains(x) {
        let k = choose|k: int| 0 <= k < t0.len() && t0[k] == x;
        assert(t1[k] == x);
    }
    if x == s[i] {
        assert(t1[i] == x);
    }
}

/// The edge the graph is supposed to hold between `a` and `b`, given the
/// current cells: present exactly when the two addresses are 4-adjacent and
/// both hold passable cells, and weighted with the sum of their costs.
pub open spec fn spec_expected_edge(
    cells: Map<SideIPos, CellContent>,
    a: SideIPos,
    b: SideIPos,
) -> Option<u64> {
    if adjacent(a, b) && cells.contains_key(a) && cells.contains_key(b)
        && cells[a].spec_weight() is Some && cells[b].spec_weight() is Some {
        Some((cells[a].spec_weight()->0 + cells[b].spec_weight()->0) as u64)
    } else {
        None
    }
}

/// The expected edge is symmetric in its endpoints.
pub proof fn lemma_expected_edge_symmetric(
    cells: Map<SideIPos, CellContent>,
    a: SideIPos,
    b: SideIPos,
)
    ensures
        spec_expected_edge(cells, a, b) == spec_expected_edge(cells, b, a),
{
}

/// The central consistency invariant of the terrain graph: it has a node for
/// exactly the stored cells, and between every two addresses exactly the
/// edge (and weight) that the current cell contents call for.
pub open spec fn graph_matches_cells(
    g: SideMapGraph,
    cells: Map<SideIPos, CellContent>,
) -> bool {
    &&& forall|p: SideIPos| #[trigger] g.spec_has_node(p) <==> cells.contains_key(p)
    &&& forall|a: SideIPos, b: SideIPos| #[trigger]
        g.spec_edge_weight(a, b) == spec_expected_edge(cells, a, b)
}

/// Distance value marking a node the search has not reached.
pub const UNREACHED: u64 = u64::MAX;

/// A route through the graph: it starts at `start`, ends at `goal`, and
/// every consecutive pair of addresses is joined by an edge.
pub open spec fn is_path(g: SideMapGraph, p: Seq<SideIPos>, start: SideIPos, goal: SideIPos) -> bool {
    &&& p.len() >= 1
    &&& p[0] == start
    &&& p[p.len() - 1] == goal
    &&& g.spec_has_node(start)
    &&& forall|i: int| 0 <= i < p.len() - 1 ==> g.spec_edge_weight(p[i], #[trigger] p[i + 1]) is Some
}

/// The total edge-weight cost of a route: the sum of the weights of its
/// consecutive edges.
pub open spec fn path_cost(g: SideMapGraph, p: Seq<SideIPos>) -> int
    decreases p.len(),
{
    if p.len() <= 1 {
        0
    } else {
        path_cost(g, p.drop_last()) + g.spec_edge_weight(p[p.len() - 2], p[p.len() - 1])->0
    }
}

/// Prefixes of a path are paths, ending at their own last address.
proof fn lemma_path_prefix(g: SideMapGraph, p: Seq<SideIPos>, start: SideIPos, goal: SideIPos)
    requires
        is_path(g, p, start, goal),
        p.len() >= 2,
    ensures
        is_path(g, p.drop_last(), start, p[p.len() - 2]),
        g.spec_edge_weight(p[p.len() - 2], goal) is Some,
{
    let q = p.drop_last();
    assert forall|i: int| 0 <= i < q.len() - 1 implies g.spec_edge_weight(
        q[i],
        #[trigger] q[i + 1],
    ) is Some by {
        assert(q[i] == p[i]);
        assert(q[i + 1] == p[i + 1]);
        assert(g.spec_edge_weight(p[i], p[i + 1]) is Some);
    }
    assert(g.spec_edge_weight(p[p.len() - 2], p[p.len() - 2 + 1]) is Some);
}

/// Extending a path by one edge at the front adds that edge's weight.
proof fn lemma_path_cost_prepend(g: SideMapGraph, x: SideIPos, p: Seq<SideIPos>)
    requires
        p.len() >= 1,
    ensures
        path_cost(g, seq![x] + p) == g.spec_edge_weight(x, p[0])->0 + path_cost(g, p),
    decreases p.len(),
{
    let xp = seq![x] + p;
    if p.len() == 1 {
        assert(xp.drop_last() =~= seq![x]);
        assert(path_cost(g, seq![x]) == 0);
        assert(xp[0] == x && xp[1] == p[0]);
    } else {
        lemma_path_cost_prepend(g, x, p.drop_last());
        assert(xp.drop_last() =~= seq![x] + p.drop_last());
        assert(xp[xp.len() - 2] == p[p.len() - 2]);
        assert(xp[xp.len() - 1] == p[p.len() - 1]);
        assert(p.drop_last()[0] == p[0]);
    }
}

/// Prepending a node joined by an edge to a path's first address yields a
/// path again.
proof fn lemma_path_prepend(
    g: SideMapGraph,
    x: SideIPos,
    p: Seq<SideIPos>,
    start: SideIPos,
    goal: SideIPos,
)
    requires
        is_path(g, p, start, goal),
        g.spec_edge_weight(x, start) is Some,
        g.spec_has_node(x),
    ensures
        is_path(g, seq![x] + p, x, goal),
{
    let xp = seq![x] + p;
    assert(xp[0] == x);
    assert(xp[xp.len() - 1] == goal);
    assert forall|i: int| 0 <= i < xp.len() - 1 implies g.spec_edge_weight(
        xp[i],
        #[trigger] xp[i + 1],
    ) is Some by {
        if i == 0 {
            assert(xp[1] == p[0]);
        } else {
            assert(xp[i] == p[i - 1]);
            assert(xp[i + 1] == p[i]);
            assert(g.spec_edge_weight(p[i - 1], p[i - 1 + 1]) is Some);
        }
    }
}

/// The sum of a sequence of distance values.
spec fn sum_seq(s: Seq<u64>) -> nat
    decreases s.len(),
{
    if s.len() == 0 {
        0nat
    } else {
        (sum_seq(s.drop_last()) + s.last()) as nat
    }
}

/// Lowering one entry lowers the sum by exactly the difference.
proof fn lemma_sum_seq_update(s: Seq<u64>, i: int, v: u64)
    requires
        0 <= i < s.len(),
    ensures
        sum_seq(s.update(i, v)) + s[i] == sum_seq(s) + v,
    decreases s.len(),
{
    let t = s.update(i, v);
    if i == s.len() - 1 {
        assert(t.drop_last() =~= s.drop_last());
    } else {
        lemma_sum_seq_update(s.drop_last(), i, v);
        assert(t.drop_last() =~= s.drop_last().update(i, v));
        assert(t.last() == s.last());
    }
}

/// How many entries of a distance sequence are reached (not `UNREACHED`).
spec fn cnt_finite(s: Seq<u64>) -> nat
    decreases s.len(),
{
    if s.len() == 0 {
        0nat
    } else {
        (cnt_finite(s.drop_last()) + (if s.last() < UNREACHED {
            1nat
        } else {
            0nat
        })) as nat
    }
}

/// Overwriting an entry with a reached value grows the reached count by one
/// when the entry was unreached, and keeps it otherwise.
proof fn lemma_cnt_finite_update(s: Seq<u64>, i: int, v: u64)
    requires
        0 <= i < s.len(),
        v < UNREACHED,
    ensures
        s[i] < UNREACHED ==> cnt_finite(s.update(i, v)) == cnt_finite(s),
        s[i] == UNREACHED ==> cnt_finite(s.update(i, v)) == cnt_finite(s) + 1,
    decreases s.len(),
{
    let t = s.update(i, v);
    if i == s.len() - 1 {
        assert(t.drop_last() =~= s.drop_last());
    } else {
        lemma_cnt_finite_update(s.drop_last(), i, v);
        assert(t.drop_last() =~= s.drop_last().update(i, v));
        assert(t.last() == s.last());
    }
}

/// The reached count never exceeds the sequence length.
proof fn lemma_cnt_finite_le_len(s: Seq<u64>)
    ensures
        cnt_finite(s) <= s.len(),
    decreases s.len(),
{
    if s.len() > 0 {
        lemma_cnt_finite_le_len(s.drop_last());
    }
}

/// A sequence of only unreached entries has a reached count of zero.
proof fn lemma_cnt_finite_all_unreached(s: Seq<u64>)
    requires
        forall|i: int| 0 <= i < s.len() ==> s[i] == UNREACHED,
    ensures
        cnt_finite(s) == 0,
    decreases s.len(),
{
    if s.len() > 0 {
        lemma_cnt_finite_all_unreached(s.drop_last());
    }
}

/// The floor of the square root of `x`.
pub(crate) fn isqrt_u128(x: u128) -> (r: u64)
    ensures
        (r as int) * (r as int) <= x < (r as int + 1) * (r as int + 1),
{
    let mut lo: u128 = 0;
    let mut hi: u128 = 0x1_0000_0000_0000_0000;
    proof {
        assert((0x1_0000_0000_0000_0000 as int) * (0x1_0000_0000_0000_0000 as int) > u128::MAX as int);
    }
    while hi - lo > 1
        invariant
            lo < hi <= 0x1_0000_0000_0000_0000,
            (lo as int) * (lo as int) <= x,
            x < (hi as int) * (hi as int),
        decreases hi - lo,
    {
        let mid = lo + (hi - lo) / 2;
        proof {
            assert(lo < mid < hi);
            assert((mid as int) * (mid as int) <= (0xFFFF_FFFF_FFFF_FFFF as int) * (
            0xFFFF_FFFF_FFFF_FFFF as int)) by (nonlinear_arith)
                requires
                    0 <= mid <= 0xFFFF_FFFF_FFFF_FFFFu128,
            {
            }
        }
        if mid * mid <= x {
            lo = mid;
        } else {
            hi = mid;
        }
    }
    lo as u64
}

/// The straight-line distance between two addresses in whole cell units
/// (the floor of the Euclidean distance). Used as the search heuristic.
pub fn euclid_cells(a: &SideIPos, b: &SideIPos) -> (r: u64)
    ensures
        (r as int) * (r as int) <= (a.x - b.x) * (a.x - b.x) + (a.y - b.y) * (a.y - b.y) < (
        r as int + 1) * (r as int + 1),
{
    let dx = a.x as i64 - b.x as i64;
    let dy = a.y as i64 - b.y as i64;
    proof {
        assert(0 <= (dx as int) * (dx as int) < 0x4_0000_0000_0000_0000 && 0 <= (dy as int) * (
        dy as int) < 0x4_0000_0000_0000_0000) by (nonlinear_arith)
            requires
                -0x2_0000_0000 < dx < 0x2_0000_0000,
                -0x2_0000_0000 < dy < 0x2_0000_0000,
        {
        }
    }
    let dx2 = (dx as i128 * dx as i128) as u128;
    let dy2 = (dy as i128 * dy as i128) as u128;
    isqrt_u128(dx2 + dy2)
}

impl SideMapGraph {
    /// The edge leaving node `u` in direction `d`, as the neighbour's index
    /// and the edge weight.
    #[verifier::opaque]
    spec fn spec_dir_edge(self, u: int, d: int) -> Option<(int, u64)> {
        match self.nodes@[u].edge(d) {
            Some(w) => Some((self.idx(dir_step(self.nodes@[u].pos, d)), w)),
            None => None,
        }
    }

    /// What well-formedness guarantees about a stored directed edge: the
    /// neighbour index is valid and distinct, the weight is in range, and it
    /// all agrees with the address-level edge weight.
    #[verifier::rlimit(100)]
    proof fn lemma_dir_edge_props(self, u: int, d: int)
        requires
            self.wf(),
            0 <= u < self.nodes@.len(),
            0 <= d < 4,
        ensures
            self.spec_dir_edge(u, d) is Some ==> {
                let jw = self.spec_dir_edge(u, d)->0;
                &&& 0 <= jw.0 < self.nodes@.len()
                &&& jw.0 != u
                &&& self.nodes@[jw.0].pos == dir_step(self.nodes@[u].pos, d)
                &&& 2 <= jw.1 <= MAX_EDGE_WEIGHT
                &&& self.spec_edge_weight(self.nodes@[u].pos, self.nodes@[jw.0].pos) == Some(
                    jw.1,
                )
            },
    {
        reveal(SideMapGraph::wf);
        reveal(SideMapGraph::spec_edge_weight);
        reveal(SideMapGraph::spec_dir_edge);
        if self.spec_dir_edge(u, d) is Some {
            let pos = self.nodes@[u].pos;
            let q = dir_step(pos, d);
            let j = self.index_of@[spec_addr_key(q)] as int;
            lemma_addr_key_injective(self.nodes@[j].pos, q);
            lemma_dir_step_distinct(pos);
            assert(self.index_of@[spec_addr_key(pos)] == u as usize);
            assert(self.spec_has_node(pos));
            assert(self.spec_has_node(q));
        }
    }

    /// Every address-level edge is a stored directed edge of the first
    /// endpoint's node, in one of the four directions.
    #[verifier::rlimit(100)]
    proof fn lemma_edge_weight_to_dir(self, a: SideIPos, b: SideIPos)
        requires
            self.wf(),
            self.spec_edge_weight(a, b) is Some,
        ensures
            self.spec_has_node(a),
            self.spec_has_node(b),
            0 <= self.idx(a) < self.nodes@.len(),
            0 <= self.idx(b) < self.nodes@.len(),
            exists|d: int|
                0 <= d < 4 && #[trigger] self.spec_dir_edge(self.idx(a), d) == Some(
                    (self.idx(b), self.spec_edge_weight(a, b)->0),
                ),
    {
        reveal(SideMapGraph::wf);
        reveal(SideMapGraph::spec_edge_weight);
        reveal(SideMapGraph::spec_dir_edge);
        self.lemma_node_pos(a);
        self.lemma_node_pos(b);
        let ia = self.idx(a);
        if b == dir_step(a, 0) {
            assert(self.spec_dir_edge(ia, 0) == Some((self.idx(b), self.spec_edge_weight(a, b)->0)));
        } else if b == dir_step(a, 1) {
            assert(self.spec_dir_edge(ia, 1) == Some((self.idx(b), self.spec_edge_weight(a, b)->0)));
        } else if b == dir_step(a, 2) {
            assert(self.spec_dir_edge(ia, 2) == Some((self.idx(b), self.spec_edge_weight(a, b)->0)));
        } else {
            assert(b == dir_step(a, 3));
            assert(self.spec_dir_edge(ia, 3) == Some((self.idx(b), self.spec_edge_weight(a, b)->0)));
        }
    }

    /// The address of the node at internal index `i`.
    fn node_pos(&self, i: usize) -> (p: SideIPos)
        requires
            (i as int) < self.spec_node_count(),
        ensures
            p == self.nodes@[i as int].pos,
    {
        self.nodes[i].pos
    }

    /// The neighbour index and weight of the edge leaving node `u` in
    /// direction `d`, if that edge exists.
    #[verifier::rlimit(100)]
    fn dir_edge(&self, u: usize, d: usize) -> (r: Option<(usize, u64)>)
        requires
            self.wf(),
            (u as int) < self.spec_node_count(),
            d < 4,
        ensures
            match r {
                Some(jw) => self.spec_dir_edge(u as int, d as int) == Some(
                    (jw.0 as int, jw.1),
                ) && (jw.0 as int) < self.spec_node_count(),
                None => self.spec_dir_edge(u as int, d as int) is None,
            },
    {
        proof {
            reveal(SideMapGraph::spec_dir_edge);
            self.lemma_dir_edge_props(u as int, d as int);
        }
        let nd = self.nodes[u].get_edge(d);
        match nd {
            Some(w) => {
                let pos = self.node_pos(u);
                proof {
                    reveal(SideMapGraph::wf);
                    assert(pos.in_bounds());
                    assert(self.spec_has_node(dir_step(pos, d as int)));
                }
                let q = if d == 0 {
                    SideIPos { x: pos.x + 1, y: pos.y }
                } else if d == 1 {
                    SideIPos { x: pos.x, y: pos.y + 1 }
                } else if d == 2 {
                    SideIPos { x: pos.x - 1, y: pos.y }
                } else {
                    SideIPos { x: pos.x, y: pos.y - 1 }
                };
                proof {
                    assert(q == dir_step(pos, d as int));
                }
                let j = self.index_of_node(&q);
                proof {
                    self.lemma_node_pos(q);
                }
                Some((j, w))
            },
            None => None,
        }
    }
}

/// Soundness of the search state: distances and parent links form, for every
/// reached node other than the start, an incoming edge from a parent that is
/// strictly closer, whose weight is covered by the distance gap.
spec fn parent_edge_ok(g: SideMapGraph, dist: Seq<u64>, parent: Seq<usize>, i: int) -> bool {
    let pi = parent[i] as int;
    &&& 0 <= pi < dist.len()
    &&& dist[pi] < dist[i]
    &&& exists|d: int|
        #![trigger g.spec_dir_edge(pi, d)]
        0 <= d < 4 && (match g.spec_dir_edge(pi, d) {
            Some(jw) => jw.0 == i && dist[i] >= dist[pi] + jw.1,
            None => false,
        })
}

/// The standing well-formedness of the search state.
spec fn search_inv(g: SideMapGraph, dist: Seq<u64>, parent: Seq<usize>, s: int) -> bool {
    &&& g.wf()
    &&& dist.len() == g.spec_node_count()
    &&& dist.len() <= NODE_LIMIT
    &&& parent.len() == dist.len()
    &&& 0 <= s < dist.len()
    &&& dist[s] == 0
    &&& forall|i: int|
        0 <= i < dist.len() && (#[trigger] dist[i]) < UNREACHED && i != s ==> parent_edge_ok(
            g,
            dist,
            parent,
            i,
        )
    &&& forall|i: int|
        0 <= i < dist.len() && (#[trigger] dist[i]) < UNREACHED ==> dist[i]
            <= MAX_EDGE_WEIGHT * cnt_finite(dist)
}

/// Every reached node's outgoing edges are relaxed, except that a node may
/// instead still sit on the worklist, or be the currently exempt node `xu`.
spec fn closure_except(g: SideMapGraph, dist: Seq<u64>, wl: Seq<usize>, xu: int) -> bool {
    forall|u: int, d: int|
        0 <= u < dist.len() && 0 <= d < 4 && dist[u] < UNREACHED && (#[trigger] g.spec_dir_edge(
            u,
            d,
        )) is Some ==> u == xu || wl.contains(u as usize) || {
            let jw = g.spec_dir_edge(u, d)->0;
            &&& dist[jw.0] < UNREACHED
            &&& dist[jw.0] <= dist[u] + jw.1
        }
}

/// The worklist holds only valid indices of reached nodes.
spec fn wl_ok(dist: Seq<u64>, wl: Seq<usize>) -> bool {
    forall|k: int|
        0 <= k < wl.len() ==> ((#[trigger] wl[k]) as int) < dist.len() && dist[wl[k] as int]
            < UNREACHED
}

/// Pushing onto the worklist keeps every membership fact.
proof fn lemma_wl_push_contains(wl: Seq<usize>, v: usize, x: usize)
    requires
        wl.contains(x),
    ensures
        wl.push(v).contains(x),
{
    let k = choose|k: int| 0 <= k < wl.len() && wl[k] == x;
    assert(wl.push(v)[k] == x);
}

/// Removing one occurrence by swapping in the last element keeps every other
/// element's membership.
proof fn lemma_wl_swap_remove_contains(wl: Seq<usize>, k: int, x: usize)
    requires
        0 <= k < wl.len(),
        wl.contains(x),
        x != wl[k],
    ensures
        wl.update(k, wl.last()).drop_last().contains(x),
{
    let j = choose|j: int| 0 <= j < wl.len() && wl[j] == x;
    let t = wl.update(k, wl.last()).drop_last();
    if j < wl.len() - 1 {
        if j == k {
            assert(false);
        }
        assert(t[j] == x);
    } else {
        assert(wl.last() == x);
        if k < wl.len() - 1 {
            assert(t[k] == x);
        } else {
            assert(x == wl[k]);
            assert(false);
        }
    }
}

/// Updating one node with a strictly better distance through an edge from
/// `u` keeps every parent link sound.
#[verifier::rlimit(100)]
proof fn lemma_relax_sound(
    g: SideMapGraph,
    dist0: Seq<u64>,
    parent0: Seq<usize>,
    s: int,
    u: int,
    d: int,
    j: int,
    w: u64,
    nd: u64,
)
    requires
        search_inv(g, dist0, parent0, s),
        0 <= u < dist0.len(),
        dist0[u] < UNREACHED,
        0 <= d < 4,
        g.spec_dir_edge(u, d) == Some((j, w)),
        0 <= j < dist0.len(),
        j != u,
        nd as int == dist0[u] + w,
        nd < dist0[j],
        2 <= w <= MAX_EDGE_WEIGHT,
    ensures
        search_inv(g, dist0.update(j, nd), parent0.update(j, u as usize), s),
{
    let dist1 = dist0.update(j, nd);
    let parent1 = parent0.update(j, u as usize);
    assert(j != s);
    lemma_cnt_finite_update(dist0, j, nd);
    let c0 = cnt_finite(dist0);
    let c1 = cnt_finite(dist1);
    assert(c0 <= c1 && c1 <= c0 + 1 && (dist0[j] == UNREACHED ==> c1 == c0 + 1) && (dist0[j]
        < UNREACHED ==> c1 == c0));
    assert(MAX_EDGE_WEIGHT * c1 >= MAX_EDGE_WEIGHT * c0 && (c1 == c0 + 1
        ==> MAX_EDGE_WEIGHT * c1 == MAX_EDGE_WEIGHT * c0 + MAX_EDGE_WEIGHT)) by (nonlinear_arith)
        requires
            c0 <= c1 <= c0 + 1,
    {
    }
    assert forall|i: int|
        0 <= i < dist1.len() && (#[trigger] dist1[i]) < UNREACHED implies dist1[i]
        <= MAX_EDGE_WEIGHT * c1 by {
        if i != j {
            assert(dist0[i] == dist1[i]);
            assert(dist0[i] <= MAX_EDGE_WEIGHT * c0);
        } else {
            assert(dist0[u] <= MAX_EDGE_WEIGHT * c0);
            if dist0[j] == UNREACHED {
                assert(dist1[i] as int == dist0[u] + w <= MAX_EDGE_WEIGHT * c0 + MAX_EDGE_WEIGHT);
            } else {
                assert(dist0[j] <= MAX_EDGE_WEIGHT * c0);
                assert(dist1[i] < dist0[j]);
            }
        }
    }
    assert forall|i: int|
        0 <= i < dist1.len() && (#[trigger] dist1[i]) < UNREACHED && i != s implies parent_edge_ok(
        g,
        dist1,
        parent1,
        i,
    ) by {
        if i == j {
            assert(dist1[u] == dist0[u]);
            assert(match g.spec_dir_edge(u, d) {
                Some(jw2) => jw2.0 == i && dist1[i] >= dist1[u] + jw2.1,
                None => false,
            });
        } else {
            assert(dist0[i] < UNREACHED);
            assert(parent_edge_ok(g, dist0, parent0, i));
            let pi = parent0[i] as int;
            let dd = choose|dd: int|
                #![trigger g.spec_dir_edge(pi, dd)]
                0 <= dd < 4 && (match g.spec_dir_edge(pi, dd) {
                    Some(jw2) => jw2.0 == i && dist0[i] >= dist0[pi] + jw2.1,
                    None => false,
                });
            assert(dist1[pi] <= dist0[pi]);
            assert(match g.spec_dir_edge(pi, dd) {
                Some(jw2) => jw2.0 == i && dist1[i] >= dist1[pi] + jw2.1,
                None => false,
            });
        }
    }
}

/// Updating one node with a strictly better distance through an edge from
/// `u` keeps the worklist closure, with the improved node re-enqueued.
#[verifier::rlimit(100)]
proof fn lemma_relax_closure(
    g: SideMapGraph,
    dist0: Seq<u64>,
    wl0: Seq<usize>,
    u: int,
    d: int,
    j: int,
    w: u64,
    nd: u64,
)
    requires
        g.wf(),
        dist0.len() == g.spec_node_count(),
        dist0.len() <= usize::MAX,
        closure_except(g, dist0, wl0, u),
        wl_ok(dist0, wl0),
        0 <= u < dist0.len(),
        dist0[u] < UNREACHED,
        0 <= d < 4,
        g.spec_dir_edge(u, d) == Some((j, w)),
        0 <= j < dist0.len(),
        j != u,
        nd as int == dist0[u] + w,
        nd < dist0[j],
        2 <= w,
    ensures
        closure_except(g, dist0.update(j, nd), wl0.push(j as usize), u),
        wl_ok(dist0.update(j, nd), wl0.push(j as usize)),
{
    let dist1 = dist0.update(j, nd);
    let wl1 = wl0.push(j as usize);
    assert forall|k2: int|
        0 <= k2 < wl1.len() implies ((#[trigger] wl1[k2]) as int) < dist1.len() && dist1[wl1[k2] as int]
        < UNREACHED by {
        if k2 < wl0.len() {
            assert(wl1[k2] == wl0[k2]);
            assert((wl0[k2] as int) < dist0.len());
            assert(dist0[wl0[k2] as int] < UNREACHED);
            if wl0[k2] as int == j {
                assert(dist1[wl1[k2] as int] == nd);
            } else {
                assert(dist1[wl1[k2] as int] == dist0[wl0[k2] as int]);
            }
            assert((wl1[k2] as int) < dist1.len());
            assert(dist1[wl1[k2] as int] < UNREACHED);
        } else {
            assert(k2 == wl0.len());
            assert(wl0.push(j as usize)[wl0.len() as int] == j as usize);
            assert(dist1[j] == nd);
            assert((wl1[k2] as int) < dist1.len());
            assert(dist1[wl1[k2] as int] < UNREACHED);
        }
    }
    assert forall|u2: int, d2: int|
        0 <= u2 < dist1.len() && 0 <= d2 < 4 && dist1[u2] < UNREACHED && (
        #[trigger] g.spec_dir_edge(u2, d2)) is Some implies u2 == u || wl1.contains(u2 as usize)
        || {
        let jw2 = g.spec_dir_edge(u2, d2)->0;
        &&& dist1[jw2.0] < UNREACHED
        &&& dist1[jw2.0] <= dist1[u2] + jw2.1
    } by {
        if u2 == j {
            assert(wl1[wl1.len() - 1] == j as usize);
            assert(wl1.contains(u2 as usize));
        } else if u2 != u {
            assert(dist0[u2] < UNREACHED);
            if wl0.contains(u2 as usize) {
                lemma_wl_push_contains(wl0, j as usize, u2 as usize);
                assert(wl1.contains(u2 as usize));
            } else {
                g.lemma_dir_edge_props(u2, d2);
                let jw2 = g.spec_dir_edge(u2, d2)->0;
                assert(0 <= jw2.0 < dist0.len());
                assert(dist0[jw2.0] < UNREACHED && dist0[jw2.0] <= dist0[u2] + jw2.1);
                assert(dist1[jw2.0] <= dist0[jw2.0]);
                assert(dist1[u2] == dist0[u2]);
                assert(dist1[jw2.0] < UNREACHED);
                assert(dist1[jw2.0] <= dist1[u2] + jw2.1);
            }
        }
    }
}

impl SideMapGraph {
    /// One relaxation step of the route search: if the edge in direction `d`
    /// from `u` reaches its neighbour more cheaply than anything known, the
    /// neighbour's distance and parent are updated and it re-enters the
    /// worklist. The exempt node stays `u`, whose other directions may still
    /// be unrelaxed.
    #[verifier::rlimit(100)]
    fn relax(
        &self,
        dist: &mut Vec<u64>,
        parent: &mut Vec<usize>,
        wl: &mut Vec<usize>,
        u: usize,
        d: usize,
        Ghost(s): Ghost<int>,
    )
        requires
            search_inv(*self, old(dist)@, old(parent)@, s),
            closure_except(*self, old(dist)@, old(wl)@, u as int),
            wl_ok(old(dist)@, old(wl)@),
            (u as int) < old(dist)@.len(),
            old(dist)@[u as int] < UNREACHED,
            d < 4,
        ensures
            search_inv(*self, final(dist)@, final(parent)@, s),
            closure_except(*self, final(dist)@, final(wl)@, u as int),
            wl_ok(final(dist)@, final(wl)@),
            final(dist)@.len() == old(dist)@.len(),
            final(dist)@[u as int] == old(dist)@[u as int],
            forall|i: int|
                0 <= i < final(dist)@.len() ==> #[trigger] final(dist)@[i] <= old(dist)@[i],
            self.spec_dir_edge(u as int, d as int) matches Some(jw) ==> final(dist)@[jw.0]
                < UNREACHED && final(dist)@[jw.0] <= final(dist)@[u as int] + jw.1,
            (final(dist)@ == old(dist)@ && final(wl)@ == old(wl)@ && final(parent)@ == old(
            parent,
            )@) || sum_seq(final(dist)@) < sum_seq(old(dist)@),
    {
        proof {
            self.lemma_dir_edge_props(u as int, d as int);
        }
        let e = self.dir_edge(u, d);
        match e {
            Some((j, w)) => {
                let du = dist[u];
                let dj = dist[j];
                proof {
                    lemma_cnt_finite_le_len(dist@);
                    assert(du + w <= MAX_EDGE_WEIGHT * cnt_finite(dist@) + MAX_EDGE_WEIGHT);
                    assert(MAX_EDGE_WEIGHT * cnt_finite(dist@) <= MAX_EDGE_WEIGHT * dist@.len())
                        by (nonlinear_arith)
                        requires
                            cnt_finite(dist@) <= dist@.len(),
                    {
                    }
                    assert(du + w < UNREACHED);
                }
                if (du as u128) + (w as u128) < (dj as u128) {
                    let nd = du + w;
                    dist[j] = nd;
                    parent[j] = u;
                    wl.push(j);
                    proof {
                        assert(dist@ == old(dist)@.update(j as int, nd));
                        lemma_sum_seq_update(old(dist)@, j as int, nd);
                        lemma_relax_sound(
                            *self,
                            old(dist)@,
                            old(parent)@,
                            s,
                            u as int,
                            d as int,
                            j as int,
                            w,
                            nd,
                        );
                        lemma_relax_closure(
                            *self,
                            old(dist)@,
                            old(wl)@,
                            u as int,
                            d as int,
                            j as int,
                            w,
                            nd,
                        );
                    }
                }
            },
            None => {},
        }
    }
}

impl SideMapGraph {
    /// The graph never holds more nodes than `NODE_LIMIT`.
    proof fn lemma_node_limit(self)
        requires
            self.wf(),
        ensures
            self.spec_node_count() <= NODE_LIMIT,
    {
        reveal(SideMapGraph::wf);
    }

    /// An edge weight only exists between two nodes of the graph.
    proof fn lemma_edge_nodes(self, a: SideIPos, b: SideIPos)
        requires
            self.spec_edge_weight(a, b) is Some,
        ensures
            self.spec_has_node(a),
            self.spec_has_node(b),
    {
        reveal(SideMapGraph::spec_edge_weight);
    }

    /// The address stored at a valid index is a node of the graph, indexed
    /// right back to the same slot.
    proof fn lemma_node_at_index(self, i: int)
        requires
            self.wf(),
            0 <= i < self.spec_node_count(),
        ensures
            self.spec_has_node(self.nodes@[i].pos),
            self.idx(self.nodes@[i].pos) == i,
            self.nodes@[i].pos.in_bounds(),
    {
        reveal(SideMapGraph::wf);
    }

    /// Picks the worklist slot whose node has the smallest known distance
    /// plus straight-line estimate to the goal, as the search's next node.
    fn pick_best(&self, wl: &Vec<usize>, dist: &Vec<u64>, goal: &SideIPos) -> (k: usize)
        requires
            self.wf(),
            wl@.len() > 0,
            wl_ok(dist@, wl@),
            dist@.len() == self.spec_node_count(),
        ensures
            (k as int) < wl@.len(),
    {
        let u0 = wl[0];
        let mut best_k: usize = 0;
        let mut best_pr: u128 = dist[u0] as u128 + euclid_cells(&self.node_pos(u0), goal) as u128;
        let mut i: usize = 1;
        while i < wl.len()
            invariant
                self.wf(),
                wl_ok(dist@, wl@),
                dist@.len() == self.spec_node_count(),
                wl@.len() > 0,
                (best_k as int) < wl@.len(),
                i <= wl@.len(),
            decreases wl@.len() - i,
        {
            let u = wl[i];
            let pr = dist[u] as u128 + euclid_cells(&self.node_pos(u), goal) as u128;
            if pr < best_pr {
                best_k = i;
                best_pr = pr;
            }
            i = i + 1;
        }
        best_k
    }

    /// Walks the parent links back from `t` and returns the found route in
    /// forward order. Its cost is covered by the distance recorded for `t`.
    #[verifier::rlimit(100)]
    fn reconstruct(&self, dist: &Vec<u64>, parent: &Vec<usize>, s: usize, t: usize) -> (out: Vec<
        SideIPos,
    >)
        requires
            search_inv(*self, dist@, parent@, s as int),
            (t as int) < dist@.len(),
            dist@[t as int] < UNREACHED,
        ensures
            is_path(*self, out@, self.nodes@[s as int].pos, self.nodes@[t as int].pos),
            path_cost(*self, out@) <= dist@[t as int],
            forall|i: int| 0 <= i < out@.len() ==> (#[trigger] out@[i]).in_bounds(),
    {
        let mut rev: Vec<SideIPos> = Vec::new();
        let ghost tpos = self.nodes@[t as int].pos;
        let ghost mut pseq: Seq<SideIPos> = seq![tpos];
        rev.push(self.node_pos(t));
        let mut cur: usize = t;
        proof {
            self.lemma_node_at_index(t as int);
        }
        while cur != s
            invariant
                search_inv(*self, dist@, parent@, s as int),
                (cur as int) < dist@.len(),
                dist@[cur as int] < UNREACHED,
                pseq.len() == rev@.len(),
                rev@.len() >= 1,
                forall|j: int| 0 <= j < pseq.len() ==> pseq[j] == rev@[pseq.len() - 1 - j],
                forall|j: int| 0 <= j < pseq.len() ==> (#[trigger] pseq[j]).in_bounds(),
                is_path(*self, pseq, self.nodes@[cur as int].pos, tpos),
                path_cost(*self, pseq) <= dist@[t as int] - dist@[cur as int],
            decreases dist@[cur as int],
        {
            proof {
                assert(parent_edge_ok(*self, dist@, parent@, cur as int));
            }
            let pv = parent[cur];
            proof {
                let pvi = pv as int;
                let ci = cur as int;
                let d = choose|d: int|
                    #![trigger self.spec_dir_edge(pvi, d)]
                    0 <= d < 4 && (match self.spec_dir_edge(pvi, d) {
                        Some(jw) => jw.0 == ci && dist@[ci] >= dist@[pvi] + jw.1,
                        None => false,
                    });
                self.lemma_dir_edge_props(pvi, d);
                self.lemma_node_at_index(pvi);
                let w = (self.spec_dir_edge(pvi, d)->0).1;
                assert(self.spec_edge_weight(self.nodes@[pvi].pos, self.nodes@[ci].pos) == Some(
                    w,
                ));
                lemma_path_prepend(
                    *self,
                    self.nodes@[pvi].pos,
                    pseq,
                    self.nodes@[ci].pos,
                    tpos,
                );
                lemma_path_cost_prepend(*self, self.nodes@[pvi].pos, pseq);
                pseq = seq![self.nodes@[pvi].pos] + pseq;
            }
            rev.push(self.node_pos(pv));
            cur = pv;
            proof {
                assert forall|j: int| 0 <= j < pseq.len() implies pseq[j] == rev@[pseq.len() - 1
                    - j] by {
                    if j > 0 {
                        assert(pseq[j] == pseq.drop_first()[j - 1]);
                    }
                }
                assert forall|j: int| 0 <= j < pseq.len() implies (
                    #[trigger] pseq[j]).in_bounds() by {
                    if j > 0 {
                        assert(pseq[j] == pseq.drop_first()[j - 1]);
                    }
                }
            }
        }
        let n = rev.len();
        let mut out: Vec<SideIPos> = Vec::new();
        let mut k: usize = 0;
        while k < n
            invariant
                n == rev@.len(),
                n == pseq.len(),
                k <= n,
                out@.len() == k,
                forall|j: int| 0 <= j < k ==> out@[j] == rev@[n - 1 - j],
                forall|j: int| 0 <= j < pseq.len() ==> pseq[j] == rev@[pseq.len() - 1 - j],
                forall|j: int| 0 <= j < pseq.len() ==> (#[trigger] pseq[j]).in_bounds(),
                is_path(*self, pseq, self.nodes@[s as int].pos, tpos),
                path_cost(*self, pseq) <= dist@[t as int],
            decreases n - k,
        {
            out.push(rev[n - 1 - k]);
            k = k + 1;
        }
        proof {
            assert(out@ =~= pseq);
        }
        out
    }
}

/// Any route from the start is at least as costly as the distance the
/// finished search recorded for its endpoint; in particular every address a
/// route reaches was reached by the search.
#[verifier::rlimit(100)]
proof fn lemma_closure_bounds_path(
    g: SideMapGraph,
    dist: Seq<u64>,
    s: int,
    start: SideIPos,
    p: Seq<SideIPos>,
    goal: SideIPos,
)
    requires
        g.wf(),
        dist.len() == g.spec_node_count(),
        0 <= s < dist.len(),
        dist[s] == 0,
        g.spec_has_node(start),
        s == g.idx(start),
        closure_except(g, dist, Seq::<usize>::empty(), -1),
        is_path(g, p, start, goal),
    ensures
        g.spec_has_node(goal),
        0 <= g.idx(goal) < dist.len(),
        dist[g.idx(goal)] < UNREACHED,
        dist[g.idx(goal)] <= path_cost(g, p),
    decreases p.len(),
{
    g.lemma_node_pos(start);
    if p.len() == 1 {
        assert(goal == start);
        assert(path_cost(g, p) == 0);
    } else {
        let m = p[p.len() - 2];
        lemma_path_prefix(g, p, start, goal);
        lemma_closure_bounds_path(g, dist, s, start, p.drop_last(), m);
        g.lemma_edge_weight_to_dir(m, goal);
        let im = g.idx(m);
        let w = g.spec_edge_weight(m, goal)->0;
        let d = choose|d: int|
            0 <= d < 4 && #[trigger] g.spec_dir_edge(im, d) == Some((g.idx(goal), w));
        assert(p.drop_last()[p.len() - 2] == m);
        assert(dist[im] < UNREACHED);
        assert(!Seq::<usize>::empty().contains(im as usize));
        assert(im != -1);
        assert(dist[g.idx(goal)] < UNREACHED && dist[g.idx(goal)] <= dist[im] + w);
        assert(path_cost(g, p) == path_cost(g, p.drop_last()) + w);
    }
}

impl SideMapGraph {
    /// Computes a cheapest route from `start` to `goal` through the graph.
    ///
    /// A route is returned exactly when one exists; its total edge-weight
    /// cost is returned with it, and no other route is cheaper. The
    /// best-first order uses the straight-line distance to the goal as its
    /// estimate; re-relaxation makes the result exact regardless.
    #[verifier::rlimit(100)]
    pub fn astar(&self, start: SideIPos, goal: SideIPos) -> (r: Option<(u64, Vec<SideIPos>)>)
        requires
            self.wf(),
            self.spec_has_node(start),
        ensures
            match r {
                Some(cp) => {
                    &&& is_path(*self, cp.1@, start, goal)
                    &&& path_cost(*self, cp.1@) == cp.0
                    &&& forall|i: int| 0 <= i < cp.1@.len() ==> (#[trigger] cp.1@[i]).in_bounds()
                    &&& forall|q: Seq<SideIPos>|
                        is_path(*self, q, start, goal) ==> path_cost(*self, q) >= cp.0
                },
                None => forall|q: Seq<SideIPos>| !is_path(*self, q, start, goal),
            },
    {
        let n = self.node_count();
        let s = self.index_of_node(&start);
        proof {
            self.lemma_node_pos(start);
            self.lemma_node_limit();
        }
        let mut dist: Vec<u64> = Vec::new();
        let mut parent: Vec<usize> = Vec::new();
        let mut i: usize = 0;
        while i < n
            invariant
                i <= n,
                dist@.len() == i,
                parent@.len() == i,
                forall|j: int| 0 <= j < i ==> dist@[j] == UNREACHED,
            decreases n - i,
        {
            dist.push(UNREACHED);
            parent.push(0);
            i = i + 1;
        }
        dist[s] = 0;
        let mut wl: Vec<usize> = Vec::new();
        wl.push(s);
        proof {
            let dist0 = Seq::<u64>::new(n as nat, |j: int| UNREACHED);
            assert(dist@ =~= dist0.update(s as int, 0u64));
            lemma_cnt_finite_all_unreached(dist0);
            lemma_cnt_finite_update(dist0, s as int, 0);
            assert(cnt_finite(dist@) == 1);
            assert(search_inv(*self, dist@, parent@, s as int));
            assert(wl@[0] == s);
            assert forall|u2: int, d2: int|
                0 <= u2 < dist@.len() && 0 <= d2 < 4 && dist@[u2] < UNREACHED && (
                #[trigger] self.spec_dir_edge(u2, d2)) is Some implies u2 == -1 || wl@.contains(
                u2 as usize,
            ) || {
                let jw = self.spec_dir_edge(u2, d2)->0;
                &&& dist@[jw.0] < UNREACHED
                &&& dist@[jw.0] <= dist@[u2] + jw.1
            } by {
                assert(u2 == s as int);
                assert(wl@.contains(u2 as usize));
            }
        }
        while wl.len() > 0
            invariant
                self.wf(),
                self.spec_has_node(start),
                s == self.idx(start),
                (s as int) < dist@.len(),
                search_inv(*self, dist@, parent@, s as int),
                closure_except(*self, dist@, wl@, -1),
                wl_ok(dist@, wl@),
            decreases sum_seq(dist@), wl@.len(),
        {
            let ghost dist0 = dist@;
            let ghost wl0 = wl@;
            let k = self.pick_best(&wl, &dist, &goal);
            let u = wl[k];
            wl.swap_remove(k);
            proof {
                assert(wl0[k as int] == u);
                assert((u as int) < dist@.len() && dist@[u as int] < UNREACHED);
                assert forall|u2: int, d2: int|
                    0 <= u2 < dist@.len() && 0 <= d2 < 4 && dist@[u2] < UNREACHED && (
                    #[trigger] self.spec_dir_edge(u2, d2)) is Some implies u2 == u as int
                    || wl@.contains(u2 as usize) || {
                    let jw = self.spec_dir_edge(u2, d2)->0;
                    &&& dist@[jw.0] < UNREACHED
                    &&& dist@[jw.0] <= dist@[u2] + jw.1
                } by {
                    if u2 != u as int && wl0.contains(u2 as usize) {
                        lemma_wl_swap_remove_contains(wl0, k as int, u2 as usize);
                    }
                }
                assert forall|k2: int| 0 <= k2 < wl@.len() implies ((#[trigger] wl@[k2]) as int)
                    < dist@.len() && dist@[wl@[k2] as int] < UNREACHED by {
                    assert(wl@[k2] == wl0.update(k as int, wl0.last()).drop_last()[k2]);
                }
            }
            self.relax(&mut dist, &mut parent, &mut wl, u, 0, Ghost(s as int));
            let ghost sd0 = dist@;
            self.relax(&mut dist, &mut parent, &mut wl, u, 1, Ghost(s as int));
            let ghost sd1 = dist@;
            self.relax(&mut dist, &mut parent, &mut wl, u, 2, Ghost(s as int));
            let ghost sd2 = dist@;
            self.relax(&mut dist, &mut parent, &mut wl, u, 3, Ghost(s as int));
            proof {
                // all four directions of `u` are now relaxed, so the
                // exemption can be dropped again
                assert forall|u2: int, d2: int|
                    0 <= u2 < dist@.len() && 0 <= d2 < 4 && dist@[u2] < UNREACHED && (
                    #[trigger] self.spec_dir_edge(u2, d2)) is Some implies u2 == -1 || wl@.contains(
                    u2 as usize,
                ) || {
                    let jw = self.spec_dir_edge(u2, d2)->0;
                    &&& dist@[jw.0] < UNREACHED
                    &&& dist@[jw.0] <= dist@[u2] + jw.1
                } by {
                    if u2 == u as int {
                        self.lemma_dir_edge_props(u2, d2);
                        let jw = self.spec_dir_edge(u2, d2)->0;
                        if d2 == 0 {
                            assert(sd0[jw.0] < UNREACHED && sd0[jw.0] <= sd0[u as int] + jw.1);
                            assert(dist@[jw.0] <= sd2[jw.0] <= sd1[jw.0] <= sd0[jw.0]);
                        } else if d2 == 1 {
                            assert(sd1[jw.0] < UNREACHED && sd1[jw.0] <= sd1[u as int] + jw.1);
                            assert(dist@[jw.0] <= sd2[jw.0] <= sd1[jw.0]);
                        } else if d2 == 2 {
                            assert(sd2[jw.0] < UNREACHED && sd2[jw.0] <= sd2[u as int] + jw.1);
                            assert(dist@[jw.0] <= sd2[jw.0]);
                        } else {
                            assert(dist@[jw.0] < UNREACHED && dist@[jw.0] <= dist@[u as int]
                                + jw.1);
                        }
                        assert(dist@[u as int] == sd2[u as int] && sd2[u as int] == sd1[u as int]
                            && sd1[u as int] == sd0[u as int]);
                    }
                }
            }
        }
        proof {
            assert(wl@ =~= Seq::<usize>::empty());
        }
        match self.node_index(&goal) {
            Some(t) => {
                let dt = dist[t];
                if dt < UNREACHED {
                    let path = self.reconstruct(&dist, &parent, s, t);
                    proof {
                        self.lemma_node_pos(goal);
                        assert(self.nodes@[s as int].pos == start);
                        assert(self.nodes@[t as int].pos == goal);
                        assert forall|q: Seq<SideIPos>|
                            is_path(*self, q, start, goal) implies path_cost(*self, q) >= dt by {
                            lemma_closure_bounds_path(*self, dist@, s as int, start, q, goal);
                        }
                        assert(path_cost(*self, path@) >= dt);
                    }
                    Some((dt, path))
                } else {
                    proof {
                        assert forall|q: Seq<SideIPos>| !is_path(*self, q, start, goal) by {
                            if is_path(*self, q, start, goal) {
                                lemma_closure_bounds_path(
                                    *self,
                                    dist@,
                                    s as int,
                                    start,
                                    q,
                                    goal,
                                );
                                self.lemma_node_pos(goal);
                            }
                        }
                    }
                    None
                }
            },
            None => {
                proof {
                    assert forall|q: Seq<SideIPos>| !is_path(*self, q, start, goal) by {
                        if is_path(*self, q, start, goal) {
                            if q.len() == 1 {
                                assert(goal == start);
                            } else {
                                lemma_path_prefix(*self, q, start, goal);
                                self.lemma_edge_nodes(q[q.len() - 2], goal);
                            }
                        }
                    }
                }
                None
            },
        }
    }
}

/// The navigation state of one agent: no intent, a requested goal not yet
/// routed, an active route, or a finished attempt (reached or unreachable).
#[derive(Debug)]
pub enum Path {
    /// No navigation intent.
    Idle,
    /// A goal was requested; the route has not been computed yet.
    NeedsPath(SideIPos),
    /// A route is being walked.
    Progress(PathProgress),
    /// The goal was reached.
    Completed(SideIPos),
    /// No route to the goal exists.
    Failed(SideIPos),
}

/// The not-yet-visited waypoints of an active route, first waypoint first
/// and the goal last.
#[derive(Debug)]
pub struct PathProgress {
    pub remaining_steps: Vec<SideIPos>,
}

impl Path {
    /// Requests a route to `target`, discarding any current route.
    pub fn set_target(&mut self, target: SideIPos)
        ensures
            *final(self) == Path::NeedsPath(target),
    {
        *self = Path::NeedsPath(target);
    }

    /// Cancels any navigation intent.
    pub fn cancel(&mut self)
        ensures
            *final(self) == Path::Idle,
    {
        *self = Path::Idle;
    }

    /// True while a route is requested or being walked.
    pub fn is_progressing(&self) -> (r: bool)
        ensures
            r == (*self matches Path::Progress(_) || *self matches Path::NeedsPath(_)),
    {
        match self {
            Path::Progress(_) => true,
            Path::NeedsPath(_) => true,
            _ => false,
        }
    }

    /// True once the goal has been reached.
    pub fn did_complete(&self) -> (r: bool)
        ensures
            r == (*self matches Path::Completed(_)),
    {
        match self {
            Path::Completed(_) => true,
            _ => false,
        }
    }

    /// The reached goal, if the route completed.
    pub fn get_completed_position(&self) -> (r: Option<SideIPos>)
        ensures
            match *self {
                Path::Completed(pos) => r == Some(pos),
                _ => r is None,
            },
    {
        match self {
            Path::Completed(pos) => Some(*pos),
            _ => None,
        }
    }

    /// True once routing has failed.
    pub fn did_fail(&self) -> (r: bool)
        ensures
            r == (*self matches Path::Failed(_)),
    {
        match self {
            Path::Failed(_) => true,
            _ => false,
        }
    }

    /// The unreachable goal, if routing failed.
    pub fn get_failed_target(&self) -> (r: Option<SideIPos>)
        ensures
            match *self {
                Path::Failed(pos) => r == Some(pos),
                _ => r is None,
            },
    {
        match self {
            Path::Failed(pos) => Some(*pos),
            _ => None,
        }
    }
}

/// The routing pass for one agent standing at `current`.
///
/// Only a `NeedsPath` state is acted on: a request for the cell the agent
/// already stands in completes immediately, without a search; otherwise a
/// cheapest route is computed, and the state becomes `Progress` carrying its
/// waypoints (goal last), or `Failed` exactly when no route exists. An agent
/// standing on an address the graph does not know is skipped softly.
#[verifier::rlimit(100)]
pub fn needs_path(graph: &SideMapGraph, current: SideIPos, path: &mut Path)
    requires
        graph.wf(),
    ensures
        match *old(path) {
            Path::NeedsPath(goal) => {
                &&& current == goal ==> *final(path) == Path::Completed(goal)
                &&& current != goal && !graph.spec_has_node(current) ==> *final(path) == *old(
                    path,
                )
                &&& current != goal && graph.spec_has_node(current) ==> (match *final(path) {
                    Path::Progress(pr) => {
                        &&& is_path(*graph, pr.remaining_steps@, current, goal)
                        &&& forall|q: Seq<SideIPos>|
                            is_path(*graph, q, current, goal) ==> path_cost(*graph, q)
                                >= path_cost(*graph, pr.remaining_steps@)
                        &&& forall|i: int|
                            0 <= i < pr.remaining_steps@.len() ==> (
                            #[trigger] pr.remaining_steps@[i]).in_bounds()
                    },
                    Path::Failed(target) => target == goal && (forall|q: Seq<SideIPos>|
                        !is_path(*graph, q, current, goal)),
                    _ => false,
                })
            },
            _ => *final(path) == *old(path),
        },
{
    let goal = match &*path {
        Path::NeedsPath(goal) => *goal,
        _ => {
            return ;
        },
    };
    if current == goal {
        *path = Path::Completed(goal);
        return ;
    }
    if !graph.has_node(&current) {
        return ;
    }
    match graph.astar(current, goal) {
        Some((_cost, found_path)) => {
            *path = Path::Progress(PathProgress { remaining_steps: found_path });
        },
        None => {
            *path = Path::Failed(goal);
        },
    }
}

} // verus!
