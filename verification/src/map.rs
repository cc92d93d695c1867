//! Destructible terrain cells and the cell store of the side-view world.
//!
//! A cell is either diggable dirt with a remaining amount, empty space, or
//! permanently impassable rock. The traversal cost of a passable cell is
//! always at least one; rock has no cost at all. This cost function is the
//! single source of truth used both when the terrain graph is built and when
//! it is incrementally updated.

use vstd::prelude::*;
use vstd::string::StringExecFns;
use std::collections::HashMap;
use crate::positions::{SideIPos, spec_addr_key, addr_key, lemma_addr_key_injective};
use crate::pathfinding::{SideMapGraph, VisitedNodeEvent, spec_expected_edge, graph_matches_cells, is_path, path_cost};

verus! {

broadcast use vstd::std_specs::hash::group_hash_axioms;

/// The terrain content of one cell.
#[derive(Clone, Copy, PartialEq, Eq, Debug, Structural)]
pub enum CellType {
    /// Diggable dirt; the payload is the amount of dirt left. An amount of
    /// zero still counts as one last bit of dirt to clear.
    Dirt(u8),
    /// Free space.
    Empty,
    /// Permanently impassable.
    Rock,
}

/// One cell of the world: its terrain content plus an `underground` flag
/// (used by generation and rendering, never by pathfinding).
#[derive(Clone, Copy, PartialEq, Eq, Debug, Structural)]
pub struct CellContent {
    pub underground: bool,
    pub cell_type: CellType,
}

impl CellContent {
    /// The terrain content of this cell.
    pub open spec fn spec_cell_type(self) -> CellType {
        self.cell_type
    }

    /// Whether the cell lies underground.
    pub open spec fn spec_underground(self) -> bool {
        self.underground
    }

    /// Traversal cost: `Empty` costs 1, `Dirt(a)` costs `a + 1`, and rock is
    /// impassable (no cost). A passable cell always costs at least 1; a
    /// zero-cost cell would break the search.
    pub open spec fn spec_weight(self) -> Option<u16> {
        match self.cell_type {
            CellType::Empty => Some(1u16),
            CellType::Rock => None,
            CellType::Dirt(a) => Some((a as int + 1) as u16),
        }
    }

    /// True when the cell can be walked through.
    pub open spec fn spec_passable(self) -> bool {
        self.spec_weight() is Some
    }

    /// What digging `amount` out of this cell leaves behind: dirt shrinks by
    /// saturating subtraction and becomes empty when nothing is left, while
    /// empty and rock cells are untouched.
    pub open spec fn spec_dig(self, amount: u8) -> CellContent {
        match self.cell_type {
            CellType::Dirt(n) => if n - amount > 0 {
                CellContent { underground: self.underground, cell_type: CellType::Dirt((n - amount) as u8) }
            } else {
                CellContent { underground: self.underground, cell_type: CellType::Empty }
            },
            _ => self,
        }
    }

    pub fn empty_air() -> (r: Self)
        ensures
            r.spec_cell_type() == CellType::Empty,
            !r.spec_underground(),
    {
        Self { underground: false, cell_type: CellType::Empty }
    }

    pub fn empty_underground() -> (r: Self)
        ensures
            r.spec_cell_type() == CellType::Empty,
            r.spec_underground(),
    {
        Self { underground: true, cell_type: CellType::Empty }
    }

    /// An underground dirt cell with a uniformly random amount; used only by
    /// world generation. Every outcome is underground dirt.
    pub fn random_dirt() -> (r: Self)
        ensures
            r.spec_cell_type() is Dirt,
            r.spec_underground(),
    {
        Self { underground: true, cell_type: CellType::Dirt(rand::random::<u8>()) }
    }

    pub fn dirt(amount: u8) -> (r: Self)
        ensures
            r.spec_cell_type() == CellType::Dirt(amount),
            r.spec_underground(),
    {
        Self { underground: true, cell_type: CellType::Dirt(amount) }
    }

    pub fn rock(underground: bool) -> (r: Self)
        ensures
            r.spec_cell_type() == CellType::Rock,
            r.spec_underground() == underground,
    {
        Self { underground, cell_type: CellType::Rock }
    }

    /// Erode this cell by `amount`: dirt loses that much (saturating) and
    /// turns empty once nothing is left; empty and rock cells are no-ops.
    pub fn dig(&mut self, amount: u8)
        ensures
            *final(self) == old(self).spec_dig(amount),
            final(self).spec_underground() == old(self).spec_underground(),
    {
        if let CellType::Dirt(current) = self.cell_type {
            let left = if current >= amount { current - amount } else { 0 };
            if left > 0 {
                self.cell_type = CellType::Dirt(left);
            } else {
                self.cell_type = CellType::Empty;
            }
        }
    }

    pub fn is_empty(&self) -> (r: bool)
        ensures
            r == (self.spec_cell_type() is Empty),
    {
        matches!(self.cell_type, CellType::Empty)
    }

    pub fn is_rock(&self) -> (r: bool)
        ensures
            r == (self.spec_cell_type() is Rock),
    {
        matches!(self.cell_type, CellType::Rock)
    }

    /// The amount of dirt left, zero for anything but dirt.
    pub fn amount_left(&self) -> (r: u8)
        ensures
            r == (match self.spec_cell_type() {
                CellType::Dirt(a) => a,
                _ => 0u8,
            }),
    {
        if let CellType::Dirt(amount) = self.cell_type {
            amount
        } else {
            0
        }
    }

    /// Traversal cost of the cell, `None` for impassable rock.
    pub fn weight(&self) -> (r: Option<u16>)
        ensures
            r == self.spec_weight(),
            r is Some ==> r->0 >= 1,
    {
        match self.cell_type {
            CellType::Empty => Some(1),
            CellType::Rock => None,
            CellType::Dirt(a) => Some(a as u16 + 1),
        }
    }

    /// The tile image to draw for this cell, `None` for empty space.
    pub fn texture_path(&self) -> (r: Option<String>)
        ensures
            self.spec_cell_type() is Empty <==> r is None,
            self.spec_cell_type() is Rock ==> r is Some && r->0@ == "cell/rock.png"@,
            (match self.spec_cell_type() {
                CellType::Dirt(a) => a > 127,
                _ => false,
            }) ==> r is Some && r->0@ == "cell/full.png"@,
            (match self.spec_cell_type() {
                CellType::Dirt(a) => a <= 127,
                _ => false,
            }) ==> r is Some && r->0@ == "cell/half.png"@,
    {
        match self.cell_type {
            CellType::Empty => None,
            CellType::Rock => Some(String::from_str("cell/rock.png")),
            CellType::Dirt(a) => if a > 127 {
                Some(String::from_str("cell/full.png"))
            } else {
                Some(String::from_str("cell/half.png"))
            },
        }
    }
}

/// The cell store of the side-view world: one `CellContent` per address.
///
/// Its view is the mathematical map from addresses to cells.
pub struct SideMapCells {
    cells: HashMap<u64, CellContent>,
}

impl View for SideMapCells {
    type V = Map<SideIPos, CellContent>;

    closed spec fn view(&self) -> Map<SideIPos, CellContent> {
        Map::new(
            |p: SideIPos| self.cells@.contains_key(spec_addr_key(p)),
            |p: SideIPos| self.cells@[spec_addr_key(p)],
        )
    }
}

impl SideMapCells {
    pub fn new() -> (r: Self)
        ensures
            r@ == Map::<SideIPos, CellContent>::empty(),
    {
        let r = SideMapCells { cells: HashMap::new() };
        proof {
            assert(r@ =~= Map::<SideIPos, CellContent>::empty());
        }
        r
    }

    /// Stores `cell` at address `p`, replacing whatever was there.
    pub fn insert(&mut self, p: SideIPos, cell: CellContent)
        ensures
            final(self)@ == old(self)@.insert(p, cell),
    {
        let k = addr_key(&p);
        self.cells.insert(k, cell);
        proof {
            assert forall|q: SideIPos| #[trigger] self@.contains_key(q)
                <==> old(self)@.insert(p, cell).contains_key(q) by {
                if spec_addr_key(q) == spec_addr_key(p) {
                    lemma_addr_key_injective(q, p);
                }
            }
            assert forall|q: SideIPos| self@.contains_key(q)
                implies #[trigger] self@[q] == old(self)@.insert(p, cell)[q] by {
                if spec_addr_key(q) == spec_addr_key(p) {
                    lemma_addr_key_injective(q, p);
                }
            }
            assert(self@ =~= old(self)@.insert(p, cell));
        }
    }

    /// True when some cell is stored at `p`.
    pub fn contains(&self, p: &SideIPos) -> (r: bool)
        ensures
            r == self@.contains_key(*p),
    {
        let k = addr_key(p);
        self.cells.contains_key(&k)
    }

    /// The cell stored at `p`, if any.
    pub fn get(&self, p: &SideIPos) -> (r: Option<&CellContent>)
        ensures
            match r {
                Some(c) => self@.contains_key(*p) && *c == self@[*p],
                None => !self@.contains_key(*p),
            },
    {
        let k = addr_key(p);
        self.cells.get(&k)
    }

    /// Erodes the cell at `p` by `amount`; does nothing when no cell is
    /// stored there. Returns whether a cell was found.
    pub fn dig_at(&mut self, p: &SideIPos, amount: u8) -> (found: bool)
        ensures
            found == old(self)@.contains_key(*p),
            found ==> final(self)@ == old(self)@.insert(*p, old(self)@[*p].spec_dig(amount)),
            !found ==> final(self)@ == old(self)@,
    {
        let k = addr_key(p);
        let cell = self.cells.get(&k);
        match cell {
            Some(c) => {
                let mut c2 = *c;
                c2.dig(amount);
                self.cells.insert(k, c2);
                proof {
                    let target = old(self)@.insert(*p, old(self)@[*p].spec_dig(amount));
                    assert forall|q: SideIPos| #[trigger] self@.contains_key(q)
                        <==> target.contains_key(q) by {
                        if spec_addr_key(q) == spec_addr_key(*p) {
                            lemma_addr_key_injective(q, *p);
                        }
                    }
                    assert forall|q: SideIPos| self@.contains_key(q)
                        implies #[trigger] self@[q] == target[q] by {
                        if spec_addr_key(q) == spec_addr_key(*p) {
                            lemma_addr_key_injective(q, *p);
                        }
                    }
                    assert(self@ =~= target);
                }
                true
            },
            None => {
                proof {
                    assert(self@ =~= old(self)@);
                }
                false
            },
        }
    }
}

/// The fixed amount of dirt one agent visit erodes from a cell.
pub const DIG_PER_VISIT: u8 = 10;

/// Notice that the cell at an address has changed, so its tile rendering and
/// the incident graph edges must be refreshed.
#[derive(Clone, Copy, PartialEq, Eq, Debug, Structural)]
pub struct UpdateTileDirtAmountEvent(pub SideIPos);

/// The cell map after every listed visitation has eroded its cell by
/// `amount`, in order; visits to addresses without a cell change nothing.
pub open spec fn spec_dig_all(
    cells: Map<SideIPos, CellContent>,
    events: Seq<VisitedNodeEvent>,
    amount: u8,
) -> Map<SideIPos, CellContent>
    decreases events.len(),
{
    if events.len() == 0 {
        cells
    } else {
        let rest = spec_dig_all(cells, events.drop_last(), amount);
        let p = events.last().position;
        if rest.contains_key(p) {
            rest.insert(p, rest[p].spec_dig(amount))
        } else {
            rest
        }
    }
}

/// True when some update in the list names address `p`.
pub open spec fn has_update(updates: Seq<UpdateTileDirtAmountEvent>, p: SideIPos) -> bool {
    exists|j: int| 0 <= j < updates.len() && updates[j].0 == p
}

/// The change notifications the erosion pass owes for a list of visitation
/// events: one per event whose address holds a cell, in event order.
pub open spec fn spec_found_updates(
    cells: Map<SideIPos, CellContent>,
    events: Seq<VisitedNodeEvent>,
) -> Seq<UpdateTileDirtAmountEvent>
    decreases events.len(),
{
    if events.len() == 0 {
        Seq::empty()
    } else {
        let rest = spec_found_updates(cells, events.drop_last());
        if cells.contains_key(events.last().position) {
            rest.push(UpdateTileDirtAmountEvent(events.last().position))
        } else {
            rest
        }
    }
}

/// An update for `p` is in a prefix one longer exactly when it is in the
/// shorter prefix or `p` is the newly included address.
proof fn lemma_has_update_take_succ(s: Seq<UpdateTileDirtAmountEvent>, i: int, p: SideIPos)
    requires
        0 <= i < s.len(),
    ensures
        has_update(s.take(i + 1), p) <==> (has_update(s.take(i), p) || p == s[i].0),
{
    let t1 = s.take(i + 1);
    let t0 = s.take(i);
    if has_update(t1, p) {
        let k = choose|k: int| 0 <= k < t1.len() && t1[k].0 == p;
        if k < i {
            assert(t0[k].0 == p);
        }
    }
    if has_update(t0, p) {
        let k = choose|k: int| 0 <= k < t0.len() && t0[k].0 == p;
        assert(t1[k].0 == p);
    }
    if p == s[i].0 {
        assert(t1[i].0 == p);
    }
}

/// The erosion pass of the terrain mutator: every visitation event erodes
/// the visited cell by `DIG_PER_VISIT`, and each visit that found a cell is
/// reported — exactly one notification per such visit, in event order — so
/// the graph (and the tile imagery) can be refreshed. Visits to addresses
/// without a cell are skipped. Erosion never adds or removes a cell, and
/// never changes whether a cell is passable.
#[verifier::rlimit(100)]
pub fn passive_dig_when_visiting_a_cell(
    cells: &mut SideMapCells,
    events: &Vec<VisitedNodeEvent>,
) -> (updates: Vec<UpdateTileDirtAmountEvent>)
    ensures
        final(cells)@ == spec_dig_all(old(cells)@, events@, DIG_PER_VISIT),
        updates@ == spec_found_updates(old(cells)@, events@),
        forall|p: SideIPos| #[trigger]
            final(cells)@.contains_key(p) == old(cells)@.contains_key(p),
        forall|p: SideIPos| #[trigger] final(cells)@.contains_key(p)
            ==> (final(cells)@[p].spec_weight() is Some <==> old(cells)@[p].spec_weight() is Some),
        forall|p: SideIPos|
            !has_update(updates@, p) && old(cells)@.contains_key(p)
                ==> #[trigger] final(cells)@[p] == old(cells)@[p],
        forall|j: int| 0 <= j < updates@.len() ==> old(cells)@.contains_key(
            (#[trigger] updates@[j]).0,
        ),
{
    let mut updates: Vec<UpdateTileDirtAmountEvent> = Vec::new();
    let n = events.len();
    let mut i: usize = 0;
    while i < n
        invariant
            n == events@.len(),
            i <= n,
            cells@ == spec_dig_all(old(cells)@, events@.take(i as int), DIG_PER_VISIT),
            updates@ == spec_found_updates(old(cells)@, events@.take(i as int)),
            forall|p: SideIPos| #[trigger]
                cells@.contains_key(p) == old(cells)@.contains_key(p),
            forall|p: SideIPos| #[trigger] cells@.contains_key(p)
                ==> (cells@[p].spec_weight() is Some <==> old(cells)@[p].spec_weight() is Some),
            forall|p: SideIPos|
                !has_update(updates@, p) && old(cells)@.contains_key(p)
                    ==> #[trigger] cells@[p] == old(cells)@[p],
            forall|j: int| 0 <= j < updates@.len() ==> old(cells)@.contains_key(
                (#[trigger] updates@[j]).0,
            ),
        decreases n - i,
    {
        let e = events[i];
        let ghost pre = cells@;
        let ghost pre_updates = updates@;
        let found = cells.dig_at(&e.position, DIG_PER_VISIT);
        if found {
            updates.push(UpdateTileDirtAmountEvent(e.position));
        }
        proof {
            assert(events@.take(i as int + 1).drop_last() =~= events@.take(i as int));
            assert(events@.take(i as int + 1).last() == events@[i as int]);
            assert(cells@ =~= spec_dig_all(old(cells)@, events@.take(i as int + 1), DIG_PER_VISIT));
            assert(found == old(cells)@.contains_key(e.position));
            assert(updates@ == spec_found_updates(old(cells)@, events@.take(i as int + 1)));
            if found {
                assert(has_update(updates@, e.position)) by {
                    assert(updates@[pre_updates.len() as int].0 == e.position);
                }
            }
            assert forall|p: SideIPos|
                !has_update(updates@, p) && old(cells)@.contains_key(p)
                    implies #[trigger] cells@[p] == old(cells)@[p] by {
                if has_update(pre_updates, p) {
                    let k = choose|k: int| 0 <= k < pre_updates.len() && pre_updates[k].0 == p;
                    assert(updates@[k].0 == p);
                }
            }
        }
        i = i + 1;
    }
    proof {
        assert(events@.take(n as int) =~= events@);
    }
    updates
}

/// The graph-repair pass of the terrain mutator: for every reported address,
/// the incident edges are re-derived from the current cells (reweighted, or
/// removed where an endpoint became impassable); edges not incident to any
/// reported address keep their weight.
#[verifier::rlimit(100)]
pub fn detect_cell_content_changes_and_update_graph(
    graph: &mut SideMapGraph,
    cells: &SideMapCells,
    updates: &Vec<UpdateTileDirtAmountEvent>,
)
    requires
        old(graph).wf(),
    ensures
        final(graph).wf(),
        final(graph).spec_node_count() == old(graph).spec_node_count(),
        forall|r: SideIPos| #[trigger]
            final(graph).spec_has_node(r) == old(graph).spec_has_node(r),
        forall|a: SideIPos, b: SideIPos|
            has_update(updates@, a) || has_update(updates@, b)
                ==> #[trigger] final(graph).spec_edge_weight(a, b)
                    == old(graph).spec_refreshed_edge(cells@, a, b),
        forall|a: SideIPos, b: SideIPos|
            !has_update(updates@, a) && !has_update(updates@, b)
                ==> #[trigger] final(graph).spec_edge_weight(a, b)
                    == old(graph).spec_edge_weight(a, b),
{
    let n = updates.len();
    let mut i: usize = 0;
    while i < n
        invariant
            n == updates@.len(),
            i <= n,
            graph.wf(),
            graph.spec_node_count() == old(graph).spec_node_count(),
            forall|r: SideIPos| #[trigger]
                graph.spec_has_node(r) == old(graph).spec_has_node(r),
            forall|a: SideIPos, b: SideIPos|
                has_update(updates@.take(i as int), a) || has_update(updates@.take(i as int), b)
                    ==> #[trigger] graph.spec_edge_weight(a, b)
                        == old(graph).spec_refreshed_edge(cells@, a, b),
            forall|a: SideIPos, b: SideIPos|
                !has_update(updates@.take(i as int), a) && !has_update(updates@.take(i as int), b)
                    ==> #[trigger] graph.spec_edge_weight(a, b)
                        == old(graph).spec_edge_weight(a, b),
        decreases n - i,
    {
        let p = updates[i].0;
        let ghost pre = *graph;
        graph.update_edges_at(cells, p);
        proof {
            let done = updates@.take(i as int);
            let done1 = updates@.take(i as int + 1);
            assert forall|a: SideIPos, b: SideIPos|
                has_update(done1, a) || has_update(done1, b) implies #[trigger]
                graph.spec_edge_weight(a, b) == old(graph).spec_refreshed_edge(
                cells@,
                a,
                b,
            ) by {
                lemma_has_update_take_succ(updates@, i as int, a);
                lemma_has_update_take_succ(updates@, i as int, b);
                if a == p || b == p {
                    assert(pre.spec_refreshed_edge(cells@, a, b) == old(
                        graph,
                    ).spec_refreshed_edge(cells@, a, b)) by {
                        if has_update(done, a) || has_update(done, b) {
                        }
                    }
                } else {
                    assert(graph.spec_edge_weight(a, b) == pre.spec_edge_weight(a, b));
                }
            }
            assert forall|a: SideIPos, b: SideIPos|
                !has_update(done1, a) && !has_update(done1, b) implies #[trigger]
                graph.spec_edge_weight(a, b) == old(graph).spec_edge_weight(a, b) by {
                lemma_has_update_take_succ(updates@, i as int, a);
                lemma_has_update_take_succ(updates@, i as int, b);
            }
        }
        i = i + 1;
    }
    proof {
        assert(updates@.take(n as int) =~= updates@);
    }
}

/// The whole terrain-mutator tick (erosion, then graph repair, connected by
/// the update queue): it consumes the visitation events of one movement
/// pass and leaves the graph matching the eroded cells again.
#[verifier::rlimit(100)]
pub fn apply_visitation_events(
    graph: &mut SideMapGraph,
    cells: &mut SideMapCells,
    events: &Vec<VisitedNodeEvent>,
)
    requires
        old(graph).wf(),
        graph_matches_cells(*old(graph), old(cells)@),
    ensures
        final(graph).wf(),
        final(graph).spec_node_count() == old(graph).spec_node_count(),
        final(cells)@ == spec_dig_all(old(cells)@, events@, DIG_PER_VISIT),
        graph_matches_cells(*final(graph), final(cells)@),
{
    let updates = passive_dig_when_visiting_a_cell(cells, events);
    let ghost mid_graph = *graph;
    detect_cell_content_changes_and_update_graph(graph, cells, &updates);
    proof {
        assert forall|p: SideIPos| #[trigger]
            graph.spec_has_node(p) <==> cells@.contains_key(p) by {}
        assert forall|a: SideIPos, b: SideIPos| #[trigger]
            graph.spec_edge_weight(a, b) == spec_expected_edge(cells@, a, b) by {
            let old_e = old(graph).spec_edge_weight(a, b);
            assert(old_e == spec_expected_edge(old(cells)@, a, b));
            // erosion keeps presence and passability, so whether an edge is
            // called for does not change, only its weight can
            assert(cells@.contains_key(a) == old(cells)@.contains_key(a));
            assert(cells@.contains_key(b) == old(cells)@.contains_key(b));
            if cells@.contains_key(a) {
                assert(cells@[a].spec_weight() is Some <==> old(cells)@[a].spec_weight() is Some);
            }
            if cells@.contains_key(b) {
                assert(cells@[b].spec_weight() is Some <==> old(cells)@[b].spec_weight() is Some);
            }
            assert(spec_expected_edge(cells@, a, b) is Some <==> spec_expected_edge(
                old(cells)@,
                a,
                b,
            ) is Some);
            if !has_update(updates@, a) && !has_update(updates@, b) {
                assert(spec_expected_edge(cells@, a, b) == spec_expected_edge(
                    old(cells)@,
                    a,
                    b,
                ));
            }
        }
    }
}

/// Eroding a cell never changes whether it can be walked, never raises its
/// traversal cost, and strictly lowers the cost of a dirt cell that still
/// has dirt in it.
pub proof fn lemma_dig_lowers_cost(c: CellContent, amount: u8)
    ensures
        c.spec_dig(amount).spec_weight() is Some <==> c.spec_weight() is Some,
        c.spec_weight() is Some ==> c.spec_dig(amount).spec_weight()->0 <= c.spec_weight()->0,
        (match c.spec_cell_type() {
            CellType::Dirt(n) => n >= 1 && amount >= 1,
            _ => false,
        }) ==> c.spec_dig(amount).spec_weight()->0 < c.spec_weight()->0,
{
}

/// Erosion of any sequence of visits keeps every stored cell stored, keeps
/// its passability, and never raises its traversal cost.
pub proof fn lemma_dig_all_pointwise(
    cells: Map<SideIPos, CellContent>,
    events: Seq<VisitedNodeEvent>,
    amount: u8,
)
    ensures
        forall|p: SideIPos| #[trigger]
            spec_dig_all(cells, events, amount).contains_key(p) == cells.contains_key(p),
        forall|p: SideIPos| #[trigger] cells.contains_key(p) ==> {
            let c1 = spec_dig_all(cells, events, amount)[p];
            &&& (c1.spec_weight() is Some <==> cells[p].spec_weight() is Some)
            &&& (cells[p].spec_weight() is Some ==> c1.spec_weight()->0
                <= cells[p].spec_weight()->0)
        },
    decreases events.len(),
{
    if events.len() > 0 {
        lemma_dig_all_pointwise(cells, events.drop_last(), amount);
        let rest = spec_dig_all(cells, events.drop_last(), amount);
        let q = events.last().position;
        if rest.contains_key(q) {
            lemma_dig_lowers_cost(rest[q], amount);
        }
    }
}

/// Repeated traversal only helps later traffic: every route that existed
/// before a terrain-mutation pass still exists afterwards, at a total cost
/// that has not increased. Together with the optimality of the route search
/// this means a route computed after the erosion never costs more than the
/// one computed before it.
pub proof fn lemma_erosion_path_cost_monotone(
    g0: SideMapGraph,
    g1: SideMapGraph,
    cells: Map<SideIPos, CellContent>,
    events: Seq<VisitedNodeEvent>,
    amount: u8,
    p: Seq<SideIPos>,
    start: SideIPos,
    goal: SideIPos,
)
    requires
        graph_matches_cells(g0, cells),
        graph_matches_cells(g1, spec_dig_all(cells, events, amount)),
        is_path(g0, p, start, goal),
    ensures
        is_path(g1, p, start, goal),
        path_cost(g1, p) <= path_cost(g0, p),
    decreases p.len(),
{
    lemma_dig_all_pointwise(cells, events, amount);
    let cells1 = spec_dig_all(cells, events, amount);
    assert forall|i: int| 0 <= i < p.len() - 1 implies g1.spec_edge_weight(
        p[i],
        #[trigger] p[i + 1],
    ) is Some && g1.spec_edge_weight(p[i], p[i + 1])->0 <= g0.spec_edge_weight(p[i], p[i + 1])->0
        by {
        assert(g0.spec_edge_weight(p[i], p[i + 1]) == spec_expected_edge(cells, p[i], p[i + 1]));
        assert(g1.spec_edge_weight(p[i], p[i + 1]) == spec_expected_edge(cells1, p[i], p[i + 1]));
    }
    if p.len() >= 2 {
        let q = p.drop_last();
        assert forall|i: int| 0 <= i < q.len() - 1 implies g0.spec_edge_weight(
            q[i],
            #[trigger] q[i + 1],
        ) is Some by {
            assert(q[i] == p[i] && q[i + 1] == p[i + 1]);
            assert(g0.spec_edge_weight(p[i], p[i + 1]) is Some);
        }
        lemma_erosion_path_cost_monotone(g0, g1, cells, events, amount, q, start, p[p.len() - 2]);
        assert(g1.spec_edge_weight(p[p.len() - 2], p[p.len() - 2 + 1]) is Some);
    }
}

} // verus!
