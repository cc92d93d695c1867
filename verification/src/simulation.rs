//! The per-tick driver over the whole agent set.
//!
//! Ordering is load-bearing: first the routing pass answers every pending
//! route request, then the movement pass advances every agent and collects
//! its visitation events, and only then the terrain-mutation pass erodes the
//! visited cells and repairs the graph. All events of a tick are drained
//! within that same tick, so the graph matches the cells again before the
//! next tick begins.

use vstd::prelude::*;
use crate::positions::{SideIPos, SidePosition};
use crate::map::{SideMapCells, apply_visitation_events, spec_dig_all, DIG_PER_VISIT};
use crate::pathfinding::{
    SideMapGraph, Path, VisitedNodeEvent, graph_matches_cells, needs_path, is_path, path_cost,
};
use crate::movement::{Speed, move_along_path, move_outcome, route_l1};

verus! {

/// One crawling agent: its continuous position, its walking speed, and its
/// navigation state.
pub struct Agent {
    pub position: SidePosition,
    pub speed: Speed,
    pub path: Path,
}

impl Agent {
    /// An agent is well formed while its position is in bounds and any route
    /// it walks holds only in-bounds waypoints.
    pub open spec fn wf(self) -> bool {
        &&& self.position.in_bounds()
        &&& match self.path {
            Path::Progress(pr) => forall|i: int|
                0 <= i < pr.remaining_steps@.len() ==> (
                #[trigger] pr.remaining_steps@[i]).in_bounds(),
            _ => true,
        }
    }

    /// A fresh agent at `position` with no navigation intent.
    pub fn new(position: SidePosition, speed: Speed) -> (r: Agent)
        requires
            position.in_bounds(),
        ensures
            r.wf(),
            r.position == position,
            r.speed == speed,
            r.path == Path::Idle,
    {
        Agent { position, speed, path: Path::Idle }
    }
}

/// The distance budget one tick owes an agent: its speed times the elapsed
/// milliseconds, saturating instead of overflowing.
pub open spec fn spec_tick_budget(speed: Speed, delta_ms: u64) -> int {
    if speed.0 * delta_ms / 1000 > u64::MAX {
        u64::MAX as int
    } else {
        speed.0 * delta_ms / 1000
    }
}

/// All the ticks' per-agent event segments, joined in agent order.
pub open spec fn concat_events(segs: Seq<Seq<VisitedNodeEvent>>) -> Seq<VisitedNodeEvent>
    decreases segs.len(),
{
    if segs.len() == 0 {
        Seq::empty()
    } else {
        concat_events(segs.drop_last()) + segs.last()
    }
}

/// What the routing pass leaves one agent with, against graph `g`: a fresh
/// request is answered exactly as `needs_path` promises — completed on the
/// spot when the agent stands on its goal, a cheapest route when one exists,
/// `Failed` exactly when none does, left pending when the agent's cell is
/// unknown to the graph — and every other state is untouched.
pub open spec fn routed(g: SideMapGraph, a0: Agent, a1: Agent) -> bool {
    &&& a1.position == a0.position
    &&& a1.speed == a0.speed
    &&& match a0.path {
        Path::Idle => a1.path == Path::Idle,
        Path::Completed(p) => a1.path == Path::Completed(p),
        Path::Failed(p) => a1.path == Path::Failed(p),
        Path::Progress(_) => a1.path == a0.path,
        Path::NeedsPath(goal) => {
            let cur = a0.position.spec_to_cell();
            if cur == goal {
                a1.path == Path::Completed(goal)
            } else if !g.spec_has_node(cur) {
                a1.path == a0.path
            } else {
                match a1.path {
                    Path::Progress(pr) => {
                        &&& is_path(g, pr.remaining_steps@, cur, goal)
                        &&& forall|q: Seq<SideIPos>|
                            is_path(g, q, cur, goal) ==> path_cost(g, q) >= path_cost(
                                g,
                                pr.remaining_steps@,
                            )
                        &&& forall|i: int|
                            0 <= i < pr.remaining_steps@.len() ==> (
                            #[trigger] pr.remaining_steps@[i]).in_bounds()
                    },
                    Path::Failed(t) => t == goal && (forall|q: Seq<SideIPos>|
                        !is_path(g, q, cur, goal)),
                    _ => false,
                }
            }
        },
    }
}

/// What the movement pass leaves one agent with: a walking agent advances
/// per `move_outcome` with `evs` as its event segment (an exhausted route
/// turns idle); every other state is untouched and emits nothing.
pub open spec fn moved_agent(
    a1: Agent,
    a2: Agent,
    evs: Seq<VisitedNodeEvent>,
    who: u64,
    budget: int,
) -> bool {
    &&& a2.speed == a1.speed
    &&& match a1.path {
        Path::Progress(pr) => {
            if pr.remaining_steps@.len() == 0 {
                a2.path == Path::Idle && a2.position == a1.position && evs.len() == 0
            } else {
                exists|k: int| #[trigger]
                    move_outcome(
                        pr.remaining_steps@,
                        a1.position,
                        a2.position,
                        a2.path,
                        evs,
                        k,
                        who,
                        budget,
                    )
            }
        },
        _ => a2.path == a1.path && a2.position == a1.position && evs.len() == 0,
    }
}

/// What one full tick guarantees for a single agent `who` with budget
/// `budget`: the routing stage followed by the movement stage, through some
/// intermediate state, with `evs` this agent's segment of the tick's events.
pub open spec fn tick_agent_ok(
    g: SideMapGraph,
    a0: Agent,
    a1: Agent,
    evs: Seq<VisitedNodeEvent>,
    who: u64,
    budget: int,
) -> bool {
    exists|mid: Agent| #[trigger] routed(g, a0, mid) && moved_agent(mid, a1, evs, who, budget)
}

/// What one full tick did: each agent went through routing and movement
/// against the pre-tick graph with its own budget, and the tick's event list
/// is the agents' segments joined in agent order.
pub open spec fn tick_outcome(
    g: SideMapGraph,
    agents0: Seq<Agent>,
    agents1: Seq<Agent>,
    segs: Seq<Seq<VisitedNodeEvent>>,
    events: Seq<VisitedNodeEvent>,
    delta_ms: u64,
) -> bool {
    &&& segs.len() == agents0.len()
    &&& agents1.len() == agents0.len()
    &&& events == concat_events(segs)
    &&& forall|i: int|
        0 <= i < agents0.len() ==> tick_agent_ok(
            g,
            agents0[i],
            agents1[i],
            #[trigger] segs[i],
            i as u64,
            spec_tick_budget(agents0[i].speed, delta_ms),
        )
}

/// One tick always advances a walking agent: whenever the budget covers at
/// least the grid distance to the next waypoint, the movement stage consumes
/// one or more waypoints (each with its visitation event), so the remaining
/// route strictly shrinks until the route completes.
pub proof fn lemma_tick_makes_progress(
    g: SideMapGraph,
    a0: Agent,
    a1: Agent,
    evs: Seq<VisitedNodeEvent>,
    who: u64,
    budget: int,
    steps: Seq<SideIPos>,
)
    requires
        tick_agent_ok(g, a0, a1, evs, who, budget),
        a0.path matches Path::Progress(pr) && pr.remaining_steps@ == steps,
        steps.len() > 0,
        budget >= route_l1(steps, a0.position, 1),
    ensures
        evs.len() >= 1,
        match a1.path {
            Path::Progress(pr1) => pr1.remaining_steps@.len() < steps.len(),
            Path::Completed(end) => end == steps[steps.len() - 1],
            _ => false,
        },
{
    let mid = choose|mid: Agent| #[trigger]
        routed(g, a0, mid) && moved_agent(mid, a1, evs, who, budget);
    match mid.path {
        Path::Progress(pr_mid) => {
            assert(pr_mid.remaining_steps@ == steps);
            let k = choose|k: int| #[trigger]
                move_outcome(steps, mid.position, a1.position, a1.path, evs, k, who, budget);
            if k == 0 {
                assert(budget < route_l1(steps, a0.position, 1));
                assert(false);
            }
            if k < steps.len() {
                match a1.path {
                    Path::Progress(pr1) => {
                        assert(pr1.remaining_steps@ == steps.skip(k));
                    },
                    _ => {
                        assert(false);
                    },
                }
            }
        },
        _ => {
            assert(false);
        },
    }
}

/// The distance budget of one tick, saturating instead of overflowing.
fn tick_budget(speed: Speed, delta_ms: u64) -> (budget: u64)
    ensures
        budget == spec_tick_budget(speed, delta_ms),
{
    proof {
        assert((speed.0 as int) * (delta_ms as int) < 0x1_0000_0000_0000_0000_0000_0000_0000_0000)
            by (nonlinear_arith)
            requires
                0 <= speed.0 < 0x1_0000_0000_0000_0000,
                0 <= delta_ms < 0x1_0000_0000_0000_0000,
        {
        }
    }
    let b = (speed.0 as u128) * (delta_ms as u128) / 1000;
    if b > u64::MAX as u128 {
        u64::MAX
    } else {
        b as u64
    }
}

/// Runs one full simulation tick: routing, movement, then terrain mutation,
/// in that order, draining every visitation event the movement produced.
///
/// The graph keeps matching the (now eroded) cells, every agent stays well
/// formed, and the whole tick satisfies [`tick_outcome`]: each agent went
/// through routing and movement with its own budget, and the returned
/// events are the agents' visitation segments joined in agent order.
#[verifier::rlimit(100)]
pub fn simulation_tick(
    graph: &mut SideMapGraph,
    cells: &mut SideMapCells,
    agents: &mut Vec<Agent>,
    delta_ms: u64,
) -> (events: Vec<VisitedNodeEvent>)
    requires
        old(graph).wf(),
        graph_matches_cells(*old(graph), old(cells)@),
        forall|i: int| 0 <= i < old(agents)@.len() ==> (#[trigger] old(agents)@[i]).wf(),
    ensures
        final(graph).wf(),
        graph_matches_cells(*final(graph), final(cells)@),
        final(cells)@ == spec_dig_all(old(cells)@, events@, DIG_PER_VISIT),
        final(agents)@.len() == old(agents)@.len(),
        forall|i: int| 0 <= i < final(agents)@.len() ==> (#[trigger] final(agents)@[i]).wf(),
        exists|segs: Seq<Seq<VisitedNodeEvent>>| #[trigger]
            tick_outcome(*old(graph), old(agents)@, final(agents)@, segs, events@, delta_ms),
{
    let n = agents.len();
    // routing pass
    let mut i: usize = 0;
    while i < n
        invariant
            n == agents@.len(),
            i <= n,
            graph.wf(),
            *graph == *old(graph),
            *cells == *old(cells),
            forall|j: int| 0 <= j < agents@.len() ==> (#[trigger] agents@[j]).wf(),
            forall|j: int| i <= j < agents@.len() ==> #[trigger] agents@[j] == old(agents)@[j],
            forall|j: int|
                0 <= j < i ==> routed(*old(graph), old(agents)@[j], #[trigger] agents@[j]),
        decreases n - i,
    {
        let mut a = Agent { position: SidePosition { x: 0, y: 0 }, speed: Speed(0), path: Path::Idle };
        core::mem::swap(&mut agents[i], &mut a);
        let ghost a0 = a;
        let current = a.position.to_cell();
        needs_path(graph, current, &mut a.path);
        proof {
            assert(a.wf());
            assert(routed(*old(graph), a0, a));
        }
        agents[i] = a;
        i = i + 1;
    }
    // movement pass
    let mut events: Vec<VisitedNodeEvent> = Vec::new();
    let ghost mut segs: Seq<Seq<VisitedNodeEvent>> = Seq::empty();
    let mut i: usize = 0;
    while i < n
        invariant
            n == agents@.len(),
            i <= n,
            graph.wf(),
            *graph == *old(graph),
            *cells == *old(cells),
            graph_matches_cells(*graph, cells@),
            forall|j: int| 0 <= j < agents@.len() ==> (#[trigger] agents@[j]).wf(),
            forall|j: int|
                i <= j < agents@.len() ==> routed(*old(graph), old(agents)@[j], #[trigger] agents@[j]),
            segs.len() == i as int,
            events@ == concat_events(segs),
            forall|j: int|
                0 <= j < i ==> tick_agent_ok(
                    *old(graph),
                    old(agents)@[j],
                    #[trigger] agents@[j],
                    segs[j],
                    j as u64,
                    spec_tick_budget(old(agents)@[j].speed, delta_ms),
                ),
        decreases n - i,
    {
        let mut a = Agent { position: SidePosition { x: 0, y: 0 }, speed: Speed(0), path: Path::Idle };
        core::mem::swap(&mut agents[i], &mut a);
        let ghost mid_agent = a;
        let budget = tick_budget(a.speed, delta_ms);
        let ghost gbudget = budget as int;
        let mut evs = move_along_path(&mut a.position, &mut a.path, budget, i as u64);
        proof {
            // a route cut down to its pending tail still holds only
            // in-bounds waypoints
            match mid_agent.path {
                Path::Progress(pr) => {
                    let steps = pr.remaining_steps@;
                    if steps.len() > 0 {
                        let post_path = a.path;
                        let k = choose|k: int| #[trigger]
                            move_outcome(
                                steps,
                                mid_agent.position,
                                a.position,
                                post_path,
                                evs@,
                                k,
                                i as u64,
                                gbudget,
                            );
                        match post_path {
                            Path::Progress(pr1) => {
                                assert forall|j: int|
                                    0 <= j < pr1.remaining_steps@.len() implies (
                                #[trigger] pr1.remaining_steps@[j]).in_bounds() by {
                                    assert(pr1.remaining_steps@[j] == steps[k + j]);
                                }
                            },
                            _ => {},
                        }
                    }
                },
                _ => {},
            }
            assert(a.wf());
            // this agent's tick: routing (from the first pass) then this move
            assert(moved_agent(mid_agent, a, evs@, i as u64, gbudget));
            assert(routed(*old(graph), old(agents)@[i as int], mid_agent));
            assert(gbudget == spec_tick_budget(old(agents)@[i as int].speed, delta_ms));
            assert(tick_agent_ok(
                *old(graph),
                old(agents)@[i as int],
                a,
                evs@,
                i as u64,
                spec_tick_budget(old(agents)@[i as int].speed, delta_ms),
            ));
        }
        let ghost evs0 = evs@;
        events.append(&mut evs);
        proof {
            assert(segs.push(evs0).drop_last() =~= segs);
            segs = segs.push(evs0);
            assert(segs.last() == evs0);
            assert(events@ == concat_events(segs));
        }
        agents[i] = a;
        i = i + 1;
    }
    // terrain-mutation pass: drain every event of this tick
    apply_visitation_events(graph, cells, &events);
    proof {
        assert(tick_outcome(*old(graph), old(agents)@, agents@, segs, events@, delta_ms));
    }
    events
}

} // verus!