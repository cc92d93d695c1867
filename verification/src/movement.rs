//! Continuous movement of agents along their computed routes.
//!
//! Each tick an agent owns a distance budget (its speed times the elapsed
//! time). The mover walks the agent toward its next waypoint; whenever the
//! budget covers the remaining distance the agent snaps exactly onto the
//! waypoint, a visitation event fires, and the waypoint is consumed — a
//! single tick may consume several waypoints, each with its own event, in
//! route order. Whatever budget is left moves the agent straight toward the
//! next waypoint without ever overshooting it.

use vstd::prelude::*;
use vstd::arithmetic::div_mod::{lemma_div_is_ordered, lemma_div_multiples_vanish};
use crate::positions::{SideIPos, SidePosition};
use crate::pathfinding::{Path, PathProgress, VisitedNodeEvent, isqrt_u128};

verus! {

/// How fast an agent walks, in world units per second.
#[derive(Clone, Copy, PartialEq, Eq, Debug, Structural)]
pub struct Speed(pub u64);

impl Speed {
    pub fn new(value: u64) -> (r: Self)
        ensures
            r.0 == value,
    {
        Speed(value)
    }
}

/// The distance budget of one tick: the agent's speed times the elapsed
/// milliseconds, in world units.
pub fn apply_speed(speed: &Speed, delta_ms: u64) -> (budget: u64)
    requires
        speed.0 * delta_ms <= u64::MAX,
    ensures
        budget == speed.0 * delta_ms / 1000,
{
    (speed.0 * delta_ms) / 1000
}

/// The squared straight-line distance between two world positions.
pub open spec fn dist2(a: SidePosition, b: SidePosition) -> int {
    (a.x - b.x) * (a.x - b.x) + (a.y - b.y) * (a.y - b.y)
}

/// True when `m` lies between `a` and `b` (inclusive, either order).
pub open spec fn between(a: int, m: int, b: int) -> bool {
    (a <= m <= b) || (b <= m <= a)
}

/// The grid distance between two world positions (an upper bound on their
/// straight-line distance).
pub open spec fn l1_dist(a: SidePosition, b: SidePosition) -> int {
    (if a.x >= b.x {
        a.x - b.x
    } else {
        b.x - a.x
    }) + (if a.y >= b.y {
        a.y - b.y
    } else {
        b.y - a.y
    })
}

/// The grid length of the route from `p0` over the first `k` waypoints of
/// `steps`. A tick's budget of at least this much always snaps all `k`.
pub open spec fn route_l1(steps: Seq<SideIPos>, p0: SidePosition, k: int) -> int
    decreases k,
{
    if k <= 0 {
        0
    } else {
        let prev = if k == 1 {
            p0
        } else {
            steps[k - 2].spec_to_world_point()
        };
        route_l1(steps, p0, k - 1) + l1_dist(prev, steps[k - 1].spec_to_world_point())
    }
}

/// True when `c` is the smallest whole number of distance units covering
/// the squared distance `d2` (the ceiling of its square root).
pub open spec fn is_ceil_dist(d2: int, c: int) -> bool {
    &&& 0 <= c
    &&& d2 <= c * c
    &&& c > 0 ==> (c - 1) * (c - 1) < d2
}

/// The sum of a sequence of per-segment distance payments.
pub open spec fn seq_sum(s: Seq<int>) -> int
    decreases s.len(),
{
    if s.len() == 0 {
        0
    } else {
        seq_sum(s.drop_last()) + s.last()
    }
}

/// The world point from which waypoint `j` of the route is approached: the
/// previous waypoint's world point, or the starting position for the first.
pub open spec fn approach_point(steps: Seq<SideIPos>, p0: SidePosition, j: int) -> SidePosition {
    if j == 0 {
        p0
    } else {
        steps[j - 1].spec_to_world_point()
    }
}

/// The budget ledger of one mover pass: each of the `k` consumed waypoints
/// was paid its straight-line distance rounded up, the payments fit in the
/// budget, and — when the route is unfinished — the leftover covers the
/// final drift toward the next waypoint yet falls short of reaching it.
pub open spec fn spent_ok(
    steps: Seq<SideIPos>,
    p0: SidePosition,
    p1: SidePosition,
    k: int,
    budget: int,
    spent: Seq<int>,
) -> bool {
    &&& spent.len() == k
    &&& forall|j: int|
        0 <= j < k ==> is_ceil_dist(
            dist2(approach_point(steps, p0, j), steps[j].spec_to_world_point()),
            #[trigger] spent[j],
        )
    &&& seq_sum(spent) <= budget
    &&& k < steps.len() ==> {
        let left = budget - seq_sum(spent);
        &&& left >= 0
        &&& dist2(approach_point(steps, p0, k), p1) <= left * left
        &&& left * left < dist2(approach_point(steps, p0, k), steps[k].spec_to_world_point())
    }
}

/// What one mover pass did to an agent whose route still held the waypoints
/// `steps`: the first `k` waypoints were consumed in order, each hit exactly
/// (one event per waypoint, the last one marked final); either the whole
/// route finished with the agent sitting precisely on the goal, or the agent
/// now sits between the last hit waypoint (or its starting position) and the
/// next pending waypoint, no farther from it than before. Every consumed
/// waypoint and the final drift were paid for out of the budget
/// ([`spent_ok`]), so the pass moves neither less nor more than the budget
/// allows.
pub open spec fn move_outcome(
    steps: Seq<SideIPos>,
    p0: SidePosition,
    p1: SidePosition,
    path1: Path,
    evs: Seq<VisitedNodeEvent>,
    k: int,
    who: u64,
    budget: int,
) -> bool {
    &&& 0 <= k <= steps.len()
    &&& k < steps.len() ==> budget < route_l1(steps, p0, k + 1)
    &&& exists|spent: Seq<int>| #[trigger] spent_ok(steps, p0, p1, k, budget, spent)
    &&& evs.len() == k
    &&& forall|j: int|
        0 <= j < k ==> #[trigger] evs[j] == (VisitedNodeEvent {
            creature_entity: who,
            position: steps[j],
            is_final: j == steps.len() - 1,
        })
    &&& if k == steps.len() {
        &&& path1 matches Path::Completed(end) && end == steps[k - 1]
        &&& p1 == steps[k - 1].spec_to_world_point()
    } else {
        let anchor = if k > 0 {
            steps[k - 1].spec_to_world_point()
        } else {
            p0
        };
        let next = steps[k].spec_to_world_point();
        &&& (path1 matches Path::Progress(pr1) && pr1.remaining_steps@ == steps.skip(k))
        &&& between(anchor.x as int, p1.x as int, next.x as int)
        &&& between(anchor.y as int, p1.y as int, next.y as int)
        &&& dist2(p1, next) <= dist2(anchor, next)
    }
}

/// A budget that covers the straight-line distance to the next pending
/// waypoint always snaps onto it: at least that waypoint is consumed, and
/// its visitation event fires first, with exact fields.
pub proof fn lemma_budget_snaps_first_waypoint(
    steps: Seq<SideIPos>,
    p0: SidePosition,
    p1: SidePosition,
    path1: Path,
    evs: Seq<VisitedNodeEvent>,
    k: int,
    who: u64,
    budget: int,
)
    requires
        move_outcome(steps, p0, p1, path1, evs, k, who, budget),
        steps.len() > 0,
        budget >= 0,
        budget * budget >= dist2(p0, steps[0].spec_to_world_point()),
    ensures
        k >= 1,
        evs.len() >= 1,
        evs[0] == (VisitedNodeEvent {
            creature_entity: who,
            position: steps[0],
            is_final: steps.len() == 1,
        }),
{
    if k == 0 {
        let spent = choose|spent: Seq<int>| #[trigger] spent_ok(steps, p0, p1, 0, budget, spent);
        assert(seq_sum(spent) == 0);
        assert(budget * budget < dist2(p0, steps[0].spec_to_world_point()));
        assert(false);
    }
}

/// The smallest whole number of distance units that covers the squared
/// distance `d2` (the ceiling of its square root).
fn ceil_sqrt_u128(d2: u128) -> (c: u64)
    requires
        d2 <= 0x4_0000_0000_0000_0000_0000,
    ensures
        d2 <= (c as int) * (c as int),
        c > 0 ==> ((c as int) - 1) * ((c as int) - 1) < d2,
        is_ceil_dist(d2 as int, c as int),
{
    let f = isqrt_u128(d2);
    proof {
        assert(f <= 0x400_0000_0000 && (f > 0 ==> ((f as int) - 1) * ((f as int) - 1) < (
        f as int) * (f as int))) by (nonlinear_arith)
            requires
                (f as int) * (f as int) <= d2 <= 0x4_0000_0000_0000_0000_0000,
                f >= 0,
        {
        }
    }
    if (f as u128) * (f as u128) == d2 {
        f
    } else {
        f + 1
    }
}

/// The mover pass for one agent with distance budget `budget`.
///
/// Only an agent walking a route moves; a route with no waypoints left turns
/// idle. Consumed waypoints are hit exactly and reported in order; the last
/// waypoint completes the route. The agent never overshoots its next pending
/// waypoint, and everything it does is paid for out of the budget: each
/// consumed waypoint costs its straight-line distance rounded up, and the
/// final drift stays within what is left.
#[verifier::rlimit(100)]
pub fn move_along_path(
    position: &mut SidePosition,
    path: &mut Path,
    budget: u64,
    creature_entity: u64,
) -> (events: Vec<VisitedNodeEvent>)
    requires
        old(position).in_bounds(),
        (match *old(path) {
            Path::Progress(pr) => forall|i: int|
                0 <= i < pr.remaining_steps@.len() ==> (
                #[trigger] pr.remaining_steps@[i]).in_bounds(),
            _ => true,
        }),
    ensures
        final(position).in_bounds(),
        match *old(path) {
            Path::Progress(pr) => {
                let steps = pr.remaining_steps@;
                if steps.len() == 0 {
                    *final(path) == Path::Idle && *final(position) == *old(position)
                        && events@.len() == 0
                } else {
                    exists|k: int| #[trigger]
                        move_outcome(
                            steps,
                            *old(position),
                            *final(position),
                            *final(path),
                            events@,
                            k,
                            creature_entity,
                            budget as int,
                        )
                }
            },
            _ => *final(path) == *old(path) && *final(position) == *old(position) && events@.len()
                == 0,
        },
{
    let mut events: Vec<VisitedNodeEvent> = Vec::new();
    let progressing = match &*path {
        Path::Progress(_) => true,
        _ => false,
    };
    if !progressing {
        return events;
    }
    let mut taken = Path::Idle;
    core::mem::swap(path, &mut taken);
    let mut steps = match taken {
        Path::Progress(pr) => pr.remaining_steps,
        _ => {
            proof {
                assert(false);
            }
            Vec::new()
        },
    };
    let n = steps.len();
    if n == 0 {
        *path = Path::Idle;
        return events;
    }
    let ghost steps0 = steps@;
    let ghost p0 = *position;
    let ghost mut spent: Seq<int> = Seq::empty();
    let mut b = budget;
    let mut k: usize = 0;
    while k < n
        invariant_except_break
            n == steps@.len(),
            steps@ == steps0,
            0 < n,
            k <= n,
            p0.in_bounds(),
            position.in_bounds(),
            forall|i: int| 0 <= i < steps@.len() ==> (#[trigger] steps@[i]).in_bounds(),
            events@.len() == k,
            forall|j: int|
                0 <= j < k ==> #[trigger] events@[j] == (VisitedNodeEvent {
                    creature_entity,
                    position: steps@[j],
                    is_final: j == steps@.len() - 1,
                }),
            k > 0 ==> *position == steps@[k - 1].spec_to_world_point(),
            k == 0 ==> *position == p0,
            b <= budget,
            b >= budget - route_l1(steps@, p0, k as int),
            spent.len() == k as int,
            forall|j: int|
                0 <= j < k ==> is_ceil_dist(
                    dist2(approach_point(steps@, p0, j), steps@[j].spec_to_world_point()),
                    #[trigger] spent[j],
                ),
            seq_sum(spent) == budget - b,
        ensures
            n == steps@.len(),
            steps@ == steps0,
            k <= n,
            position.in_bounds(),
            events@.len() == k,
            forall|j: int|
                0 <= j < k ==> #[trigger] events@[j] == (VisitedNodeEvent {
                    creature_entity,
                    position: steps@[j],
                    is_final: j == steps@.len() - 1,
                }),
            k == n ==> *position == steps@[k - 1].spec_to_world_point(),
            k < n ==> (budget as int) < route_l1(steps@, p0, k as int + 1),
            b <= budget,
            spent.len() == k as int,
            forall|j: int|
                0 <= j < k ==> is_ceil_dist(
                    dist2(approach_point(steps@, p0, j), steps@[j].spec_to_world_point()),
                    #[trigger] spent[j],
                ),
            seq_sum(spent) == budget - b,
            k < n ==> dist2(approach_point(steps@, p0, k as int), *position) <= (b as int) * (
            b as int),
            k < n ==> (b as int) * (b as int) < dist2(
                approach_point(steps@, p0, k as int),
                steps@[k as int].spec_to_world_point(),
            ),
            k < n ==> {
                let anchor = if k > 0 {
                    steps@[k - 1].spec_to_world_point()
                } else {
                    p0
                };
                let next = steps@[k as int].spec_to_world_point();
                &&& between(anchor.x as int, position.x as int, next.x as int)
                &&& between(anchor.y as int, position.y as int, next.y as int)
                &&& dist2(*position, next) <= dist2(anchor, next)
            },
        decreases n - k,
    {
        let target = steps[k].to_world_point();
        let dx = target.x - position.x;
        let dy = target.y - position.y;
        let ax: u64 = if dx >= 0 {
            dx as u64
        } else {
            (-dx) as u64
        };
        let ay: u64 = if dy >= 0 {
            dy as u64
        } else {
            (-dy) as u64
        };
        proof {
            assert(target.in_bounds());
            assert(ax <= 0x100_0000_0000 && ay <= 0x100_0000_0000);
            assert((ax as int) * (ax as int) + (ay as int) * (ay as int)
                <= 0x2_0000_0000_0000_0000_0000) by (nonlinear_arith)
                requires
                    0 <= ax <= 0x100_0000_0000,
                    0 <= ay <= 0x100_0000_0000,
            {
            }
        }
        let d2: u128 = (ax as u128) * (ax as u128) + (ay as u128) * (ay as u128);
        proof {
            assert((b as int) * (b as int) < 0x1_0000_0000_0000_0000_0000_0000_0000_0000)
                by (nonlinear_arith)
                requires
                    0 <= b < 0x1_0000_0000_0000_0000,
            {
            }
        }
        let b2: u128 = (b as u128) * (b as u128);
        proof {
            let next = steps@[k as int].spec_to_world_point();
            let dd = dist2(*position, next);
            assert(dd == (position.x - next.x) * (position.x - next.x) + (position.y - next.y) * (
            position.y - next.y));
            assert(d2 == dd) by (nonlinear_arith)
                requires
                    d2 == (ax as int) * (ax as int) + (ay as int) * (ay as int),
                    ax == (if dx >= 0 {
                        dx as int
                    } else {
                        -(dx as int)
                    }),
                    ay == (if dy >= 0 {
                        dy as int
                    } else {
                        -(dy as int)
                    }),
                    dx == next.x - position.x,
                    dy == next.y - position.y,
                    dd == (position.x - next.x) * (position.x - next.x) + (position.y - next.y) * (
                    position.y - next.y),
            {
            }
        }
        if b2 >= d2 {
            // the budget reaches the waypoint: land exactly on it and pay
            // the straight-line distance, rounded up
            let c = ceil_sqrt_u128(d2);
            proof {
                assert(c <= b) by (nonlinear_arith)
                    requires
                        d2 <= (c as int) * (c as int),
                        c > 0 ==> ((c as int) - 1) * ((c as int) - 1) < d2,
                        d2 <= (b as int) * (b as int),
                        c >= 0,
                        b >= 0,
                {
                }
                // the snap consumed at most the grid distance of the segment
                let anchor = if k > 0 {
                    steps@[k - 1].spec_to_world_point()
                } else {
                    p0
                };
                let next = steps@[k as int].spec_to_world_point();
                assert(l1_dist(anchor, next) == ax + ay);
                assert(c <= ax + ay) by (nonlinear_arith)
                    requires
                        d2 == (ax as int) * (ax as int) + (ay as int) * (ay as int),
                        c > 0 ==> ((c as int) - 1) * ((c as int) - 1) < d2,
                        c >= 0,
                        ax >= 0,
                        ay >= 0,
                {
                }
                assert(route_l1(steps@, p0, k as int + 1) == route_l1(steps@, p0, k as int)
                    + l1_dist(anchor, next));
                // record the payment for this waypoint
                assert(anchor == approach_point(steps@, p0, k as int));
                assert(is_ceil_dist(dist2(anchor, next), c as int));
                assert(spent.push(c as int).drop_last() =~= spent);
                spent = spent.push(c as int);
            }
            b = b - c;
            *position = target;
            events.push(
                VisitedNodeEvent {
                    creature_entity,
                    position: steps[k],
                    is_final: k == n - 1,
                },
            );
            k = k + 1;
        } else {
            // the budget falls short: walk it straight toward the waypoint,
            // never past it and never farther than the budget
            let c2 = ceil_sqrt_u128(d2);
            proof {
                // too little budget even for the grid distance of the segment
                let anchor = if k > 0 {
                    steps@[k - 1].spec_to_world_point()
                } else {
                    p0
                };
                let next = steps@[k as int].spec_to_world_point();
                assert(l1_dist(anchor, next) == ax + ay);
                assert((b as int) < ax + ay) by (nonlinear_arith)
                    requires
                        (b as int) * (b as int) < d2,
                        d2 == (ax as int) * (ax as int) + (ay as int) * (ay as int),
                        b >= 0,
                        ax >= 0,
                        ay >= 0,
                {
                }
                assert(route_l1(steps@, p0, k as int + 1) == route_l1(steps@, p0, k as int)
                    + l1_dist(anchor, next));
                assert(d2 > 0);
                assert(c2 >= 1 && b <= c2) by (nonlinear_arith)
                    requires
                        d2 <= (c2 as int) * (c2 as int),
                        (b as int) * (b as int) < d2,
                        c2 >= 0,
                        b >= 0,
                {
                }
            }
            proof {
                assert((ax as int) * (b as int) < 0x1_0000_0000_0000_0000_0000_0000_0000_0000 && (
                ay as int) * (b as int) < 0x1_0000_0000_0000_0000_0000_0000_0000_0000)
                    by (nonlinear_arith)
                    requires
                        0 <= ax <= 0x100_0000_0000,
                        0 <= ay <= 0x100_0000_0000,
                        0 <= b < 0x1_0000_0000_0000_0000,
                {
                }
            }
            let mxw: u128 = (ax as u128) * (b as u128) / (c2 as u128);
            let myw: u128 = (ay as u128) * (b as u128) / (c2 as u128);
            proof {
                assert((ax as int) * (b as int) <= (c2 as int) * (ax as int) && (ay as int) * (
                b as int) <= (c2 as int) * (ay as int)) by (nonlinear_arith)
                    requires
                        b <= c2,
                        ax >= 0,
                        ay >= 0,
                        b >= 0,
                {
                }
                lemma_div_is_ordered(
                    (ax as int) * (b as int),
                    (c2 as int) * (ax as int),
                    c2 as int,
                );
                lemma_div_is_ordered(
                    (ay as int) * (b as int),
                    (c2 as int) * (ay as int),
                    c2 as int,
                );
                lemma_div_multiples_vanish(ax as int, c2 as int);
                lemma_div_multiples_vanish(ay as int, c2 as int);
                assert(mxw == ((ax as int) * (b as int)) / (c2 as int));
                assert(((c2 as int) * (ax as int)) / (c2 as int) == ax as int);
                assert(mxw <= ax && myw <= ay);
                // rounding down keeps the move within the budget
                vstd::arithmetic::div_mod::lemma_fundamental_div_mod(
                    (ax as int) * (b as int),
                    c2 as int,
                );
                vstd::arithmetic::div_mod::lemma_fundamental_div_mod(
                    (ay as int) * (b as int),
                    c2 as int,
                );
                assert((c2 as int) * (mxw as int) <= (ax as int) * (b as int));
                assert((c2 as int) * (myw as int) <= (ay as int) * (b as int));
            }
            let mx = mxw as u64;
            let my = myw as u64;
            let old_x = position.x;
            let old_y = position.y;
            position.x = if dx >= 0 {
                old_x + mx as i64
            } else {
                old_x - mx as i64
            };
            position.y = if dy >= 0 {
                old_y + my as i64
            } else {
                old_y - my as i64
            };
            proof {
                let anchor = if k > 0 {
                    steps@[k - 1].spec_to_world_point()
                } else {
                    p0
                };
                let next = steps@[k as int].spec_to_world_point();
                let dd = dist2(*position, next);
                assert(dd == (position.x - next.x) * (position.x - next.x) + (position.y - next.y)
                    * (position.y - next.y));
                assert(dd <= d2) by (nonlinear_arith)
                    requires
                        0 <= mx <= ax,
                        0 <= my <= ay,
                        ax == (if next.x >= old_x {
                            next.x - old_x
                        } else {
                            old_x - next.x
                        }),
                        ay == (if next.y >= old_y {
                            next.y - old_y
                        } else {
                            old_y - next.y
                        }),
                        position.x == (if next.x >= old_x {
                            old_x + mx
                        } else {
                            old_x - mx
                        }),
                        position.y == (if next.y >= old_y {
                            old_y + my
                        } else {
                            old_y - my
                        }),
                        d2 == (ax as int) * (ax as int) + (ay as int) * (ay as int),
                        dd == (position.x - next.x) * (position.x - next.x) + (position.y - next.y)
                            * (position.y - next.y),
                {
                }
                // the drift away from the anchor is covered by the budget
                let moved = dist2(anchor, *position);
                assert(moved == (anchor.x - position.x) * (anchor.x - position.x) + (anchor.y
                    - position.y) * (anchor.y - position.y));
                assert(moved == (mx as int) * (mx as int) + (my as int) * (my as int))
                    by (nonlinear_arith)
                    requires
                        position.x == (if dx >= 0 {
                            anchor.x + mx
                        } else {
                            anchor.x - mx
                        }),
                        position.y == (if dy >= 0 {
                            anchor.y + my
                        } else {
                            anchor.y - my
                        }),
                        moved == (anchor.x - position.x) * (anchor.x - position.x) + (anchor.y
                            - position.y) * (anchor.y - position.y),
                {
                }
                assert(((mx as int) * (mx as int) + (my as int) * (my as int)) * ((c2 as int) * (
                c2 as int)) <= ((ax as int) * (ax as int) + (ay as int) * (ay as int)) * ((
                b as int) * (b as int))) by (nonlinear_arith)
                    requires
                        0 <= (c2 as int) * (mxw as int) <= (ax as int) * (b as int),
                        0 <= (c2 as int) * (myw as int) <= (ay as int) * (b as int),
                        mx == mxw,
                        my == myw,
                        mx >= 0,
                        my >= 0,
                        c2 >= 1,
                {
                }
                assert(moved <= (b as int) * (b as int)) by (nonlinear_arith)
                    requires
                        moved == (mx as int) * (mx as int) + (my as int) * (my as int),
                        ((mx as int) * (mx as int) + (my as int) * (my as int)) * ((c2 as int) * (
                        c2 as int)) <= ((ax as int) * (ax as int) + (ay as int) * (ay as int)) * ((
                        b as int) * (b as int)),
                        d2 == (ax as int) * (ax as int) + (ay as int) * (ay as int),
                        d2 <= (c2 as int) * (c2 as int),
                        c2 >= 1,
                        b >= 0,
                {
                }
                assert(anchor == approach_point(steps@, p0, k as int));
                assert(dist2(approach_point(steps@, p0, k as int), *position) <= (b as int) * (
                b as int));
            }
            break ;
        }
    }
    if k == n {
        let last = steps[n - 1];
        *path = Path::Completed(last);
        proof {
            assert(spent_ok(steps0, p0, *position, k as int, budget as int, spent));
            assert(move_outcome(
                steps0,
                p0,
                *position,
                *path,
                events@,
                k as int,
                creature_entity,
                budget as int,
            ));
        }
    } else {
        let rest = steps.split_off(k);
        *path = Path::Progress(PathProgress { remaining_steps: rest });
        proof {
            assert(spent_ok(steps0, p0, *position, k as int, budget as int, spent));
            assert(move_outcome(
                steps0,
                p0,
                *position,
                *path,
                events@,
                k as int,
                creature_entity,
                budget as int,
            ));
        }
    }
    events
}

} // verus!
