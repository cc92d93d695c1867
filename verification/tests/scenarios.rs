use crawler_nav::map::{
    apply_visitation_events, CellContent, SideMapCells, UpdateTileDirtAmountEvent,
    detect_cell_content_changes_and_update_graph, passive_dig_when_visiting_a_cell,
};
use crawler_nav::movement::{move_along_path, Speed};
use crawler_nav::pathfinding::{needs_path, Path, SideMapGraph, VisitedNodeEvent};
use crawler_nav::positions::{SideIPos, SidePosition};
use crawler_nav::simulation::{simulation_tick, Agent};

/// Builds a rectangular world from a closure giving each cell's content.
fn build_world<F: Fn(i32, i32) -> CellContent>(
    w: i32,
    h: i32,
    f: F,
) -> (SideMapCells, SideMapGraph, Vec<SideIPos>) {
    let mut cells = SideMapCells::new();
    let mut order = Vec::new();
    for y in 0..h {
        for x in 0..w {
            let p = SideIPos::new(x, y);
            cells.insert(p, f(x, y));
            order.push(p);
        }
    }
    let graph = SideMapGraph::build_from_cells(&cells, &order);
    (cells, graph, order)
}

#[test]
fn construction_weights_are_cost_sums() {
    // edge weight equals cost(a) + cost(b) right after construction
    let (_, graph, _) = build_world(2, 1, |x, _| {
        if x == 0 {
            CellContent::dirt(3)
        } else {
            CellContent::empty_underground()
        }
    });
    assert_eq!(graph.node_count(), 2);
    let a = SideIPos::new(0, 0);
    let b = SideIPos::new(1, 0);
    assert_eq!(graph.edge_weight(&a, &b), Some(5));
    assert_eq!(graph.edge_weight(&b, &a), Some(5));
}

#[test]
fn rock_gets_a_node_but_no_edges() {
    let (_, graph, _) = build_world(2, 1, |x, _| {
        if x == 0 {
            CellContent::rock(true)
        } else {
            CellContent::empty_underground()
        }
    });
    assert_eq!(graph.node_count(), 2);
    assert!(graph.has_node(&SideIPos::new(0, 0)));
    assert_eq!(
        graph.edge_weight(&SideIPos::new(0, 0), &SideIPos::new(1, 0)),
        None
    );
}

#[test]
fn update_reweighs_incident_edges() {
    // edge weight is recomputed from current cell costs after a change
    let (mut cells, mut graph, _) = build_world(2, 1, |_, _| CellContent::dirt(20));
    let a = SideIPos::new(0, 0);
    let b = SideIPos::new(1, 0);
    assert_eq!(graph.edge_weight(&a, &b), Some(42));
    cells.dig_at(&a, 10);
    graph.update_edges_at(&cells, a);
    assert_eq!(graph.edge_weight(&a, &b), Some(32));
    assert_eq!(graph.edge_weight(&b, &a), Some(32));
}

#[test]
fn update_removes_edges_of_impassable_cells() {
    // a cell turned to rock takes its edges with it
    let (mut cells, mut graph, _) = build_world(2, 1, |_, _| CellContent::dirt(20));
    let a = SideIPos::new(0, 0);
    let b = SideIPos::new(1, 0);
    cells.insert(a, CellContent::rock(true));
    graph.update_edges_at(&cells, a);
    assert_eq!(graph.edge_weight(&a, &b), None);
    assert_eq!(graph.edge_weight(&b, &a), None);
}

#[test]
fn request_at_goal_completes_without_search() {
    let (_, graph, _) = build_world(2, 1, |_, _| CellContent::empty_underground());
    let goal = SideIPos::new(1, 0);
    let mut path = Path::NeedsPath(goal);
    needs_path(&graph, goal, &mut path);
    assert_eq!(path.get_completed_position(), Some(goal));
    assert!(path.did_complete());
}

#[test]
fn astar_picks_the_cheapest_route() {
    // a heavy dirt cell on the straight route makes the detour cheaper
    let (_, graph, _) = build_world(3, 2, |x, y| {
        if x == 1 && y == 0 {
            CellContent::dirt(200)
        } else {
            CellContent::empty_underground()
        }
    });
    let start = SideIPos::new(0, 0);
    let goal = SideIPos::new(2, 0);
    let (cost, route) = graph.astar(start, goal).unwrap();
    assert_eq!(cost, 8);
    assert_eq!(
        route,
        vec![
            SideIPos::new(0, 0),
            SideIPos::new(0, 1),
            SideIPos::new(1, 1),
            SideIPos::new(2, 1),
            SideIPos::new(2, 0),
        ]
    );
}

#[test]
fn rock_plug_fails_the_request() {
    // a single rock cell plugging the only one-wide corridor between two
    // rooms makes the request fail
    let (_, graph, _) = build_world(3, 1, |x, _| {
        if x == 1 {
            CellContent::rock(true)
        } else {
            CellContent::empty_underground()
        }
    });
    let start = SideIPos::new(0, 0);
    let goal = SideIPos::new(2, 0);
    assert!(graph.astar(start, goal).is_none());
    let mut path = Path::NeedsPath(goal);
    needs_path(&graph, start, &mut path);
    assert!(path.did_fail());
    assert_eq!(path.get_failed_target(), Some(goal));
}

#[test]
fn mover_consumes_two_waypoints_in_one_tick() {
    // a budget longer than two segments fires exactly two events, in order
    let steps = vec![SideIPos::new(1, 0), SideIPos::new(2, 0)];
    let mut path = Path::Progress(crawler_nav::pathfinding::PathProgress {
        remaining_steps: steps,
    });
    let mut pos = SidePosition::new(0, 0);
    let events = move_along_path(&mut pos, &mut path, 70, 9);
    assert_eq!(events.len(), 2);
    assert_eq!(
        events[0],
        VisitedNodeEvent {
            creature_entity: 9,
            position: SideIPos::new(1, 0),
            is_final: false,
        }
    );
    assert_eq!(
        events[1],
        VisitedNodeEvent {
            creature_entity: 9,
            position: SideIPos::new(2, 0),
            is_final: true,
        }
    );
    // the agent sits exactly on the waypoint whose event fired last
    assert_eq!(pos, SidePosition::new(64, 0));
    assert!(path.did_complete());
    assert_eq!(path.get_completed_position(), Some(SideIPos::new(2, 0)));
}

#[test]
fn mover_never_overshoots() {
    // with a small budget the agent moves straight toward the waypoint and
    // stops short of it
    let steps = vec![SideIPos::new(1, 0)];
    let mut path = Path::Progress(crawler_nav::pathfinding::PathProgress {
        remaining_steps: steps,
    });
    let mut pos = SidePosition::new(0, 0);
    let events = move_along_path(&mut pos, &mut path, 10, 0);
    assert!(events.is_empty());
    assert_eq!(pos, SidePosition::new(10, 0));
    assert!(path.is_progressing());
}

#[test]
fn erosion_lowers_corridor_weights_until_the_floor() {
    // repeated traversal lowers an edge's weight, then holds at the floor
    let (mut cells, mut graph, _) = build_world(2, 1, |_, _| CellContent::dirt(10));
    let a = SideIPos::new(0, 0);
    let b = SideIPos::new(1, 0);
    assert_eq!(graph.edge_weight(&a, &b), Some(22));
    let visit = vec![VisitedNodeEvent {
        creature_entity: 0,
        position: a,
        is_final: false,
    }];
    apply_visitation_events(&mut graph, &mut cells, &visit);
    assert_eq!(graph.edge_weight(&a, &b), Some(12));
    // the dirt is gone; walking over it again changes nothing
    apply_visitation_events(&mut graph, &mut cells, &visit);
    assert_eq!(graph.edge_weight(&a, &b), Some(12));
    // and a later route over the corridor costs no more than before
    let after = graph.astar(a, b).unwrap().0;
    assert!(after <= 22);
}

#[test]
fn two_phase_mutator_passes_match_the_combined_one() {
    let (mut cells, mut graph, _) = build_world(2, 1, |_, _| CellContent::dirt(10));
    let a = SideIPos::new(0, 0);
    let visit = vec![VisitedNodeEvent {
        creature_entity: 0,
        position: a,
        is_final: true,
    }];
    let updates = passive_dig_when_visiting_a_cell(&mut cells, &visit);
    assert_eq!(updates, vec![UpdateTileDirtAmountEvent(a)]);
    assert_eq!(cells.get(&a).unwrap().amount_left(), 0);
    detect_cell_content_changes_and_update_graph(&mut graph, &cells, &updates);
    assert_eq!(
        graph.edge_weight(&a, &SideIPos::new(1, 0)),
        Some(12)
    );
}

#[test]
fn corner_to_corner_crawl_erodes_the_route() {
    // a 3 by 3 all-dirt grid, except an empty goal corner: the agent goes
    // in progress, completes after enough ticks, and has eroded dirt along
    // the way
    let goal = SideIPos::new(2, 2);
    let (mut cells, mut graph, _) = build_world(3, 3, |x, y| {
        if x == 2 && y == 2 {
            CellContent::empty_underground()
        } else {
            CellContent::dirt(10)
        }
    });
    let start = SideIPos::new(0, 0);
    let mut agents = vec![Agent::new(start.to_world_point(), Speed::new(64))];
    agents[0].path.set_target(goal);
    let mut saw_progress = false;
    let mut done = false;
    for _ in 0..64 {
        simulation_tick(&mut graph, &mut cells, &mut agents, 1000);
        if agents[0].path.is_progressing() {
            saw_progress = true;
        }
        if agents[0].path.did_complete() {
            done = true;
            break;
        }
    }
    assert!(saw_progress);
    assert!(done);
    assert_eq!(agents[0].path.get_completed_position(), Some(goal));
    assert_eq!(agents[0].position, goal.to_world_point());
    // dirt along the walked route was eroded away (10 per visit empties a
    // Dirt(10) cell)
    let mut eroded = 0;
    for y in 0..3 {
        for x in 0..3 {
            let c = cells.get(&SideIPos::new(x, y)).unwrap();
            if !(x == 2 && y == 2) && c.is_empty() {
                eroded += 1;
            }
        }
    }
    assert!(eroded >= 3);
}

#[test]
fn cancelled_request_stays_idle() {
    let (_, graph, _) = build_world(2, 1, |_, _| CellContent::empty_underground());
    let mut path = Path::NeedsPath(SideIPos::new(1, 0));
    path.cancel();
    needs_path(&graph, SideIPos::new(0, 0), &mut path);
    assert!(!path.is_progressing());
    assert!(!path.did_complete());
    assert!(!path.did_fail());
}

#[test]
fn tick_completes_request_for_the_current_cell() {
    let (mut cells, mut graph, _) = build_world(2, 1, |_, _| CellContent::empty_underground());
    let here = SideIPos::new(1, 0);
    let mut agents = vec![Agent::new(here.to_world_point(), Speed::new(32))];
    agents[0].path.set_target(here);
    let events = simulation_tick(&mut graph, &mut cells, &mut agents, 1000);
    assert!(events.is_empty());
    assert_eq!(agents[0].path.get_completed_position(), Some(here));
    assert_eq!(agents[0].position, here.to_world_point());
}

#[test]
fn mover_diagonal_move_stays_within_budget() {
    // approaching a waypoint diagonally, the partial move is scaled by the
    // rounded-up distance, so the distance walked never exceeds the budget
    let steps = vec![SideIPos::new(1, 1)];
    let mut path = Path::Progress(crawler_nav::pathfinding::PathProgress {
        remaining_steps: steps,
    });
    let mut pos = SidePosition::new(0, 0);
    // distance to (32, 32) is sqrt(2048) ~ 45.25, paid as 46 when snapped
    let events = move_along_path(&mut pos, &mut path, 10, 0);
    assert!(events.is_empty());
    assert_eq!(pos, SidePosition::new(6, 6));
    assert!(6 * 6 + 6 * 6 <= 10 * 10);
    assert!(path.is_progressing());
}
