use puddle_core::geometry::{Location, Region};
use puddle_core::grid::{Droplet, DropletId, GridView};
use puddle_core::route::{Agent, Router, RoutingError, RoutingRequest, RoutingResponse};

fn p(y: i32, x: i32) -> Location {
    Location { y, x }
}

fn did(n: usize) -> DropletId {
    DropletId { id: n, process_id: 3 }
}

fn agent(n: usize, from: Location, to: Location) -> Agent {
    Agent { id: did(n), source: from, destination: to, dimensions: p(1, 1) }
}

fn where_at(path: &[Location], t: usize) -> Location {
    if t < path.len() {
        path[t]
    } else {
        path[path.len() - 1]
    }
}

/// Every path leads its agent from source to destination step by step, on the
/// grid and off the forbidden cells, and no two agents ever share a cell.
fn assert_routes_sound(gv: &GridView, agents: &[Agent], blockages: &[Location], resp: &RoutingResponse) {
    assert_eq!(resp.routes.len(), agents.len());
    let mut longest = 0;
    for a in agents {
        let path = resp.routes.get(&a.id.key()).unwrap();
        assert_eq!(path[0], a.source);
        assert_eq!(path[path.len() - 1], a.destination);
        for w in path.windows(2) {
            let step = (w[0].y - w[1].y).abs() + (w[0].x - w[1].x).abs();
            assert!(step <= 1, "{:?} to {:?} is no step", w[0], w[1]);
        }
        for c in path {
            let r = Region::new(*c, a.dimensions);
            assert!(r.fits_grid(gv.height(), gv.width()));
            for b in blockages {
                assert!(!r.intersects(&Region::of_cell(*b)));
            }
        }
        longest = longest.max(path.len());
    }
    for t in 0..longest + 1 {
        for (i, a) in agents.iter().enumerate() {
            for b in &agents[..i] {
                let ra = Region::new(where_at(&resp.routes[&a.id.key()], t), a.dimensions);
                let rb = Region::new(where_at(&resp.routes[&b.id.key()], t), b.dimensions);
                assert!(!ra.intersects(&rb), "{:?} and {:?} collide at {}", a.id, b.id, t);
            }
        }
    }
}

#[test]
fn route_along_a_row() {
    let gv = GridView::new(1, 4);
    let agents = vec![agent(1, p(0, 0), p(0, 3))];
    let resp = Router::new()
        .route(&RoutingRequest { agents: agents.clone(), gridview: &gv, blockages: vec![] })
        .unwrap();
    assert_eq!(resp.routes.len(), 1);
    assert_eq!(resp.routes[&did(1).key()], vec![p(0, 0), p(0, 1), p(0, 2), p(0, 3)]);
    assert_routes_sound(&gv, &agents, &[], &resp);
}

#[test]
fn route_of_an_agent_that_is_home_is_one_cell() {
    let gv = GridView::new(2, 2);
    let agents = vec![agent(1, p(1, 1), p(1, 1))];
    let resp = Router::new()
        .route(&RoutingRequest { agents, gridview: &gv, blockages: vec![] })
        .unwrap();
    assert_eq!(resp.routes[&did(1).key()], vec![p(1, 1)]);
}

#[test]
fn route_without_agents_is_empty() {
    let gv = GridView::new(2, 2);
    let resp =
        Router::new().route(&RoutingRequest { agents: vec![], gridview: &gv, blockages: vec![] }).unwrap();
    assert!(resp.routes.is_empty());
}

#[test]
fn crossing_agents_do_not_meet() {
    // both would be at (1, 1) after one step
    let gv = GridView::new(3, 3);
    let agents = vec![agent(1, p(1, 0), p(1, 2)), agent(2, p(0, 1), p(2, 1))];
    let resp = Router::new()
        .route(&RoutingRequest { agents: agents.clone(), gridview: &gv, blockages: vec![] })
        .unwrap();
    assert_eq!(resp.routes[&did(1).key()], vec![p(1, 0), p(1, 1), p(1, 2)]);
    // the second agent waits one step
    assert_eq!(resp.routes[&did(2).key()], vec![p(0, 1), p(0, 1), p(1, 1), p(2, 1)]);
    assert_routes_sound(&gv, &agents, &[], &resp);
}

#[test]
fn route_goes_around_forbidden_cells() {
    let gv = GridView::new(2, 3);
    let agents = vec![agent(1, p(0, 0), p(0, 2))];
    let blockages = vec![p(0, 1)];
    let resp = Router::new()
        .route(&RoutingRequest { agents: agents.clone(), gridview: &gv, blockages: blockages.clone() })
        .unwrap();
    assert_eq!(
        resp.routes[&did(1).key()],
        vec![p(0, 0), p(1, 0), p(1, 1), p(1, 2), p(0, 2)]
    );
    assert_routes_sound(&gv, &agents, &blockages, &resp);
}

#[test]
fn route_fails_where_the_way_is_cut() {
    let gv = GridView::new(2, 3);
    let agents = vec![agent(1, p(0, 0), p(0, 0)), agent(2, p(1, 0), p(0, 2))];
    let r = Router::new().route(&RoutingRequest {
        agents,
        gridview: &gv,
        blockages: vec![p(0, 1), p(1, 1)],
    });
    assert_eq!(r.err(), Some(RoutingError::NoRoute { index: 1, id: did(2) }));
}

#[test]
fn route_fails_for_a_destination_off_the_grid_or_forbidden() {
    let gv = GridView::new(2, 2);
    for to in [p(2, 0), p(0, 2), p(-1, 0)] {
        let r = Router::new().route(&RoutingRequest {
            agents: vec![agent(1, p(0, 0), to)],
            gridview: &gv,
            blockages: vec![],
        });
        assert_eq!(r.err(), Some(RoutingError::NoRoute { index: 0, id: did(1) }));
    }
    let r = Router::new().route(&RoutingRequest {
        agents: vec![agent(1, p(0, 0), p(1, 1))],
        gridview: &gv,
        blockages: vec![p(1, 1)],
    });
    assert_eq!(r.err(), Some(RoutingError::NoRoute { index: 0, id: did(1) }));
    // a source that is forbidden is no start
    let r = Router::new().route(&RoutingRequest {
        agents: vec![agent(1, p(0, 0), p(1, 1))],
        gridview: &gv,
        blockages: vec![p(0, 0)],
    });
    assert_eq!(r.err(), Some(RoutingError::NoRoute { index: 0, id: did(1) }));
}

#[test]
fn route_fails_where_an_earlier_agent_rests_on_the_destination() {
    let gv = GridView::new(1, 3);
    let agents = vec![agent(1, p(0, 0), p(0, 1)), agent(2, p(0, 2), p(0, 1))];
    let r = Router::new().route(&RoutingRequest { agents, gridview: &gv, blockages: vec![] });
    assert_eq!(r.err(), Some(RoutingError::NoRoute { index: 1, id: did(2) }));
}

#[test]
fn later_agent_waits_for_an_earlier_one_to_pass_its_destination() {
    // the first agent passes (0, 2) at time 2; the second may not rest there before
    let gv = GridView::new(2, 4);
    let agents = vec![agent(1, p(0, 0), p(0, 3)), agent(2, p(1, 2), p(0, 2))];
    let resp = Router::new()
        .route(&RoutingRequest { agents: agents.clone(), gridview: &gv, blockages: vec![] })
        .unwrap();
    assert_eq!(resp.routes[&did(1).key()], vec![p(0, 0), p(0, 1), p(0, 2), p(0, 3)]);
    assert_eq!(resp.routes[&did(2).key()], vec![p(1, 2), p(1, 2), p(1, 2), p(0, 2)]);
    assert_routes_sound(&gv, &agents, &[], &resp);
}

#[test]
fn wide_droplets_keep_their_whole_footprint_apart() {
    let gv = GridView::new(3, 6);
    let big = Agent { id: did(1), source: p(0, 0), destination: p(0, 4), dimensions: p(2, 2) };
    let small = Agent { id: did(2), source: p(1, 3), destination: p(2, 0), dimensions: p(1, 1) };
    let agents = vec![big, small];
    let resp = Router::new()
        .route(&RoutingRequest { agents: agents.clone(), gridview: &gv, blockages: vec![] })
        .unwrap();
    assert_eq!(resp.routes[&did(1).key()].len(), 5);
    assert_routes_sound(&gv, &agents, &[], &resp);
    // a droplet of two rows does not fit the bottom row
    let low = Agent { id: did(1), source: p(0, 0), destination: p(2, 0), dimensions: p(2, 2) };
    let r = Router::new().route(&RoutingRequest { agents: vec![low], gridview: &gv, blockages: vec![] });
    assert_eq!(r.err(), Some(RoutingError::NoRoute { index: 0, id: did(1) }));
}

#[test]
fn routes_are_filed_in_the_order_of_the_agents() {
    let gv = GridView::new(3, 3);
    let agents = vec![agent(9, p(0, 0), p(0, 1)), agent(4, p(2, 2), p(2, 1)), agent(6, p(1, 1), p(1, 1))];
    let resp = Router::new()
        .route(&RoutingRequest { agents: agents.clone(), gridview: &gv, blockages: vec![] })
        .unwrap();
    let keys: Vec<(usize, usize)> = resp.routes.keys().cloned().collect();
    assert_eq!(keys, vec![(9, 3), (4, 3), (6, 3)]);
    assert_eq!(resp.routes.get_index(1), Some((&(4, 3), &vec![p(2, 2), p(2, 1)])));
    assert_eq!(resp.routes.get(&(6, 3)), Some(&vec![p(1, 1)]));
    assert_eq!(resp.routes.get(&(6, 0)), None);
}

#[test]
fn a_second_move_of_the_same_droplet_replaces_its_route_in_place() {
    let gv = GridView::new(1, 5);
    let agents = vec![agent(1, p(0, 0), p(0, 0)), agent(2, p(0, 4), p(0, 4)), agent(1, p(0, 2), p(0, 1))];
    let resp = Router::new()
        .route(&RoutingRequest { agents, gridview: &gv, blockages: vec![] })
        .unwrap();
    let keys: Vec<(usize, usize)> = resp.routes.keys().cloned().collect();
    assert_eq!(keys, vec![(1, 3), (2, 3)]);
    assert_eq!(resp.routes[&(1, 3)], vec![p(0, 2), p(0, 1)]);
}

#[test]
fn agent_from_droplet_moves_it_from_where_it_is() {
    let d = Droplet::new(did(5), 2, p(1, 2), p(2, 3));
    assert_eq!(
        Agent::from_droplet(&d, p(4, 4)),
        Agent { id: did(5), source: p(1, 2), destination: p(4, 4), dimensions: p(2, 3) }
    );
}

#[test]
fn many_agents_swap_sides_without_collision() {
    let gv = GridView::new(4, 5);
    let mut agents = vec![];
    for row in 0..4 {
        let (from, to) = if row % 2 == 0 { (0, 4) } else { (4, 0) };
        agents.push(agent(row as usize, p(row, from), p(3 - row, to)));
    }
    let resp = Router::new()
        .route(&RoutingRequest { agents: agents.clone(), gridview: &gv, blockages: vec![p(1, 2)] })
        .unwrap();
    assert_routes_sound(&gv, &agents, &[p(1, 2)], &resp);
}

#[test]
fn route_gives_up_once_nothing_new_comes_into_reach() {
    // a wall from top to bottom between the agent and its destination
    let gv = GridView::new(60, 60);
    let wall: Vec<Location> = (0..60).map(|y| p(y, 30)).collect();
    let r = Router::new().route(&RoutingRequest {
        agents: vec![agent(1, p(0, 0), p(59, 59))],
        gridview: &gv,
        blockages: wall.clone(),
    });
    assert_eq!(r.err(), Some(RoutingError::NoRoute { index: 0, id: did(1) }));
    // with a gap in the wall there is a way, and it is a shortest one
    let gap: Vec<Location> = wall.into_iter().filter(|c| c.y != 59).collect();
    let agents = vec![agent(1, p(0, 0), p(59, 59))];
    let resp = Router::new()
        .route(&RoutingRequest { agents: agents.clone(), gridview: &gv, blockages: gap.clone() })
        .unwrap();
    assert_eq!(resp.routes[&did(1).key()].len(), 119);
    assert_routes_sound(&gv, &agents, &gap, &resp);
}
