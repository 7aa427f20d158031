use puddle_core::command::Command;
use puddle_core::geometry::Location;
use puddle_core::graph::Graph;
use puddle_core::grid::{Droplet, DropletId, GridView};
use puddle_core::sched::{holds_id, holds_index, SchedError, SchedRequest, SchedResponse, Scheduler};

fn cell(y: i32, x: i32) -> Location {
    Location { y, x }
}

fn name(n: usize) -> DropletId {
    DropletId { id: n, process_id: 0 }
}

fn three_droplets() -> GridView {
    let mut gv = GridView::new(6, 6);
    gv.insert(Droplet::new(name(1), 1, cell(0, 0), cell(1, 1)));
    gv.insert(Droplet::new(name(2), 1, cell(2, 2), cell(1, 1)));
    gv.insert(Droplet::new(name(3), 1, cell(4, 4), cell(1, 1)));
    gv
}

#[test]
fn schedule_takes_every_ready_node_without_a_limit() {
    let gv = three_droplets();
    let mut g = Graph::new();
    g.add(Some(Command::Move { droplet: name(1) }), vec![]);
    g.add(Some(Command::Move { droplet: name(3) }), vec![]);
    g.add(Some(Command::Move { droplet: name(2) }), vec![0, 1]);
    let s = Scheduler::new();
    let resp = s.schedule(&SchedRequest { graph: &g, gridview: &gv, limit: None }).unwrap();
    assert_eq!(resp.commands_to_run, vec![0, 1]);
    assert_eq!(resp.droplets_to_store, vec![name(2)]);
}

#[test]
fn schedule_defers_the_later_nodes_under_a_limit() {
    let gv = three_droplets();
    let mut g = Graph::new();
    g.add(Some(Command::Move { droplet: name(1) }), vec![]);
    g.add(Some(Command::Move { droplet: name(3) }), vec![]);
    g.add(Some(Command::Move { droplet: name(2) }), vec![]);
    let s = Scheduler::new();
    let one = s.schedule(&SchedRequest { graph: &g, gridview: &gv, limit: Some(1) }).unwrap();
    assert_eq!(one.commands_to_run, vec![0]);
    // the droplets of the deferred nodes wait
    assert_eq!(one.droplets_to_store, vec![name(2), name(3)]);
    let two = s.schedule(&SchedRequest { graph: &g, gridview: &gv, limit: Some(2) }).unwrap();
    assert_eq!(two.commands_to_run, vec![0, 1]);
    assert_eq!(two.droplets_to_store, vec![name(2)]);
    let many = s.schedule(&SchedRequest { graph: &g, gridview: &gv, limit: Some(9) }).unwrap();
    assert_eq!(many.commands_to_run, vec![0, 1, 2]);
    assert!(many.droplets_to_store.is_empty());
    let none = s.schedule(&SchedRequest { graph: &g, gridview: &gv, limit: Some(0) }).unwrap();
    assert!(none.commands_to_run.is_empty());
    assert_eq!(none.droplets_to_store, vec![name(1), name(2), name(3)]);
}

#[test]
fn schedule_of_an_empty_graph_parks_everything() {
    let gv = three_droplets();
    let g = Graph::new();
    let s = Scheduler::new();
    let resp = s.schedule(&SchedRequest { graph: &g, gridview: &gv, limit: None }).unwrap();
    assert!(resp.commands_to_run.is_empty());
    assert_eq!(resp.droplets_to_store, vec![name(1), name(2), name(3)]);
}

#[test]
fn schedule_reports_an_unbound_node() {
    let gv = three_droplets();
    let mut g = Graph::new();
    g.add(Some(Command::Move { droplet: name(1) }), vec![]);
    g.add(None, vec![]);
    g.add(None, vec![]);
    let s = Scheduler::new();
    let r = s.schedule(&SchedRequest { graph: &g, gridview: &gv, limit: None });
    assert_eq!(r.err(), Some(SchedError::Unbound(1)));
    // a deferred node is not looked at
    let r = s.schedule(&SchedRequest { graph: &g, gridview: &gv, limit: Some(1) });
    assert_eq!(r.unwrap().commands_to_run, vec![0]);
}

#[test]
fn schedule_reports_a_command_without_its_droplet() {
    let gv = three_droplets();
    let mut g = Graph::new();
    g.add(Some(Command::Move { droplet: name(1) }), vec![]);
    g.add(Some(Command::Mix { first: name(2), second: name(9) }), vec![]);
    g.add(None, vec![]);
    let s = Scheduler::new();
    let r = s.schedule(&SchedRequest { graph: &g, gridview: &gv, limit: None });
    // the first fault in the order of the nodes
    assert_eq!(r.err(), Some(SchedError::NotRequestable(1)));
}

#[test]
fn committed_commands_never_run_again() {
    let gv = three_droplets();
    let mut g = Graph::new();
    g.add(Some(Command::Move { droplet: name(1) }), vec![]);
    g.add(Some(Command::Move { droplet: name(2) }), vec![0]);
    g.add(Some(Command::Move { droplet: name(3) }), vec![1]);
    let mut s = Scheduler::new();
    let mut seen: Vec<usize> = vec![];
    for tick in 0..3 {
        let resp = s.schedule(&SchedRequest { graph: &g, gridview: &gv, limit: None }).unwrap();
        // each node runs once, and only after the node it depends on
        assert_eq!(resp.commands_to_run, vec![tick]);
        for c in &resp.commands_to_run {
            assert!(!seen.contains(c));
            assert!(!s.has_committed(*c));
            seen.push(*c);
        }
        s.commit(&resp);
        assert!(s.has_committed(tick));
    }
    let resp = s.schedule(&SchedRequest { graph: &g, gridview: &gv, limit: None }).unwrap();
    assert!(resp.commands_to_run.is_empty());
    assert_eq!(seen, vec![0, 1, 2]);
}

#[test]
fn successors_wait_until_every_predecessor_is_committed() {
    let gv = three_droplets();
    let mut g = Graph::new();
    g.add(Some(Command::Move { droplet: name(1) }), vec![]);
    g.add(Some(Command::Move { droplet: name(2) }), vec![]);
    g.add(Some(Command::Mix { first: name(1), second: name(2) }), vec![0, 1]);
    let mut s = Scheduler::new();
    let req = SchedRequest { graph: &g, gridview: &gv, limit: None };
    // no commit, no progress
    assert_eq!(s.schedule(&req).unwrap().commands_to_run, vec![0, 1]);
    assert_eq!(s.schedule(&req).unwrap().commands_to_run, vec![0, 1]);
    s.commit(&SchedResponse { commands_to_run: vec![0], droplets_to_store: vec![] });
    assert_eq!(s.schedule(&req).unwrap().commands_to_run, vec![1]);
    s.commit(&SchedResponse { commands_to_run: vec![1, 1], droplets_to_store: vec![] });
    let last = s.schedule(&req).unwrap();
    assert_eq!(last.commands_to_run, vec![2]);
    assert_eq!(last.droplets_to_store, vec![name(3)]);
    assert!(s.has_committed(0) && s.has_committed(1) && !s.has_committed(2));
}

#[test]
fn membership_helpers() {
    assert!(holds_index(&vec![4, 2], 2));
    assert!(!holds_index(&vec![4, 2], 3));
    assert!(!holds_index(&vec![], 0));
    assert!(holds_id(&vec![name(1)], name(1)));
    assert!(!holds_id(&vec![name(1)], DropletId { id: 1, process_id: 1 }));
}
