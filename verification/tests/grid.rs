use puddle_core::command::{Command, CommandRequest};
use puddle_core::geometry::{Location, Region};
use puddle_core::graph::Graph;
use puddle_core::grid::{Droplet, DropletId, GridView};

fn loc(y: i32, x: i32) -> Location {
    Location { y, x }
}

fn id(n: usize) -> DropletId {
    DropletId { id: n, process_id: 7 }
}

#[test]
fn regions_overlap_only_when_they_share_a_cell() {
    let a = Region::new(loc(0, 0), loc(2, 2));
    assert!(a.intersects(&Region::new(loc(1, 1), loc(2, 2))));
    assert!(a.intersects(&a));
    // side by side and corner to corner: no shared cell
    assert!(!a.intersects(&Region::new(loc(0, 2), loc(2, 2))));
    assert!(!a.intersects(&Region::new(loc(2, 0), loc(1, 1))));
    assert!(!a.intersects(&Region::new(loc(2, 2), loc(1, 1))));
    // a rectangle without cells overlaps nothing
    assert!(!a.intersects(&Region::new(loc(1, 1), loc(0, 3))));
    assert!(!Region::new(loc(1, 1), loc(-1, 3)).intersects(&a));
}

#[test]
fn overlap_survives_extreme_coordinates() {
    let far = Region::new(loc(i32::MAX, i32::MAX), loc(i32::MAX, i32::MAX));
    let near = Region::new(loc(i32::MIN, i32::MIN), loc(i32::MAX, i32::MAX));
    assert!(far.intersects(&far));
    assert!(!far.intersects(&near));
    assert!(!far.fits_grid(i32::MAX, i32::MAX));
}

#[test]
fn region_fits_grid_within_bounds_only() {
    assert!(Region::new(loc(0, 0), loc(3, 4)).fits_grid(3, 4));
    assert!(Region::new(loc(2, 3), loc(1, 1)).fits_grid(3, 4));
    assert!(!Region::new(loc(2, 3), loc(2, 1)).fits_grid(3, 4));
    assert!(!Region::new(loc(-1, 0), loc(1, 1)).fits_grid(3, 4));
    assert!(!Region::new(loc(0, 0), loc(0, 1)).fits_grid(3, 4));
    assert!(!Region::new(loc(0, 0), loc(1, 1)).fits_grid(0, 0));
    assert_eq!(Region::of_cell(loc(2, 5)), Region::new(loc(2, 5), loc(1, 1)));
}

#[test]
fn droplet_validity() {
    let d = Droplet::new(id(1), 10, loc(0, 3), loc(1, 2));
    assert!(d.is_valid());
    assert_eq!(d.footprint(), Region::new(loc(0, 3), loc(1, 2)));
    let flat = Droplet { id: id(1), location: loc(0, 0), dimensions: loc(0, 1), volume: 1 };
    assert!(!flat.is_valid());
    let off = Droplet { id: id(1), location: loc(0, -1), dimensions: loc(1, 1), volume: 1 };
    assert!(!off.is_valid());
    assert_eq!(id(4).key(), (4, 7));
}

#[test]
fn gridview_holds_one_droplet_per_name() {
    let mut gv = GridView::new(4, 6);
    assert_eq!((gv.height(), gv.width(), gv.len()), (4, 6, 0));
    assert_eq!(gv.get(id(1)), None);
    let first = Droplet::new(id(1), 5, loc(0, 0), loc(1, 1));
    let second = Droplet::new(id(2), 5, loc(2, 2), loc(1, 1));
    assert_eq!(gv.insert(first), None);
    assert_eq!(gv.insert(second), None);
    assert_eq!(gv.len(), 2);
    assert_eq!(gv.get(id(1)), Some(first));
    assert_eq!(gv.nth(1), second);
    // the same name again: replaced in place
    let moved = Droplet::new(id(1), 5, loc(3, 3), loc(1, 1));
    assert_eq!(gv.insert(moved), Some(first));
    assert_eq!(gv.len(), 2);
    assert_eq!(gv.nth(0), moved);
    assert_eq!(gv.get(id(1)), Some(moved));
    // the process tag is part of the name
    assert_eq!(gv.get(DropletId { id: 1, process_id: 8 }), None);
    assert_eq!(gv.remove(id(1)), Some(moved));
    assert_eq!(gv.remove(id(1)), None);
    assert_eq!(gv.len(), 1);
    assert_eq!(gv.nth(0), second);
}

#[test]
fn check_no_collision_finds_shared_cells() {
    let mut gv = GridView::new(5, 5);
    gv.insert(Droplet::new(id(1), 1, loc(0, 0), loc(2, 2)));
    gv.insert(Droplet::new(id(2), 1, loc(0, 2), loc(1, 1)));
    gv.insert(Droplet::new(id(3), 1, loc(2, 0), loc(1, 1)));
    assert!(gv.check_no_collision());
    gv.insert(Droplet::new(id(4), 1, loc(1, 1), loc(1, 1)));
    assert!(!gv.check_no_collision());
    gv.remove(id(4));
    assert!(gv.check_no_collision());
    assert!(GridView::new(0, 0).check_no_collision());
}

#[test]
fn move_asks_for_the_droplets_own_extent() {
    let mut gv = GridView::new(5, 5);
    gv.insert(Droplet::new(id(1), 1, loc(3, 3), loc(2, 1)));
    let cmd = Command::Move { droplet: id(1) };
    assert_eq!(cmd.input_droplets(), vec![id(1)]);
    assert!(cmd.can_request(&gv));
    let req = cmd.request(&gv);
    assert_eq!(req.name, "move");
    assert_eq!(req.shape, loc(2, 1));
    assert_eq!(req.inputs, vec![id(1)]);
    assert_eq!(req.input_locations, vec![loc(0, 0)]);
    assert!(req.is_well_formed());
    assert!(!Command::Move { droplet: id(2) }.can_request(&gv));
}

#[test]
fn mix_asks_for_both_droplets_side_by_side() {
    let mut gv = GridView::new(5, 5);
    gv.insert(Droplet::new(id(1), 1, loc(0, 0), loc(1, 2)));
    gv.insert(Droplet::new(id(2), 1, loc(4, 4), loc(2, 1)));
    let cmd = Command::Mix { first: id(1), second: id(2) };
    assert_eq!(cmd.input_droplets(), vec![id(1), id(2)]);
    assert!(cmd.can_request(&gv));
    let req = cmd.request(&gv);
    assert_eq!(req.name, "mix");
    assert_eq!(req.shape, loc(2, 3));
    assert_eq!(req.inputs, vec![id(1), id(2)]);
    assert_eq!(req.input_locations, vec![loc(0, 0), loc(0, 2)]);
    assert!(req.is_well_formed());
    // a droplet is not mixed with itself, nor with one that is absent
    assert!(!Command::Mix { first: id(1), second: id(1) }.can_request(&gv));
    assert!(!Command::Mix { first: id(1), second: id(3) }.can_request(&gv));
    assert!(!Command::Mix { first: id(3), second: id(1) }.can_request(&gv));
}

#[test]
fn mix_too_wide_for_the_coordinates_cannot_be_requested() {
    let mut gv = GridView::new(5, 5);
    gv.insert(Droplet::new(id(1), 1, loc(0, 0), loc(1, i32::MAX)));
    gv.insert(Droplet::new(id(2), 1, loc(4, 4), loc(1, 1)));
    assert!(!Command::Mix { first: id(1), second: id(2) }.can_request(&gv));
    gv.insert(Droplet::new(id(1), 1, loc(0, 0), loc(1, i32::MAX - 1)));
    let cmd = Command::Mix { first: id(1), second: id(2) };
    assert!(cmd.can_request(&gv));
    assert_eq!(cmd.request(&gv).shape, loc(1, i32::MAX));
}

#[test]
fn input_asks_for_its_extent_and_consumes_nothing() {
    let gv = GridView::new(2, 2);
    let cmd = Command::Input { dimensions: loc(3, 1) };
    assert!(cmd.can_request(&gv));
    assert!(cmd.input_droplets().is_empty());
    let req = cmd.request(&gv);
    assert_eq!(req.name, "input");
    assert_eq!(req.shape, loc(3, 1));
    assert!(req.inputs.is_empty());
    assert!(req.input_locations.is_empty());
}

#[test]
fn request_well_formedness_and_duplicate() {
    let good = CommandRequest {
        name: "custom".to_string(),
        shape: loc(2, 2),
        inputs: vec![id(1), id(2)],
        input_locations: vec![loc(0, 0), loc(1, 1)],
    };
    assert!(good.is_well_formed());
    let copy = good.duplicate();
    assert_eq!(copy.name, "custom");
    assert_eq!(copy.shape, good.shape);
    assert_eq!(copy.inputs, good.inputs);
    assert_eq!(copy.input_locations, good.input_locations);
    let outside = CommandRequest {
        name: "custom".to_string(),
        shape: loc(2, 2),
        inputs: vec![id(1)],
        input_locations: vec![loc(0, 2)],
    };
    assert!(!outside.is_well_formed());
    let uneven = CommandRequest {
        name: "custom".to_string(),
        shape: loc(2, 2),
        inputs: vec![id(1)],
        input_locations: vec![],
    };
    assert!(!uneven.is_well_formed());
}

#[test]
fn graph_nodes_depend_on_earlier_nodes_only() {
    let mut g = Graph::new();
    assert_eq!(g.len(), 0);
    // no node 0 yet to depend on
    assert_eq!(g.add(None, vec![0]), None);
    assert_eq!(g.len(), 0);
    assert_eq!(g.add(Some(Command::Input { dimensions: loc(1, 1) }), vec![]), Some(0));
    assert_eq!(g.add(None, vec![0]), Some(1));
    assert_eq!(g.add(None, vec![1, 2]), None);
    assert_eq!(g.add(None, vec![1, 0]), Some(2));
    assert_eq!(g.len(), 3);
    assert_eq!(g.command(0), Some(Command::Input { dimensions: loc(1, 1) }));
    assert_eq!(g.command(1), None);
    assert_eq!(g.predecessors(2), &vec![1, 0]);
    assert!(g.bind(1, Command::Move { droplet: id(3) }));
    assert_eq!(g.command(1), Some(Command::Move { droplet: id(3) }));
    assert_eq!(g.predecessors(1), &vec![0]);
    assert!(!g.bind(3, Command::Move { droplet: id(3) }));
    assert_eq!(g.len(), 3);
}
