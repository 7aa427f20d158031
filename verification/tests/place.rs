use puddle_core::command::CommandRequest;
use puddle_core::geometry::{Location, Region};
use puddle_core::grid::{Droplet, DropletId, GridView};
use puddle_core::place::{Placement, PlacementError, PlacementRequest, PlacementResponse, Placer};

fn at(y: i32, x: i32) -> Location {
    Location { y, x }
}

fn drop_id(n: usize) -> DropletId {
    DropletId { id: n, process_id: 0 }
}

fn room(h: i32, w: i32) -> CommandRequest {
    CommandRequest { name: "room".to_string(), shape: at(h, w), inputs: vec![], input_locations: vec![] }
}

fn taking(h: i32, w: i32, id: DropletId) -> CommandRequest {
    CommandRequest {
        name: "take".to_string(),
        shape: at(h, w),
        inputs: vec![id],
        input_locations: vec![at(0, 0)],
    }
}

/// All rectangles handed back, with those that were in the way from the start.
fn assert_sound(gv: &GridView, resp: &PlacementResponse, parked: &[DropletId], others: &[Region]) {
    let mut all: Vec<Region> = resp.commands.iter().map(|p| p.footprint()).collect();
    for (id, spot) in parked.iter().zip(&resp.stored_droplets) {
        all.push(Region::new(*spot, gv.get(*id).unwrap().dimensions));
    }
    for r in &all {
        assert!(r.fits_grid(gv.height(), gv.width()), "{:?} leaves the grid", r);
    }
    all.extend_from_slice(others);
    for i in 0..all.len() {
        for j in 0..i {
            assert!(!all[i].intersects(&all[j]), "{:?} and {:?} overlap", all[i], all[j]);
        }
    }
}

#[test]
fn place_takes_the_first_free_position_in_reading_order() {
    let mut gv = GridView::new(4, 4);
    gv.insert(Droplet::new(drop_id(1), 1, at(0, 0), at(1, 1)));
    gv.insert(Droplet::new(drop_id(2), 1, at(3, 3), at(1, 1)));
    let commands = vec![room(2, 2), room(2, 2), room(1, 4)];
    let stored = vec![drop_id(1), drop_id(2)];
    let resp = Placer::new()
        .place(PlacementRequest {
            gridview: &gv,
            fixed_commands: vec![],
            commands: &commands,
            stored_droplets: &stored,
        })
        .unwrap();
    assert_eq!(
        resp.commands,
        vec![
            Placement { offset: at(0, 0), shape: at(2, 2) },
            Placement { offset: at(0, 2), shape: at(2, 2) },
            Placement { offset: at(2, 0), shape: at(1, 4) },
        ]
    );
    // the first droplet has to make way, the second stays
    assert_eq!(resp.stored_droplets, vec![at(3, 0), at(3, 3)]);
    assert_sound(&gv, &resp, &stored, &[]);
}

#[test]
fn place_keeps_clear_of_fixed_commands_and_other_droplets() {
    let mut gv = GridView::new(3, 5);
    gv.insert(Droplet::new(drop_id(1), 1, at(0, 0), at(1, 1)));
    gv.insert(Droplet::new(drop_id(2), 1, at(0, 2), at(1, 1)));
    gv.insert(Droplet::new(drop_id(3), 1, at(2, 4), at(1, 1)));
    let fixed = Placement { offset: at(1, 0), shape: at(2, 2) };
    // droplet 1 is consumed, droplet 3 is parked, droplet 2 is neither: it stays in the way
    let commands = vec![taking(1, 2, drop_id(1)), room(2, 2)];
    let stored = vec![drop_id(3)];
    let resp = Placer::new()
        .place(PlacementRequest {
            gridview: &gv,
            fixed_commands: vec![fixed],
            commands: &commands,
            stored_droplets: &stored,
        })
        .unwrap();
    assert_eq!(resp.commands[0].offset, at(0, 0));
    assert_eq!(resp.commands[1].offset, at(0, 3));
    assert_eq!(resp.stored_droplets, vec![at(2, 4)]);
    assert_sound(&gv, &resp, &stored, &[fixed.footprint(), gv.get(drop_id(2)).unwrap().footprint()]);
}

#[test]
fn place_fails_where_no_position_is_left() {
    let gv = GridView::new(2, 3);
    let commands = vec![room(2, 2), room(2, 2)];
    let r = Placer::new().place(PlacementRequest {
        gridview: &gv,
        fixed_commands: vec![],
        commands: &commands,
        stored_droplets: &[],
    });
    assert_eq!(r.err(), Some(PlacementError::NoRoom(1)));
    let alone = vec![room(2, 2)];
    let r = Placer::new().place(PlacementRequest {
        gridview: &gv,
        fixed_commands: vec![],
        commands: &alone,
        stored_droplets: &[],
    });
    assert_eq!(r.unwrap().commands, vec![Placement { offset: at(0, 0), shape: at(2, 2) }]);
}

#[test]
fn place_fails_for_a_rectangle_larger_than_the_grid_or_without_cells() {
    let gv = GridView::new(2, 2);
    for shape in [at(3, 1), at(1, 3), at(0, 1), at(1, -1)] {
        let commands = vec![room(1, 1), room(shape.y, shape.x)];
        let r = Placer::new().place(PlacementRequest {
            gridview: &gv,
            fixed_commands: vec![],
            commands: &commands,
            stored_droplets: &[],
        });
        assert_eq!(r.err(), Some(PlacementError::NoRoom(1)));
    }
    let empty = GridView::new(0, 5);
    let commands = vec![room(1, 1)];
    let r = Placer::new().place(PlacementRequest {
        gridview: &empty,
        fixed_commands: vec![],
        commands: &commands,
        stored_droplets: &[],
    });
    assert_eq!(r.err(), Some(PlacementError::NoRoom(0)));
}

#[test]
fn place_counts_parked_droplets_after_the_requests() {
    let mut gv = GridView::new(1, 2);
    gv.insert(Droplet::new(drop_id(1), 1, at(0, 0), at(1, 1)));
    gv.insert(Droplet::new(drop_id(2), 1, at(0, 1), at(1, 1)));
    let commands = vec![room(1, 1)];
    let stored = vec![drop_id(2), drop_id(1)];
    let r = Placer::new().place(PlacementRequest {
        gridview: &gv,
        fixed_commands: vec![],
        commands: &commands,
        stored_droplets: &stored,
    });
    // the request takes (0, 0), droplet 2 stays at (0, 1), droplet 1 has nowhere to go
    assert_eq!(r.err(), Some(PlacementError::NoRoom(2)));
}

#[test]
fn place_rejects_a_parked_droplet_that_is_not_resident() {
    let mut gv = GridView::new(3, 3);
    gv.insert(Droplet::new(drop_id(1), 1, at(0, 0), at(1, 1)));
    let commands = vec![room(9, 9)];
    let stored = vec![drop_id(1), drop_id(5), drop_id(6)];
    let r = Placer::new().place(PlacementRequest {
        gridview: &gv,
        fixed_commands: vec![],
        commands: &commands,
        stored_droplets: &stored,
    });
    assert_eq!(r.err(), Some(PlacementError::UnknownDroplet(drop_id(5))));
}

#[test]
fn place_nothing() {
    let gv = GridView::new(3, 3);
    let resp = Placer::new()
        .place(PlacementRequest {
            gridview: &gv,
            fixed_commands: vec![],
            commands: &[],
            stored_droplets: &[],
        })
        .unwrap();
    assert!(resp.commands.is_empty());
    assert!(resp.stored_droplets.is_empty());
}

#[test]
fn placement_maps_cells_of_the_request_to_cells_of_the_grid() {
    let p = Placement { offset: at(2, 3), shape: at(2, 4) };
    assert_eq!(p.get(at(0, 0)), Some(at(2, 3)));
    assert_eq!(p.get(at(1, 3)), Some(at(3, 6)));
    assert_eq!(p.get(at(2, 0)), None);
    assert_eq!(p.get(at(0, 4)), None);
    assert_eq!(p.get(at(-1, 0)), None);
    assert_eq!(p.footprint(), Region::new(at(2, 3), at(2, 4)));
    let far = Placement { offset: at(i32::MAX, 0), shape: at(2, 2) };
    assert_eq!(far.get(at(0, 1)), Some(at(i32::MAX, 1)));
    assert_eq!(far.get(at(1, 1)), None);
}

#[test]
fn placements_are_sound_on_a_crowded_grid() {
    let mut gv = GridView::new(6, 7);
    let mut stored = vec![];
    for n in 0..6 {
        let id = drop_id(n);
        gv.insert(Droplet::new(id, 1, at(n as i32, n as i32), at(1, 2)));
        if n % 2 == 0 {
            stored.push(id);
        }
    }
    let commands =
        vec![taking(2, 3, drop_id(1)), room(3, 2), taking(1, 1, drop_id(3)), room(2, 2), room(1, 5)];
    let resp = Placer::new()
        .place(PlacementRequest {
            gridview: &gv,
            fixed_commands: vec![Placement { offset: at(0, 3), shape: at(1, 1) }],
            commands: &commands,
            stored_droplets: &stored,
        })
        .unwrap();
    assert_eq!(resp.commands.len(), 5);
    assert_eq!(resp.stored_droplets.len(), 3);
    let still = [
        Region::new(at(0, 3), at(1, 1)),
        gv.get(drop_id(5)).unwrap().footprint(),
    ];
    assert_sound(&gv, &resp, &stored, &still);
}
