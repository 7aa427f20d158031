//! Commands and the room they ask for.

use crate::geometry::Location;
use crate::grid::{DropletId, GridView};
use vstd::prelude::*;

verus! {

/// What a command needs of the grid before it is known where it will run: a
/// free rectangle of `shape`, and for each droplet it consumes the cell of
/// that rectangle to which the droplet has to be brought.
pub struct CommandRequest {
    /// For diagnostics only.
    pub name: String,
    /// The extent of the rectangle.
    pub shape: Location,
    /// The droplets consumed.
    pub inputs: Vec<DropletId>,
    /// For each consumed droplet, in the same order, its cell, counted from
    /// the rectangle's top-left cell.
    pub input_locations: Vec<Location>,
}

/// The cell `cell`, counted from a rectangle's top-left cell, lies in a
/// rectangle of extent `shape`.
pub open spec fn cell_in_shape(cell: Location, shape: Location) -> bool {
    0 <= cell.y < shape.y && 0 <= cell.x < shape.x
}

impl CommandRequest {
    /// Each consumed droplet has its cell, and the cell lies in the rectangle.
    pub open spec fn wf(&self) -> bool {
        &&& self.inputs@.len() == self.input_locations@.len()
        &&& forall|i: int|
            0 <= i < self.input_locations@.len() ==> cell_in_shape(
                #[trigger] self.input_locations@[i],
                self.shape,
            )
    }

    /// The two requests ask for the same.
    pub open spec fn same(&self, other: &CommandRequest) -> bool {
        &&& self.name@ == other.name@
        &&& self.shape == other.shape
        &&& self.inputs@ == other.inputs@
        &&& self.input_locations@ == other.input_locations@
    }

    /// Whether each consumed droplet has its cell, and the cell lies in the
    /// rectangle.
    pub fn is_well_formed(&self) -> (r: bool)
        ensures
            r == self.wf(),
    {
        if self.inputs.len() != self.input_locations.len() {
            return false;
        }
        let mut i: usize = 0;
        while i < self.input_locations.len()
            invariant
                i <= self.input_locations@.len(),
                forall|k: int|
                    0 <= k < i ==> cell_in_shape(#[trigger] self.input_locations@[k], self.shape),
            decreases self.input_locations@.len() - i,
        {
            let cell = self.input_locations[i];
            if !(0 <= cell.y && cell.y < self.shape.y && 0 <= cell.x && cell.x < self.shape.x) {
                return false;
            }
            i += 1;
        }
        true
    }

    /// A request that asks for the same.
    pub fn duplicate(&self) -> (r: CommandRequest)
        ensures
            r.same(self),
    {
        CommandRequest {
            name: self.name.clone(),
            shape: self.shape,
            inputs: copy_ids(&self.inputs),
            input_locations: copy_locations(&self.input_locations),
        }
    }
}

/// A vector of the same names.
pub fn copy_ids(v: &Vec<DropletId>) -> (r: Vec<DropletId>)
    ensures
        r@ == v@,
{
    let mut r: Vec<DropletId> = Vec::new();
    let mut i: usize = 0;
    while i < v.len()
        invariant
            i <= v@.len(),
            r@ == v@.take(i as int),
        decreases v@.len() - i,
    {
        r.push(v[i]);
        assert(v@.take(i as int).push(v@[i as int]) =~= v@.take(i as int + 1));
        i += 1;
    }
    assert(v@.take(v@.len() as int) =~= v@);
    r
}

/// A vector of the same cells.
pub fn copy_locations(v: &Vec<Location>) -> (r: Vec<Location>)
    ensures
        r@ == v@,
{
    let mut r: Vec<Location> = Vec::new();
    let mut i: usize = 0;
    while i < v.len()
        invariant
            i <= v@.len(),
            r@ == v@.take(i as int),
        decreases v@.len() - i,
    {
        r.push(v[i]);
        assert(v@.take(i as int).push(v@[i as int]) =~= v@.take(i as int + 1));
        i += 1;
    }
    assert(v@.take(v@.len() as int) =~= v@);
    r
}

/// An operation on droplets. The planner asks two things of a command: which
/// droplets it consumes, and what room it needs on the grid as it stands.
#[derive(Clone, Copy, Debug, PartialEq, Eq, Structural)]
pub enum Command {
    /// Brings a new droplet of the given extent onto the device. Consumes
    /// nothing.
    Input { dimensions: Location },
    /// Takes one droplet to a free place of its own extent.
    Move { droplet: DropletId },
    /// Brings two droplets side by side, `first` to the left of `second`, in
    /// a rectangle as tall as the taller and as wide as both.
    Mix { first: DropletId, second: DropletId },
}

impl Command {
    /// The droplets consumed, in order.
    pub open spec fn inputs(&self) -> Seq<DropletId> {
        match *self {
            Command::Input { dimensions } => seq![],
            Command::Move { droplet } => seq![droplet],
            Command::Mix { first, second } => seq![first, second],
        }
    }

    /// A request can be made on `gridview`: every consumed droplet is
    /// resident, a mix has two different droplets, and the width of its
    /// rectangle is a number of the grid's coordinates.
    pub open spec fn requestable(&self, gridview: &GridView) -> bool {
        match *self {
            Command::Input { dimensions } => true,
            Command::Move { droplet } => gridview.contains(droplet),
            Command::Mix { first, second } => {
                &&& first != second
                &&& gridview.contains(first)
                &&& gridview.contains(second)
                &&& gridview.lookup(first).unwrap().dimensions.x + gridview.lookup(
                    second,
                ).unwrap().dimensions.x <= i32::MAX
            },
        }
    }

    /// The extent of the rectangle asked for on `gridview`.
    pub open spec fn shape_on(&self, gridview: &GridView) -> Location {
        match *self {
            Command::Input { dimensions } => dimensions,
            Command::Move { droplet } => gridview.lookup(droplet).unwrap().dimensions,
            Command::Mix { first, second } => {
                let a = gridview.lookup(first).unwrap().dimensions;
                let b = gridview.lookup(second).unwrap().dimensions;
                Location { y: if a.y >= b.y { a.y } else { b.y }, x: (a.x + b.x) as i32 }
            },
        }
    }

    /// The cells of that rectangle to which the consumed droplets go.
    pub open spec fn cells_on(&self, gridview: &GridView) -> Seq<Location> {
        match *self {
            Command::Input { dimensions } => seq![],
            Command::Move { droplet } => seq![Location { y: 0, x: 0 }],
            Command::Mix { first, second } => seq![
                Location { y: 0, x: 0 },
                Location { y: 0, x: gridview.lookup(first).unwrap().dimensions.x },
            ],
        }
    }

    /// The name that the request carries.
    pub open spec fn label(&self) -> Seq<char> {
        match *self {
            Command::Input { dimensions } => "input"@,
            Command::Move { droplet } => "move"@,
            Command::Mix { first, second } => "mix"@,
        }
    }

    /// `request` is what this command asks for on `gridview`.
    pub open spec fn asks(&self, gridview: &GridView, request: &CommandRequest) -> bool {
        &&& request.name@ == self.label()
        &&& request.shape == self.shape_on(gridview)
        &&& request.inputs@ == self.inputs()
        &&& request.input_locations@ == self.cells_on(gridview)
    }

    /// Where a request can be made, every consumed droplet is resident.
    pub proof fn lemma_requestable_inputs(&self, gridview: &GridView, m: int)
        requires
            self.requestable(gridview),
            0 <= m < self.inputs().len(),
        ensures
            gridview.contains(self.inputs()[m]),
            self.inputs().len() == self.cells_on(gridview).len(),
    {
    }

    /// The droplets consumed, in order.
    pub fn input_droplets(&self) -> (ids: Vec<DropletId>)
        ensures
            ids@ == self.inputs(),
    {
        let mut ids: Vec<DropletId> = Vec::new();
        match *self {
            Command::Input { dimensions } => {},
            Command::Move { droplet } => {
                ids.push(droplet);
            },
            Command::Mix { first, second } => {
                ids.push(first);
                ids.push(second);
            },
        }
        assert(ids@ =~= self.inputs());
        ids
    }

    /// Whether a request can be made on `gridview`.
    pub fn can_request(&self, gridview: &GridView) -> (r: bool)
        ensures
            r == self.requestable(gridview),
    {
        match *self {
            Command::Input { dimensions } => true,
            Command::Move { droplet } => gridview.get(droplet).is_some(),
            Command::Mix { first, second } => {
                if first == second {
                    return false;
                }
                match (gridview.get(first), gridview.get(second)) {
                    (Some(a), Some(b)) => a.dimensions.x as i64 + b.dimensions.x as i64
                        <= i32::MAX as i64,
                    _ => false,
                }
            },
        }
    }

    /// What the command needs of the grid as it stands.
    pub fn request(&self, gridview: &GridView) -> (request: CommandRequest)
        requires
            gridview.wf(),
            self.requestable(gridview),
        ensures
            self.asks(gridview, &request),
            request.wf(),
    {
        let inputs = self.input_droplets();
        let mut input_locations: Vec<Location> = Vec::new();
        match *self {
            Command::Input { dimensions } => {
                assert(input_locations@ =~= self.cells_on(gridview));
                CommandRequest { name: "input".to_owned(), shape: dimensions, inputs, input_locations }
            },
            Command::Move { droplet } => {
                let d = gridview.get(droplet).unwrap();
                proof {
                    gridview.lemma_resident_valid(droplet);
                }
                input_locations.push(Location { y: 0, x: 0 });
                assert(input_locations@ =~= self.cells_on(gridview));
                CommandRequest {
                    name: "move".to_owned(),
                    shape: d.dimensions,
                    inputs,
                    input_locations,
                }
            },
            Command::Mix { first, second } => {
                let a = gridview.get(first).unwrap();
                let b = gridview.get(second).unwrap();
                proof {
                    gridview.lemma_resident_valid(first);
                    gridview.lemma_resident_valid(second);
                }
                let shape = Location {
                    y: if a.dimensions.y >= b.dimensions.y {
                        a.dimensions.y
                    } else {
                        b.dimensions.y
                    },
                    x: a.dimensions.x + b.dimensions.x,
                };
                input_locations.push(Location { y: 0, x: 0 });
                input_locations.push(Location { y: 0, x: a.dimensions.x });
                assert(input_locations@ =~= self.cells_on(gridview));
                CommandRequest { name: "mix".to_owned(), shape, inputs, input_locations }
            },
        }
    }
}

} // verus!
