//! Placement: a free rectangle of the grid for each command of a batch, and
//! a parking place for each droplet that waits.
//!
//! The rectangles are placed one after the other, the commands first and
//! then the droplets, each at the first free position in reading order: row
//! by row from the top, in a row from the left. A droplet that can stay
//! where it is stays.

use crate::command::{cell_in_shape, copy_ids, CommandRequest};
use crate::geometry::{Location, Region};
use crate::grid::{Droplet, DropletId, GridView};
use crate::sched::holds_id;
use vstd::prelude::*;

verus! {

/// Where a command runs: its rectangle of extent `shape` has its top-left
/// cell at `offset`. A cell of the request, counted from the rectangle's
/// top-left cell, is the cell of the grid that lies `offset` further.
#[derive(Clone, Copy, Debug, PartialEq, Eq, Structural)]
pub struct Placement {
    pub offset: Location,
    pub shape: Location,
}

impl Placement {
    /// The cells of the grid that the command gets.
    pub open spec fn region(&self) -> Region {
        Region { location: self.offset, dimensions: self.shape }
    }

    /// The cell of the grid for the cell `cell` of the request: defined for
    /// the cells of the rectangle, as far as the grid's coordinates go.
    pub open spec fn lookup(&self, cell: Location) -> Option<Location> {
        if cell_in_shape(cell, self.shape) && self.offset.y + cell.y <= i32::MAX && self.offset.x
            + cell.x <= i32::MAX && self.offset.y + cell.y >= i32::MIN && self.offset.x + cell.x
            >= i32::MIN {
            Some(Location { y: (self.offset.y + cell.y) as i32, x: (self.offset.x + cell.x) as i32 })
        } else {
            None
        }
    }

    /// The mapping from the cells of the request to the cells of the grid.
    pub open spec fn mapping(&self) -> Map<Location, Location> {
        Map::new(|cell: Location| self.lookup(cell).is_some(), |cell: Location| self.lookup(cell).unwrap())
    }

    /// The cells of the grid that the command gets.
    pub fn footprint(&self) -> (r: Region)
        ensures
            r == self.region(),
    {
        Region { location: self.offset, dimensions: self.shape }
    }

    /// The cell of the grid for the cell `cell` of the request.
    pub fn get(&self, cell: Location) -> (r: Option<Location>)
        ensures
            r == self.lookup(cell),
    {
        if !(0 <= cell.y && cell.y < self.shape.y && 0 <= cell.x && cell.x < self.shape.x) {
            return None;
        }
        let y: i64 = self.offset.y as i64 + cell.y as i64;
        let x: i64 = self.offset.x as i64 + cell.x as i64;
        if y > i32::MAX as i64 || x > i32::MAX as i64 || y < i32::MIN as i64 || x < i32::MIN as i64 {
            return None;
        }
        Some(Location { y: y as i32, x: x as i32 })
    }
}

/// What a placer is asked: the device as it stands, the rectangles that
/// commands already hold, the requests of the batch, and the droplets to
/// park.
pub struct PlacementRequest<'a> {
    pub gridview: &'a GridView,
    pub fixed_commands: Vec<Placement>,
    pub commands: &'a [CommandRequest],
    pub stored_droplets: &'a [DropletId],
}

/// A placement for each request of the batch and a parking place for each
/// droplet to park, both in the order of the request.
pub struct PlacementResponse {
    pub commands: Vec<Placement>,
    pub stored_droplets: Vec<Location>,
}

#[derive(Clone, Copy, Debug, PartialEq, Eq, Structural)]
pub enum PlacementError {
    /// A droplet to park is not resident.
    UnknownDroplet(DropletId),
    /// No free position is left for the rectangle at this place of the
    /// batch, the requests counted first and the droplets to park after
    /// them.
    NoRoom(usize),
}

/// A rectangle to place: its extent, and the position it takes if that is
/// free.
pub struct Item {
    pub dimensions: Location,
    pub preferred: Option<Location>,
}

/// A rectangle of extent `dims` at `at` lies on the grid and shares no cell
/// with a rectangle of `taken`.
pub open spec fn fits_at(rows: int, cols: int, taken: Seq<Region>, dims: Location, at: Location) -> bool {
    &&& (Region { location: at, dimensions: dims }).inside(rows, cols)
    &&& forall|i: int|
        0 <= i < taken.len() ==> !(Region { location: at, dimensions: dims }).overlaps(
            #[trigger] taken[i],
        )
}

/// `a` comes before `b` in reading order.
pub open spec fn precedes(a: Location, b: Location) -> bool {
    a.y < b.y || (a.y == b.y && a.x < b.x)
}

/// `at` is the first position in reading order at which the rectangle fits.
pub open spec fn is_first_fit(rows: int, cols: int, taken: Seq<Region>, dims: Location, at: Location) -> bool {
    &&& fits_at(rows, cols, taken, dims, at)
    &&& forall|other: Location| #[trigger]
        fits_at(rows, cols, taken, dims, other) ==> !precedes(other, at)
}

/// The first position in reading order at which the rectangle fits.
pub open spec fn first_fit(rows: int, cols: int, taken: Seq<Region>, dims: Location) -> Option<Location> {
    if exists|at: Location| is_first_fit(rows, cols, taken, dims, at) {
        Some(choose|at: Location| is_first_fit(rows, cols, taken, dims, at))
    } else {
        None
    }
}

/// The position of one rectangle: the preferred one if the rectangle fits
/// there, else the first at which it fits.
pub open spec fn place_one(rows: int, cols: int, taken: Seq<Region>, item: Item) -> Option<Location> {
    if item.preferred.is_some() && fits_at(rows, cols, taken, item.dimensions, item.preferred.unwrap()) {
        item.preferred
    } else {
        first_fit(rows, cols, taken, item.dimensions)
    }
}

/// The rectangles of the first items, each at its position.
pub open spec fn placed(items: Seq<Item>, spots: Seq<Location>) -> Seq<Region> {
    Seq::new(spots.len(), |i: int| Region { location: spots[i], dimensions: items[i].dimensions })
}

/// The positions of the first `k` items, each placed clear of `base` and of
/// the items before it; or the place of the first item for which no
/// position is left.
pub open spec fn pack(rows: int, cols: int, base: Seq<Region>, items: Seq<Item>, k: nat) -> Result<
    Seq<Location>,
    nat,
>
    decreases k,
{
    if k == 0 {
        Ok(Seq::empty())
    } else {
        match pack(rows, cols, base, items, (k - 1) as nat) {
            Err(i) => Err(i),
            Ok(spots) => match place_one(rows, cols, base + placed(items, spots), items[k - 1]) {
                None => Err((k - 1) as nat),
                Some(at) => Ok(spots.push(at)),
            },
        }
    }
}

/// Each of the rectangles lies on the grid, and none of them shares a cell
/// with another or with a rectangle of `base`.
pub open spec fn packing_sound(
    rows: int,
    cols: int,
    base: Seq<Region>,
    items: Seq<Item>,
    spots: Seq<Location>,
) -> bool {
    &&& spots.len() <= items.len()
    &&& forall|i: int| 0 <= i < spots.len() ==> (#[trigger] placed(items, spots)[i]).inside(rows, cols)
    &&& forall|i: int, b: int|
        0 <= i < spots.len() && 0 <= b < base.len() ==> !(#[trigger] placed(items, spots)[i]).overlaps(
            #[trigger] base[b],
        )
    &&& forall|i: int, j: int|
        0 <= i < j < spots.len() ==> !(#[trigger] placed(items, spots)[i]).overlaps(
            #[trigger] placed(items, spots)[j],
        )
}

/// The droplets that the first `n` requests consume, given what each
/// request consumes.
pub open spec fn moving(inputs: Seq<Seq<DropletId>>, n: nat) -> Seq<DropletId>
    decreases n,
{
    if n == 0 {
        Seq::empty()
    } else {
        moving(inputs, (n - 1) as nat) + inputs[n - 1]
    }
}

/// The cells under those of the first `n` residents that are not in
/// `batch`.
pub open spec fn others(residents: Seq<Droplet>, batch: Seq<DropletId>, n: nat) -> Seq<Region>
    decreases n,
{
    if n == 0 {
        Seq::empty()
    } else {
        let rest = others(residents, batch, (n - 1) as nat);
        if batch.contains(residents[n - 1].id) {
            rest
        } else {
            rest.push(residents[n - 1].region())
        }
    }
}

/// The first among the first `n` of `stored` that is not resident.
pub open spec fn first_unknown(gridview: &GridView, stored: Seq<DropletId>, n: nat) -> Option<DropletId>
    decreases n,
{
    if n == 0 {
        None
    } else {
        match first_unknown(gridview, stored, (n - 1) as nat) {
            Some(id) => Some(id),
            None => if gridview.contains(stored[n - 1]) {
                None
            } else {
                Some(stored[n - 1])
            },
        }
    }
}

/// The droplets of a batch: those to park and those that the requests
/// consume.
pub open spec fn batch_of(stored: Seq<DropletId>, inputs: Seq<Seq<DropletId>>) -> Seq<DropletId> {
    stored + moving(inputs, inputs.len())
}

/// What is in the way from the start: the rectangles that commands already
/// hold, and the resident droplets that are not of the batch.
pub open spec fn base_of(gridview: &GridView, fixed: Seq<Placement>, batch: Seq<DropletId>) -> Seq<Region> {
    Seq::new(fixed.len(), |i: int| fixed[i].region()) + others(
        gridview.droplets(),
        batch,
        gridview.droplets().len(),
    )
}

/// The rectangles to place: one of each of `shapes`, then one for each
/// droplet to park, of the droplet's extent and by preference where the
/// droplet is.
pub open spec fn items_of(gridview: &GridView, shapes: Seq<Location>, stored: Seq<DropletId>) -> Seq<Item> {
    Seq::new(
        shapes.len() + stored.len(),
        |i: int|
            if i < shapes.len() {
                Item { dimensions: shapes[i], preferred: None }
            } else {
                let droplet = gridview.lookup(stored[i - shapes.len()]).unwrap();
                Item { dimensions: droplet.dimensions, preferred: Some(droplet.location) }
            },
    )
}

/// What placing answers for requests of the extents `shapes` that consume
/// `inputs`, with the droplets `stored` to park: the position of each
/// rectangle, the requests first; or the first droplet to park that is not
/// resident; or the place of the first rectangle for which no position is
/// left.
pub open spec fn place_outcome(
    gridview: &GridView,
    fixed: Seq<Placement>,
    shapes: Seq<Location>,
    inputs: Seq<Seq<DropletId>>,
    stored: Seq<DropletId>,
) -> Result<Seq<Location>, PlacementError> {
    match first_unknown(gridview, stored, stored.len()) {
        Some(id) => Err(PlacementError::UnknownDroplet(id)),
        None => match pack(
            gridview.rows() as int,
            gridview.cols() as int,
            base_of(gridview, fixed, batch_of(stored, inputs)),
            items_of(gridview, shapes, stored),
            shapes.len() + stored.len(),
        ) {
            Ok(spots) => Ok(spots),
            Err(i) => Err(PlacementError::NoRoom(i as usize)),
        },
    }
}

impl<'a> PlacementRequest<'a> {
    /// The extent of each request's rectangle.
    pub open spec fn shapes(&self) -> Seq<Location> {
        Seq::new(self.commands@.len(), |i: int| self.commands@[i].shape)
    }

    /// The droplets that each request consumes.
    pub open spec fn inputs(&self) -> Seq<Seq<DropletId>> {
        Seq::new(self.commands@.len(), |i: int| self.commands@[i].inputs@)
    }

    /// The droplets of the batch.
    pub open spec fn batch(&self) -> Seq<DropletId> {
        batch_of(self.stored_droplets@, self.inputs())
    }

    /// What is in the way from the start.
    pub open spec fn base(&self) -> Seq<Region> {
        base_of(self.gridview, self.fixed_commands@, self.batch())
    }

    /// The rectangles to place.
    pub open spec fn items(&self) -> Seq<Item> {
        items_of(self.gridview, self.shapes(), self.stored_droplets@)
    }

    /// What `place` answers: the position of each rectangle, or the error.
    pub open spec fn outcome(&self) -> Result<Seq<Location>, PlacementError> {
        place_outcome(
            self.gridview,
            self.fixed_commands@,
            self.shapes(),
            self.inputs(),
            self.stored_droplets@,
        )
    }
}

impl PlacementResponse {
    /// The position of each rectangle, the requests first.
    pub open spec fn spots(&self) -> Seq<Location> {
        Seq::new(self.commands@.len(), |i: int| self.commands@[i].offset) + self.stored_droplets@
    }
}

/// Where a rectangle fits at all, it has a first position.
pub proof fn lemma_first_fit_exists(rows: int, cols: int, taken: Seq<Region>, dims: Location, at: Location)
    requires
        fits_at(rows, cols, taken, dims, at),
    ensures
        exists|first: Location| is_first_fit(rows, cols, taken, dims, first),
    decreases at.y, at.x,
{
    if exists|other: Location| fits_at(rows, cols, taken, dims, other) && precedes(other, at) {
        let other = choose|other: Location| fits_at(rows, cols, taken, dims, other) && precedes(other, at);
        lemma_first_fit_exists(rows, cols, taken, dims, other);
    } else {
        assert(is_first_fit(rows, cols, taken, dims, at));
    }
}

/// A rectangle has no position exactly when it fits nowhere; the position
/// it has is one at which it fits.
pub proof fn lemma_place_one(rows: int, cols: int, taken: Seq<Region>, item: Item)
    ensures
        match place_one(rows, cols, taken, item) {
            Some(at) => fits_at(rows, cols, taken, item.dimensions, at),
            None => forall|at: Location| !fits_at(rows, cols, taken, item.dimensions, at),
        },
{
    if place_one(rows, cols, taken, item).is_none() {
        assert forall|at: Location| !fits_at(rows, cols, taken, item.dimensions, at) by {
            if fits_at(rows, cols, taken, item.dimensions, at) {
                lemma_first_fit_exists(rows, cols, taken, item.dimensions, at);
            }
        }
    }
}

/// The positions that `pack` gives are sound, one for each item asked for.
pub proof fn lemma_pack_sound(rows: int, cols: int, base: Seq<Region>, items: Seq<Item>, k: nat)
    requires
        k <= items.len(),
        pack(rows, cols, base, items, k).is_ok(),
    ensures
        pack(rows, cols, base, items, k)->Ok_0.len() == k,
        packing_sound(rows, cols, base, items, pack(rows, cols, base, items, k)->Ok_0),
    decreases k,
{
    if k > 0 {
        lemma_pack_sound(rows, cols, base, items, (k - 1) as nat);
        let before = pack(rows, cols, base, items, (k - 1) as nat)->Ok_0;
        let taken = base + placed(items, before);
        lemma_place_one(rows, cols, taken, items[k - 1]);
        let at = place_one(rows, cols, taken, items[k - 1]).unwrap();
        let spots = before.push(at);
        let last = Region { location: at, dimensions: items[k - 1].dimensions };
        assert(placed(items, spots)[k - 1] == last);
        assert forall|i: int| 0 <= i < k - 1 implies #[trigger] placed(items, spots)[i] == placed(
            items,
            before,
        )[i] by {}
        assert forall|i: int, b: int| 0 <= i < spots.len() && 0 <= b < base.len() implies !(
        #[trigger] placed(items, spots)[i]).overlaps(#[trigger] base[b]) by {
            if i == k - 1 {
                assert(taken[b] == base[b]);
            } else {
                assert(placed(items, spots)[i] == placed(items, before)[i]);
            }
        }
        assert forall|i: int, j: int| 0 <= i < j < spots.len() implies !(#[trigger] placed(
            items,
            spots,
        )[i]).overlaps(#[trigger] placed(items, spots)[j]) by {
            assert(placed(items, spots)[i] == placed(items, before)[i]);
            if j == k - 1 {
                assert(taken[base.len() + i] == placed(items, before)[i]);
            } else {
                assert(placed(items, spots)[j] == placed(items, before)[j]);
            }
        }
        assert forall|i: int| 0 <= i < spots.len() implies (#[trigger] placed(items, spots)[i]).inside(
            rows,
            cols,
        ) by {
            if i < k - 1 {
                assert(placed(items, spots)[i] == placed(items, before)[i]);
            }
        }
    }
}

/// An item without a position leaves the later ones without, under the same
/// place.
pub proof fn lemma_pack_fails(rows: int, cols: int, base: Seq<Region>, items: Seq<Item>, k: nat, n: nat)
    requires
        k <= n,
        pack(rows, cols, base, items, k).is_err(),
    ensures
        pack(rows, cols, base, items, n) == pack(rows, cols, base, items, k),
    decreases n,
{
    if k < n {
        lemma_pack_fails(rows, cols, base, items, k, (n - 1) as nat);
    }
}

/// The rectangle for which no position is left fits nowhere on the grid,
/// clear of `base` and of the rectangles placed before it.
pub proof fn lemma_no_room(rows: int, cols: int, base: Seq<Region>, items: Seq<Item>, n: nat, k: nat)
    requires
        pack(rows, cols, base, items, n) == Err::<Seq<Location>, nat>(k),
    ensures
        k < n,
        pack(rows, cols, base, items, k).is_ok(),
        forall|at: Location|
            !fits_at(
                rows,
                cols,
                base + placed(items, pack(rows, cols, base, items, k)->Ok_0),
                items[k as int].dimensions,
                at,
            ),
    decreases n,
{
    if n > 0 {
        match pack(rows, cols, base, items, (n - 1) as nat) {
            Err(i) => {
                lemma_no_room(rows, cols, base, items, (n - 1) as nat, k);
            },
            Ok(spots) => {
                lemma_place_one(rows, cols, base + placed(items, spots), items[n - 1]);
            },
        }
    }
}

/// Where none of the first droplets is unknown, each of them is resident.
pub proof fn lemma_all_known(gridview: &GridView, stored: Seq<DropletId>, n: nat, j: int)
    requires
        first_unknown(gridview, stored, n).is_none(),
        0 <= j < n,
    ensures
        gridview.contains(stored[j]),
    decreases n,
{
    if j < n - 1 {
        lemma_all_known(gridview, stored, (n - 1) as nat, j);
    }
}

/// An unknown droplet among the first stays the first unknown among more.
pub proof fn lemma_unknown_stays(gridview: &GridView, stored: Seq<DropletId>, k: nat, n: nat)
    requires
        k <= n,
        first_unknown(gridview, stored, k).is_some(),
    ensures
        first_unknown(gridview, stored, n) == first_unknown(gridview, stored, k),
    decreases n,
{
    if k < n {
        lemma_unknown_stays(gridview, stored, k, (n - 1) as nat);
    }
}

/// Whether `r` shares no cell with a rectangle of `taken`.
fn is_free(taken: &Vec<Region>, r: &Region) -> (free: bool)
    ensures
        free == (forall|i: int| 0 <= i < taken@.len() ==> !r.overlaps(#[trigger] taken@[i])),
{
    let mut i: usize = 0;
    while i < taken.len()
        invariant
            i <= taken@.len(),
            forall|k: int| 0 <= k < i ==> !r.overlaps(#[trigger] taken@[k]),
        decreases taken@.len() - i,
    {
        if r.intersects(&taken[i]) {
            return false;
        }
        i += 1;
    }
    true
}

/// The first position in reading order at which a rectangle of extent
/// `dims` fits.
#[verifier::loop_isolation(false)]
fn find_first_fit(height: i32, width: i32, taken: &Vec<Region>, dims: Location) -> (r: Option<Location>)
    ensures
        r == first_fit(height as int, width as int, taken@, dims),
        r.is_none() ==> forall|at: Location| !fits_at(height as int, width as int, taken@, dims, at),
{
    let ghost rows = height as int;
    let ghost cols = width as int;
    if dims.y <= 0 || dims.x <= 0 || dims.y > height || dims.x > width {
        assert forall|at: Location| !fits_at(rows, cols, taken@, dims, at) by {}
        return None;
    }
    let mut y: i32 = 0;
    while y <= height - dims.y
        invariant
            0 <= y <= height - dims.y + 1,
            forall|at: Location| at.y < y ==> !#[trigger] fits_at(rows, cols, taken@, dims, at),
        decreases height - dims.y + 1 - y,
    {
        let mut x: i32 = 0;
        while x <= width - dims.x
            invariant
                0 <= x <= width - dims.x + 1,
                0 <= y <= height - dims.y,
                forall|at: Location|
                    at.y < y || (at.y == y && at.x < x) ==> !#[trigger] fits_at(
                        rows,
                        cols,
                        taken@,
                        dims,
                        at,
                    ),
            decreases width - dims.x + 1 - x,
        {
            let at = Location { y, x };
            let r = Region::new(at, dims);
            if is_free(taken, &r) {
                proof {
                    assert(fits_at(rows, cols, taken@, dims, at));
                    assert(is_first_fit(rows, cols, taken@, dims, at));
                    let chosen = choose|c: Location| is_first_fit(rows, cols, taken@, dims, c);
                    assert(fits_at(rows, cols, taken@, dims, chosen));
                    assert(!precedes(chosen, at) && !precedes(at, chosen));
                }
                return Some(at);
            }
            assert(!fits_at(rows, cols, taken@, dims, at));
            x += 1;
        }
        y += 1;
    }
    None
}

/// The position of one rectangle.
fn place_item(height: i32, width: i32, taken: &Vec<Region>, dims: Location, preferred: Option<Location>) -> (r:
    Option<Location>)
    ensures
        r == place_one(height as int, width as int, taken@, Item { dimensions: dims, preferred }),
{
    match preferred {
        Some(at) => {
            let here = Region::new(at, dims);
            if here.fits_grid(height, width) && is_free(taken, &here) {
                return Some(at);
            }
        },
        None => {},
    }
    find_first_fit(height, width, taken, dims)
}

/// The droplets to park and the names of the droplets of the batch; or the
/// first droplet to park that is not resident.
#[verifier::loop_isolation(false)]
fn gather(req: &PlacementRequest) -> (r: Result<(Vec<Droplet>, Vec<DropletId>), DropletId>)
    ensures
        match r {
            Ok((parked, batch)) => {
                &&& first_unknown(
                    req.gridview,
                    req.stored_droplets@,
                    req.stored_droplets@.len(),
                ).is_none()
                &&& parked@.len() == req.stored_droplets@.len()
                &&& forall|q: int|
                    0 <= q < parked@.len() ==> req.gridview.lookup(req.stored_droplets@[q]) == Some(
                        #[trigger] parked@[q],
                    )
                &&& batch@ == req.batch()
            },
            Err(id) => first_unknown(req.gridview, req.stored_droplets@, req.stored_droplets@.len())
                == Some(id),
        },
{
    let gridview = req.gridview;
    let n_stored = req.stored_droplets.len();
    let n_commands = req.commands.len();
    let ghost stored = req.stored_droplets@;
    let ghost commands = req.inputs();
    let mut parked: Vec<Droplet> = Vec::new();
    let mut batch: Vec<DropletId> = Vec::new();
    let mut j: usize = 0;
    while j < n_stored
        invariant
            j <= n_stored,
            first_unknown(gridview, stored, j as nat).is_none(),
            parked@.len() == j,
            forall|q: int| 0 <= q < j ==> gridview.lookup(stored[q]) == Some(#[trigger] parked@[q]),
            batch@ == stored.take(j as int),
        decreases n_stored - j,
    {
        let id = req.stored_droplets[j];
        match gridview.get(id) {
            None => {
                proof {
                    lemma_unknown_stays(gridview, stored, (j + 1) as nat, n_stored as nat);
                }
                return Err(id);
            },
            Some(droplet) => {
                parked.push(droplet);
                batch.push(id);
                assert(batch@ =~= stored.take(j as int + 1));
            },
        }
        j += 1;
    }
    assert(stored.take(n_stored as int) =~= stored);
    let mut c: usize = 0;
    while c < n_commands
        invariant
            c <= n_commands,
            batch@ == stored + moving(commands, c as nat),
        decreases n_commands - c,
    {
        let mut inputs = copy_ids(&req.commands[c].inputs);
        batch.append(&mut inputs);
        assert(batch@ =~= stored + moving(commands, (c + 1) as nat));
        c += 1;
    }
    assert(commands.len() == n_commands);
    Ok((parked, batch))
}

/// What is in the way from the start.
#[verifier::loop_isolation(false)]
fn obstacles(req: &PlacementRequest, batch: &Vec<DropletId>) -> (taken: Vec<Region>)
    requires
        batch@ == req.batch(),
    ensures
        taken@ == req.base(),
{
    let gridview = req.gridview;
    let ghost residents = gridview.droplets();
    let mut taken: Vec<Region> = Vec::new();
    let mut f: usize = 0;
    while f < req.fixed_commands.len()
        invariant
            f <= req.fixed_commands@.len(),
            taken@.len() == f,
            forall|q: int| 0 <= q < f ==> #[trigger] taken@[q] == req.fixed_commands@[q].region(),
        decreases req.fixed_commands@.len() - f,
    {
        taken.push(req.fixed_commands[f].footprint());
        f += 1;
    }
    let ghost fixed = taken@;
    assert(fixed =~= Seq::new(req.fixed_commands@.len(), |i: int| req.fixed_commands@[i].region()));
    let mut d: usize = 0;
    while d < gridview.len()
        invariant
            d <= residents.len(),
            taken@ == fixed + others(residents, batch@, d as nat),
        decreases residents.len() - d,
    {
        let droplet = gridview.nth(d);
        if !holds_id(batch, droplet.id) {
            taken.push(droplet.footprint());
            assert(taken@ =~= fixed + others(residents, batch@, (d + 1) as nat));
        }
        d += 1;
    }
    taken
}

/// Places the next rectangle, of extent `dims` and by preference at
/// `preferred`, and says whether it found a position.
fn settle(
    height: i32,
    width: i32,
    taken: &mut Vec<Region>,
    spots: &mut Vec<Location>,
    dims: Location,
    preferred: Option<Location>,
    Ghost(base): Ghost<Seq<Region>>,
    Ghost(items): Ghost<Seq<Item>>,
) -> (r: bool)
    requires
        old(spots)@.len() < items.len(),
        items[old(spots)@.len() as int] == (Item { dimensions: dims, preferred }),
        pack(height as int, width as int, base, items, old(spots)@.len()) == Ok::<Seq<Location>, nat>(
            old(spots)@,
        ),
        old(taken)@ == base + placed(items, old(spots)@),
    ensures
        r ==> final(spots)@.len() == old(spots)@.len() + 1,
        r ==> final(spots)@.take(old(spots)@.len() as int) == old(spots)@,
        r ==> pack(height as int, width as int, base, items, final(spots)@.len()) == Ok::<
            Seq<Location>,
            nat,
        >(final(spots)@),
        r ==> final(taken)@ == base + placed(items, final(spots)@),
        !r ==> pack(height as int, width as int, base, items, items.len()) == Err::<
            Seq<Location>,
            nat,
        >(old(spots)@.len()),
        !r ==> final(spots)@ == old(spots)@,
{
    let ghost k = spots@.len();
    match place_item(height, width, taken, dims, preferred) {
        None => {
            proof {
                assert(pack(height as int, width as int, base, items, (k + 1) as nat).is_err());
                lemma_pack_fails(height as int, width as int, base, items, (k + 1) as nat, items.len());
            }
            false
        },
        Some(at) => {
            let ghost before = spots@;
            spots.push(at);
            taken.push(Region::new(at, dims));
            assert(taken@ =~= base + placed(items, spots@));
            assert(spots@.take(k as int) =~= before);
            true
        },
    }
}

/// Assigns rectangles of the grid to the requests of a batch and to the
/// droplets that wait.
pub struct Placer {}

impl Placer {
    pub fn new() -> (placer: Placer)
        ensures
            placer == (Placer {  }),
    {
        Placer {  }
    }

    /// Places the batch: see `PlacementRequest::outcome`. The rectangles
    /// that are handed back lie on the grid, and none of them shares a cell
    /// with another, with a rectangle that a command already holds, or with
    /// a resident droplet that is not of the batch.
    pub fn place(&mut self, req: PlacementRequest) -> (r: Result<PlacementResponse, PlacementError>)
        ensures
            match r {
                Ok(resp) => {
                    &&& req.outcome() == Ok::<Seq<Location>, PlacementError>(resp.spots())
                    &&& resp.commands@.len() == req.commands@.len()
                    &&& resp.stored_droplets@.len() == req.stored_droplets@.len()
                    &&& forall|i: int|
                        0 <= i < resp.commands@.len() ==> (#[trigger] resp.commands@[i]).shape
                            == req.commands@[i].shape
                    &&& packing_sound(
                        req.gridview.rows() as int,
                        req.gridview.cols() as int,
                        req.base(),
                        req.items(),
                        resp.spots(),
                    )
                },
                Err(e) => req.outcome() == Err::<Seq<Location>, PlacementError>(e),
            },
    {
        let height = req.gridview.height();
        let width = req.gridview.width();
        let ghost rows = height as int;
        let ghost cols = width as int;
        let n_commands = req.commands.len();
        let n_stored = req.stored_droplets.len();
        let ghost commands = req.commands@;
        let (parked, batch) = match gather(&req) {
            Ok(found) => found,
            Err(id) => {
                return Err(PlacementError::UnknownDroplet(id));
            },
        };
        let mut taken = obstacles(&req, &batch);
        let ghost base = req.base();
        let ghost items = req.items();
        let mut placements: Vec<Placement> = Vec::new();
        let mut spots: Vec<Location> = Vec::new();
        let mut k: usize = 0;
        assert(base + placed(items, spots@) =~= base);
        while k < n_commands
            invariant
                n_commands == commands.len(),
                commands == req.commands@,
                items == req.items(),
                items.len() == n_commands + n_stored,
                rows == height as int,
                cols == width as int,
                rows == req.gridview.rows(),
                cols == req.gridview.cols(),
                base == req.base(),
                first_unknown(req.gridview, req.stored_droplets@, req.stored_droplets@.len()).is_none(),
                k <= n_commands,
                spots@.len() == k,
                placements@.len() == k,
                pack(rows, cols, base, items, k as nat) == Ok::<Seq<Location>, nat>(spots@),
                taken@ == base + placed(items, spots@),
                forall|q: int|
                    0 <= q < k ==> #[trigger] placements@[q] == (Placement {
                        offset: spots@[q],
                        shape: commands[q].shape,
                    }),
            decreases n_commands - k,
        {
            let shape = req.commands[k].shape;
            let ghost before = spots@;
            if !settle(height, width, &mut taken, &mut spots, shape, None, Ghost(base), Ghost(items)) {
                return Err(PlacementError::NoRoom(k));
            }
            assert(forall|q: int| 0 <= q < k ==> spots@[q] == #[trigger] before[q]) by {
                assert(spots@.take(k as int) == before);
                assert forall|q: int| 0 <= q < k implies spots@[q] == #[trigger] before[q] by {
                    assert(spots@.take(k as int)[q] == spots@[q]);
                }
            }
            placements.push(Placement { offset: spots[k], shape });
            k += 1;
        }
        let mut stored_droplets: Vec<Location> = Vec::new();
        let mut s: usize = 0;
        while s < n_stored
            invariant
                n_commands == commands.len(),
                commands == req.commands@,
                n_stored == req.stored_droplets@.len(),
                parked@.len() == n_stored,
                forall|q: int|
                    0 <= q < parked@.len() ==> req.gridview.lookup(req.stored_droplets@[q]) == Some(
                        #[trigger] parked@[q],
                    ),
                items == req.items(),
                items.len() == n_commands + n_stored,
                rows == height as int,
                cols == width as int,
                rows == req.gridview.rows(),
                cols == req.gridview.cols(),
                base == req.base(),
                first_unknown(req.gridview, req.stored_droplets@, req.stored_droplets@.len()).is_none(),
                s <= n_stored,
                spots@.len() == n_commands + s,
                stored_droplets@.len() == s,
                placements@.len() == n_commands,
                pack(rows, cols, base, items, (n_commands + s) as nat) == Ok::<Seq<Location>, nat>(
                    spots@,
                ),
                taken@ == base + placed(items, spots@),
                forall|q: int|
                    0 <= q < n_commands ==> #[trigger] placements@[q] == (Placement {
                        offset: spots@[q],
                        shape: commands[q].shape,
                    }),
                forall|q: int| 0 <= q < s ==> #[trigger] stored_droplets@[q] == spots@[n_commands + q],
            decreases n_stored - s,
        {
            let droplet = parked[s];
            let index = spots.len();
            let ghost before = spots@;
            assert(req.gridview.lookup(req.stored_droplets@[s as int]) == Some(parked@[s as int]));
            if !settle(
                height,
                width,
                &mut taken,
                &mut spots,
                droplet.dimensions,
                Some(droplet.location),
                Ghost(base),
                Ghost(items),
            ) {
                return Err(PlacementError::NoRoom(index));
            }
            assert(forall|q: int| 0 <= q < index ==> spots@[q] == #[trigger] before[q]) by {
                assert(spots@.take(index as int) == before);
                assert forall|q: int| 0 <= q < index implies spots@[q] == #[trigger] before[q] by {
                    assert(spots@.take(index as int)[q] == spots@[q]);
                }
            }
            stored_droplets.push(spots[index]);
            s += 1;
        }
        let resp = PlacementResponse { commands: placements, stored_droplets };
        proof {
            assert(resp.spots() =~= spots@);
            lemma_pack_sound(rows, cols, base, items, items.len());
        }
        Ok(resp)
    }
}

} // verus!
