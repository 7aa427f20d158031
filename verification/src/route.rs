//! Routing: paths for all droplets that move in one tick, such that no two
//! of them ever share a cell.
//!
//! Agents are routed one after the other, in the order of the request. An
//! agent treats the paths of those before it as moving obstacles, each
//! holding its destination once it has arrived, and takes the earliest
//! arrival from which it can hold its own destination for good.

use crate::geometry::{Location, Region};
use crate::grid::{Droplet, DropletId, GridView};
use crate::horizon::lemma_no_route_ever;
use crate::route_map::{filed, route_entries, routes_insert, routes_new};
use indexmap::IndexMap;
use vstd::prelude::*;

verus! {

/// Where a droplet is at each time step, from the first step on.
pub type Path = Vec<Location>;

/// One droplet's move in this tick.
#[derive(Clone, Copy, Debug, PartialEq, Eq, Structural)]
pub struct Agent {
    pub id: DropletId,
    pub source: Location,
    pub destination: Location,
    pub dimensions: Location,
}

impl Agent {
    /// The move of `droplet` from where it is to `destination`.
    pub fn from_droplet(droplet: &Droplet, destination: Location) -> (agent: Agent)
        ensures
            agent == (Agent {
                id: droplet.id,
                source: droplet.location,
                destination,
                dimensions: droplet.dimensions,
            }),
    {
        Agent {
            id: droplet.id,
            source: droplet.location,
            destination,
            dimensions: droplet.dimensions,
        }
    }
}

/// The cells under `agent` when its top-left cell is `at`.
pub open spec fn footprint(agent: Agent, at: Location) -> Region {
    Region { location: at, dimensions: agent.dimensions }
}

/// Where a droplet on `path` is at time `t`: on the path while it lasts, at
/// its last cell from then on.
pub open spec fn position_at(path: Seq<Location>, t: int) -> Location {
    if t < path.len() {
        path[t]
    } else {
        path[path.len() - 1]
    }
}

/// The length of the longest of `paths`.
pub open spec fn longest(paths: Seq<Seq<Location>>) -> nat
    decreases paths.len(),
{
    if paths.len() == 0 {
        0
    } else {
        let rest = longest(paths.drop_last());
        if paths.last().len() > rest {
            paths.last().len()
        } else {
            rest
        }
    }
}

/// The cell from which `c` is entered in direction `dir`: 0 stays, 1 comes
/// from the row above, 2 from the row below, 3 from the column to the left,
/// 4 from the column to the right.
pub open spec fn prior(c: Location, dir: int) -> Location {
    if dir == 1 {
        Location { y: (c.y - 1) as i32, x: c.x }
    } else if dir == 2 {
        Location { y: (c.y + 1) as i32, x: c.x }
    } else if dir == 3 {
        Location { y: c.y, x: (c.x - 1) as i32 }
    } else if dir == 4 {
        Location { y: c.y, x: (c.x + 1) as i32 }
    } else {
        c
    }
}

/// A droplet may go from `a` to `b` in one time step: it stays, or moves by
/// one cell along a row or a column.
pub open spec fn is_step(a: Location, b: Location) -> bool {
    ||| (a.y == b.y && (a.x == b.x || a.x == b.x - 1 || a.x == b.x + 1))
    ||| (a.x == b.x && (a.y == b.y - 1 || a.y == b.y + 1))
}

/// What routing is asked: the grid, the cells that are forbidden, and the
/// agents in the order in which they are routed.
pub struct Scene {
    pub rows: i32,
    pub cols: i32,
    pub blockages: Seq<Location>,
    pub agents: Seq<Agent>,
}

impl Scene {
    /// The agent that is routed once `done` are the paths of those before it.
    pub open spec fn mover(self, done: Seq<Seq<Location>>) -> Agent {
        self.agents[done.len() as int]
    }

    /// With its top-left cell at `c`, `agent` lies on the grid and on no
    /// forbidden cell.
    pub open spec fn open_at(self, agent: Agent, c: Location) -> bool {
        &&& footprint(agent, c).inside(self.rows as int, self.cols as int)
        &&& forall|b: int|
            0 <= b < self.blockages.len() ==> !footprint(agent, c).overlaps(
                Region::cell(#[trigger] self.blockages[b]),
            )
    }

    /// With its top-left cell at `c` at time `t`, `agent` shares no cell with
    /// an agent on one of the paths `done`.
    pub open spec fn apart(self, done: Seq<Seq<Location>>, agent: Agent, c: Location, t: int) -> bool {
        forall|j: int|
            0 <= j < done.len() ==> !footprint(agent, c).overlaps(
                footprint(self.agents[j], position_at(#[trigger] done[j], t)),
            )
    }

    /// The agent being routed may be at `c` at time `t`.
    pub open spec fn clear(self, done: Seq<Seq<Location>>, c: Location, t: int) -> bool {
        &&& self.open_at(self.mover(done), c)
        &&& self.apart(done, self.mover(done), c, t)
    }

    /// The agent being routed can be at `c` at time `t`: it starts at its
    /// source, makes one step at a time, and is in the clear all the way.
    pub open spec fn reach(self, done: Seq<Seq<Location>>, t: nat, c: Location) -> bool
        decreases t,
    {
        &&& self.clear(done, c, t as int)
        &&& if t == 0 {
            c == self.mover(done).source
        } else {
            ||| self.reach(done, (t - 1) as nat, prior(c, 0))
            ||| self.reach(done, (t - 1) as nat, prior(c, 1))
            ||| self.reach(done, (t - 1) as nat, prior(c, 2))
            ||| self.reach(done, (t - 1) as nat, prior(c, 3))
            ||| self.reach(done, (t - 1) as nat, prior(c, 4))
        }
    }

    /// From time `t` on the agent being routed can hold its destination.
    pub open spec fn rests(self, done: Seq<Seq<Location>>, t: nat) -> bool {
        forall|u: int| u >= t ==> #[trigger] self.clear(done, self.mover(done).destination, u)
    }

    /// The agent being routed can be at its destination at time `t` and hold
    /// it from then on.
    pub open spec fn arrives(self, done: Seq<Seq<Location>>, t: nat) -> bool {
        self.reach(done, t, self.mover(done).destination) && self.rests(done, t)
    }

    /// The number of cells of the grid.
    pub open spec fn cells(self) -> int {
        if self.rows > 0 && self.cols > 0 {
            self.rows * self.cols
        } else {
            0
        }
    }

    /// The latest time of arrival that is tried: by the time the longest of
    /// the paths `done` has ended, every cell of the grid could have been
    /// visited once more.
    pub open spec fn horizon(self, done: Seq<Seq<Location>>) -> int {
        longest(done) + self.cells()
    }

    /// `t` is the earliest time of arrival, and within the horizon.
    pub open spec fn first_arrival(self, done: Seq<Seq<Location>>, t: nat) -> bool {
        &&& t <= self.horizon(done)
        &&& self.arrives(done, t)
        &&& forall|u: nat| u < t ==> !#[trigger] self.arrives(done, u)
    }

    /// The first of the cells `prior(c, 0)`, .., `prior(c, 4)` at which the
    /// agent being routed can be at time `t`.
    pub open spec fn first_prior(self, done: Seq<Seq<Location>>, t: nat, c: Location) -> Location {
        if self.reach(done, t, prior(c, 0)) {
            prior(c, 0)
        } else if self.reach(done, t, prior(c, 1)) {
            prior(c, 1)
        } else if self.reach(done, t, prior(c, 2)) {
            prior(c, 2)
        } else if self.reach(done, t, prior(c, 3)) {
            prior(c, 3)
        } else {
            prior(c, 4)
        }
    }

    /// The cell at time `i` on the path that arrives at time `last`: going
    /// back from the destination, each cell is entered from the first cell
    /// from which it can be.
    pub open spec fn back(self, done: Seq<Seq<Location>>, last: nat, i: nat) -> Location
        decreases last - i,
    {
        if i >= last {
            self.mover(done).destination
        } else {
            self.first_prior(done, i, self.back(done, last, i + 1))
        }
    }

    /// The path that arrives at time `last`.
    pub open spec fn trace(self, done: Seq<Seq<Location>>, last: nat) -> Seq<Location> {
        Seq::new(last + 1, |i: int| self.back(done, last, i as nat))
    }

    /// The path of the agent routed after `done`: the one that arrives
    /// first, if any arrives within the horizon.
    pub open spec fn route_of(self, done: Seq<Seq<Location>>) -> Option<Seq<Location>> {
        if exists|t: nat| self.first_arrival(done, t) {
            Some(self.trace(done, choose|t: nat| self.first_arrival(done, t)))
        } else {
            None
        }
    }

    /// The paths of the first `k` agents, if each of them has one.
    pub open spec fn planned(self, k: nat) -> Option<Seq<Seq<Location>>>
        decreases k,
    {
        if k == 0 {
            Some(Seq::empty())
        } else {
            match self.planned((k - 1) as nat) {
                None => None,
                Some(done) => match self.route_of(done) {
                    None => None,
                    Some(path) => Some(done.push(path)),
                },
            }
        }
    }

    /// `path` is a way for `agent` from its source to its destination: on
    /// the grid, off the forbidden cells, one step at a time.
    pub open spec fn leads(self, agent: Agent, path: Seq<Location>) -> bool {
        &&& path.len() > 0
        &&& path[0] == agent.source
        &&& path[path.len() - 1] == agent.destination
        &&& forall|i: int| 0 <= i < path.len() ==> self.open_at(agent, #[trigger] path[i])
        &&& forall|i: int| 0 <= i < path.len() - 1 ==> is_step(#[trigger] path[i], path[i + 1])
    }

    /// The paths, one for each of the first agents, lead each agent to its
    /// destination, and at no time do two of the agents share a cell, each
    /// holding its destination when its path has ended.
    pub open spec fn sound(self, paths: Seq<Seq<Location>>) -> bool {
        &&& paths.len() <= self.agents.len()
        &&& forall|k: int| 0 <= k < paths.len() ==> self.leads(self.agents[k], #[trigger] paths[k])
        &&& forall|i: int, j: int, t: int|
            0 <= i < j < paths.len() && 0 <= t ==> !footprint(
                self.agents[i],
                #[trigger] position_at(paths[i], t),
            ).overlaps(footprint(self.agents[j], #[trigger] position_at(paths[j], t)))
    }
}

/// No path is longer than the longest.
pub proof fn lemma_longest_bounds(paths: Seq<Seq<Location>>, j: int)
    requires
        0 <= j < paths.len(),
    ensures
        paths[j].len() <= longest(paths),
    decreases paths.len(),
{
    if j < paths.len() - 1 {
        lemma_longest_bounds(paths.drop_last(), j);
        assert(paths.drop_last()[j] == paths[j]);
    }
}

/// Once every earlier path has ended, what is in the clear stays so.
pub proof fn lemma_clear_settled(scene: Scene, done: Seq<Seq<Location>>, c: Location, u: int)
    requires
        u >= longest(done),
    ensures
        scene.clear(done, c, u) == scene.clear(done, c, longest(done) as int),
{
    let settle = longest(done) as int;
    assert forall|j: int| 0 <= j < done.len() implies position_at(#[trigger] done[j], u)
        == position_at(done[j], settle) by {
        lemma_longest_bounds(done, j);
    }
}

/// What can be reached lies on the grid.
pub proof fn lemma_reach_on_grid(scene: Scene, done: Seq<Seq<Location>>, t: nat, c: Location)
    requires
        scene.reach(done, t, c),
    ensures
        0 <= c.y < scene.rows,
        0 <= c.x < scene.cols,
        scene.clear(done, c, t as int),
{
}

/// Once the earlier agents rest, two times in a row with the same cells in
/// reach leave the same cells in reach for good.
pub proof fn lemma_steady(scene: Scene, done: Seq<Seq<Location>>, t: nat, u: nat, c: Location)
    requires
        t >= longest(done),
        forall|p: Location| #[trigger] scene.reach(done, t + 1, p) == scene.reach(done, t, p),
        u >= t,
    ensures
        scene.reach(done, u, c) == scene.reach(done, t, c),
    decreases u,
{
    if u > t + 1 {
        let before = (u - 1) as nat;
        lemma_steady(scene, done, t, before, prior(c, 0));
        lemma_steady(scene, done, t, before, prior(c, 1));
        lemma_steady(scene, done, t, before, prior(c, 2));
        lemma_steady(scene, done, t, before, prior(c, 3));
        lemma_steady(scene, done, t, before, prior(c, 4));
        lemma_clear_settled(scene, done, c, u as int);
        lemma_clear_settled(scene, done, c, t as int + 1);
        assert(scene.reach(done, u, c) == scene.reach(done, t + 1, c));
    }
}

/// Every cell of the path that arrives at `last` can be reached at its time.
pub proof fn lemma_back_reach(scene: Scene, done: Seq<Seq<Location>>, last: nat, i: nat)
    requires
        i <= last,
        scene.reach(done, last, scene.mover(done).destination),
    ensures
        scene.reach(done, i, scene.back(done, last, i)),
    decreases last - i,
{
    if i < last {
        lemma_back_reach(scene, done, last, i + 1);
    }
}

/// The cell from which a reached cell is entered was reached a step before,
/// and is one step away.
pub proof fn lemma_first_prior(scene: Scene, done: Seq<Seq<Location>>, t: nat, c: Location)
    requires
        scene.reach(done, t + 1, c),
    ensures
        scene.reach(done, t, scene.first_prior(done, t, c)),
        is_step(scene.first_prior(done, t, c), c),
{
    assert(footprint(scene.mover(done), c).inside(scene.rows as int, scene.cols as int));
}

/// The path that arrives at `last` leads the agent from its source to its
/// destination.
pub proof fn lemma_trace_leads(scene: Scene, done: Seq<Seq<Location>>, last: nat)
    requires
        scene.reach(done, last, scene.mover(done).destination),
    ensures
        scene.leads(scene.mover(done), scene.trace(done, last)),
{
    let agent = scene.mover(done);
    let path = scene.trace(done, last);
    assert forall|i: int| 0 <= i < path.len() implies scene.open_at(agent, #[trigger] path[i]) by {
        lemma_back_reach(scene, done, last, i as nat);
    }
    assert forall|i: int| 0 <= i < path.len() - 1 implies is_step(#[trigger] path[i], path[i + 1]) by {
        lemma_back_reach(scene, done, last, (i + 1) as nat);
        lemma_first_prior(scene, done, i as nat, path[i + 1]);
    }
    lemma_back_reach(scene, done, last, 0);
}

/// At no time does the agent on the path that arrives at `last` share a
/// cell with the agent on an earlier path.
pub proof fn lemma_trace_apart(scene: Scene, done: Seq<Seq<Location>>, last: nat, j: int, t: int)
    requires
        scene.arrives(done, last),
        0 <= j < done.len(),
        0 <= t,
    ensures
        !footprint(scene.agents[j], position_at(done[j], t)).overlaps(
            footprint(scene.mover(done), position_at(scene.trace(done, last), t)),
        ),
{
    let agent = scene.mover(done);
    let at = position_at(scene.trace(done, last), t);
    if t <= last {
        lemma_back_reach(scene, done, last, t as nat);
        assert(at == scene.back(done, last, t as nat));
    } else {
        assert(at == scene.back(done, last, last));
        assert(scene.clear(done, agent.destination, t));
    }
    assert(scene.clear(done, at, t));
    assert(scene.apart(done, agent, at, t));
    assert(!footprint(agent, at).overlaps(footprint(scene.agents[j], position_at(done[j], t))));
}

/// The path found for the next agent keeps the paths sound.
pub proof fn lemma_route_sound(scene: Scene, done: Seq<Seq<Location>>, path: Seq<Location>)
    requires
        scene.sound(done),
        done.len() < scene.agents.len(),
        scene.route_of(done) == Some(path),
    ensures
        scene.sound(done.push(path)),
{
    let last = choose|t: nat| scene.first_arrival(done, t);
    let all = done.push(path);
    let k = done.len() as int;
    lemma_trace_leads(scene, done, last);
    assert forall|m: int| 0 <= m < all.len() implies scene.leads(scene.agents[m], #[trigger] all[m]) by {
        if m < k {
            assert(all[m] == done[m]);
        }
    }
    assert forall|i: int, j: int, t: int| 0 <= i < j < all.len() && 0 <= t implies !footprint(
        scene.agents[i],
        #[trigger] position_at(all[i], t),
    ).overlaps(footprint(scene.agents[j], #[trigger] position_at(all[j], t))) by {
        assert(all[i] == done[i]);
        if j < k {
            assert(all[j] == done[j]);
        } else {
            lemma_trace_apart(scene, done, last, i, t);
        }
    }
}

/// The paths that are planned are sound, and there is one for each agent
/// asked for.
pub proof fn lemma_planned_sound(scene: Scene, k: nat)
    requires
        k <= scene.agents.len(),
        scene.planned(k).is_some(),
    ensures
        scene.planned(k).unwrap().len() == k,
        scene.sound(scene.planned(k).unwrap()),
    decreases k,
{
    if k > 0 {
        lemma_planned_sound(scene, (k - 1) as nat);
        let done = scene.planned((k - 1) as nat).unwrap();
        lemma_route_sound(scene, done, scene.route_of(done).unwrap());
    }
}

/// An agent that arrives within the horizon has a first arrival.
pub proof fn lemma_first_arrival_exists(scene: Scene, done: Seq<Seq<Location>>, t: nat)
    requires
        scene.arrives(done, t),
        t <= scene.horizon(done),
    ensures
        exists|u: nat| scene.first_arrival(done, u),
    decreases t,
{
    if exists|u: nat| u < t && scene.arrives(done, u) {
        let u = choose|u: nat| u < t && scene.arrives(done, u);
        lemma_first_arrival_exists(scene, done, u);
    } else {
        assert(scene.first_arrival(done, t));
    }
}

/// An agent without a path cannot, at any time within the horizon, be at
/// its destination and hold it: whatever way it takes, it leaves the grid,
/// touches a forbidden cell or meets an agent on one of the paths `done`.
pub proof fn lemma_no_route(scene: Scene, done: Seq<Seq<Location>>, t: nat)
    requires
        scene.route_of(done).is_none(),
        t <= scene.horizon(done),
    ensures
        !scene.arrives(done, t),
{
    if scene.arrives(done, t) {
        lemma_first_arrival_exists(scene, done, t);
    }
}

/// The path of an agent is the shortest that leads it to its destination to
/// stay: it cannot arrive earlier.
pub proof fn lemma_route_earliest(scene: Scene, done: Seq<Seq<Location>>, t: nat)
    requires
        scene.route_of(done).is_some(),
        t + 1 < scene.route_of(done).unwrap().len(),
    ensures
        !scene.arrives(done, t),
{
}

/// Where no two of the first `k` agents share a name, the map holds the
/// agents' keys in the order of the agents, each with the agent's path.
pub proof fn lemma_filed_in_order(agents: Seq<Agent>, paths: Seq<Seq<Location>>, k: nat)
    requires
        k <= agents.len(),
        k <= paths.len(),
        forall|i: int, j: int| 0 <= i < j < k ==> agents[i].id != agents[j].id,
    ensures
        filed_all(agents, paths, k) == Seq::new(k, |i: int| (agents[i].id.spec_key(), paths[i])),
    decreases k,
{
    if k > 0 {
        lemma_filed_in_order(agents, paths, (k - 1) as nat);
        let before = filed_all(agents, paths, (k - 1) as nat);
        let key = agents[k - 1].id.spec_key();
        assert forall|i: int| 0 <= i < before.len() implies (#[trigger] before[i]).0 != key by {
            assert(agents[i].id != agents[k - 1].id);
        }
        assert(!crate::route_map::has_key(before, key));
        assert(filed_all(agents, paths, k) =~= Seq::new(
            k,
            |i: int| (agents[i].id.spec_key(), paths[i]),
        ));
    }
}

/// Where some agent has no path, no longer run of agents is planned.
pub proof fn lemma_planned_none(scene: Scene, k: nat, n: nat)
    requires
        k <= n,
        scene.planned(k).is_none(),
    ensures
        scene.planned(n).is_none(),
    decreases n,
{
    if k < n {
        lemma_planned_none(scene, k, (n - 1) as nat);
    }
}

/// The paths held by `v`, each as a sequence.
pub open spec fn paths_of(v: Seq<Vec<Location>>) -> Seq<Seq<Location>> {
    Seq::new(v.len(), |j: int| v[j]@)
}

/// The entries of a map in which the first `k` of `paths` were filed one
/// after the other, each under the key of its agent.
pub open spec fn filed_all(agents: Seq<Agent>, paths: Seq<Seq<Location>>, k: nat) -> Seq<
    ((usize, usize), Seq<Location>),
>
    decreases k,
{
    if k == 0 {
        Seq::empty()
    } else {
        filed(filed_all(agents, paths, (k - 1) as nat), agents[k - 1].id.spec_key(), paths[k - 1])
    }
}

/// What a router is asked: the agents in the order of their priority, the
/// grid, and the cells that no agent may touch.
pub struct RoutingRequest<'a> {
    pub agents: Vec<Agent>,
    pub gridview: &'a GridView,
    pub blockages: Vec<Location>,
}

impl<'a> RoutingRequest<'a> {
    pub open spec fn scene(&self) -> Scene {
        Scene {
            rows: self.gridview.rows(),
            cols: self.gridview.cols(),
            blockages: self.blockages@,
            agents: self.agents@,
        }
    }
}

/// The path of each droplet that moves, filed under `DropletId::key`, in the
/// order of the agents.
pub struct RoutingResponse {
    pub routes: IndexMap<(usize, usize), Path>,
}

#[derive(Clone, Copy, Debug, PartialEq, Eq, Structural)]
pub enum RoutingError {
    /// The agent at `index` of the request, the droplet `id`, has no path
    /// that keeps clear of the agents before it.
    NoRoute { index: usize, id: DropletId },
}

/// The search for one agent's path.
struct Search<'a> {
    height: i32,
    width: i32,
    blockages: &'a Vec<Location>,
    agents: &'a Vec<Agent>,
    done: &'a Vec<Vec<Location>>,
}

impl<'a> Search<'a> {
    spec fn scene(&self) -> Scene {
        Scene {
            rows: self.height,
            cols: self.width,
            blockages: self.blockages@,
            agents: self.agents@,
        }
    }

    spec fn tracks(&self) -> Seq<Seq<Location>> {
        paths_of(self.done@)
    }

    spec fn wf(&self) -> bool {
        &&& self.done@.len() < self.agents@.len()
        &&& forall|j: int| 0 <= j < self.done@.len() ==> (#[trigger] self.done@[j])@.len() > 0
    }

    spec fn table_rows(&self) -> int {
        if self.height > 0 {
            self.height as int
        } else {
            0
        }
    }

    spec fn table_cols(&self) -> int {
        if self.width > 0 {
            self.width as int
        } else {
            0
        }
    }

    /// `layer` says of every cell of the grid whether the agent can be there
    /// at time `t`.
    spec fn is_layer(&self, layer: Seq<Vec<bool>>, t: nat) -> bool {
        &&& layer.len() == self.table_rows()
        &&& forall|y: int| 0 <= y < layer.len() ==> (#[trigger] layer[y])@.len() == self.table_cols()
        &&& forall|y: int, x: int|
            0 <= y < self.table_rows() && 0 <= x < self.table_cols() ==> #[trigger] layer[y]@[x]
                == self.scene().reach(self.tracks(), t, Location { y: y as i32, x: x as i32 })
    }

    /// Whether the agent may be at `c` at time `t`.
    #[verifier::loop_isolation(false)]
    fn is_clear(&self, c: Location, t: usize) -> (r: bool)
        requires
            self.wf(),
        ensures
            r == self.scene().clear(self.tracks(), c, t as int),
    {
        let agent = self.agents[self.done.len()];
        let here = Region::new(c, agent.dimensions);
        assert(here == footprint(self.scene().mover(self.tracks()), c));
        if !here.fits_grid(self.height, self.width) {
            return false;
        }
        let mut b: usize = 0;
        while b < self.blockages.len()
            invariant
                b <= self.blockages@.len(),
                forall|i: int|
                    0 <= i < b ==> !here.overlaps(Region::cell(#[trigger] self.blockages@[i])),
            decreases self.blockages@.len() - b,
        {
            let cell = Region::of_cell(self.blockages[b]);
            if here.intersects(&cell) {
                assert(here.overlaps(Region::cell(self.scene().blockages[b as int])));
                return false;
            }
            b += 1;
        }
        assert(self.scene().open_at(agent, c));
        let mut j: usize = 0;
        while j < self.done.len()
            invariant
                j <= self.done@.len(),
                forall|i: int|
                    0 <= i < j ==> !here.overlaps(
                        footprint(self.agents@[i], position_at(#[trigger] self.tracks()[i], t as int)),
                    ),
            decreases self.done@.len() - j,
        {
            let path = &self.done[j];
            assert(path@ == self.tracks()[j as int]);
            let at = if t < path.len() {
                path[t]
            } else {
                path[path.len() - 1]
            };
            let there = Region::new(at, self.agents[j].dimensions);
            if here.intersects(&there) {
                return false;
            }
            j += 1;
        }
        true
    }

    /// The length of the longest path so far.
    #[verifier::loop_isolation(false)]
    fn longest(&self) -> (m: usize)
        ensures
            m == longest(self.tracks()),
    {
        let ghost all = self.tracks();
        let mut m: usize = 0;
        let mut j: usize = 0;
        while j < self.done.len()
            invariant
                j <= self.done@.len(),
                m == longest(all.take(j as int)),
            decreases self.done@.len() - j,
        {
            proof {
                let next = all.take(j as int + 1);
                assert(next.drop_last() =~= all.take(j as int));
                assert(next.last() == self.done@[j as int]@);
            }
            if self.done[j].len() > m {
                m = self.done[j].len();
            }
            j += 1;
        }
        assert(all.take(all.len() as int) =~= all);
        m
    }

    /// The latest time of arrival that is tried.
    fn horizon(&self, settle: usize) -> (h: u128)
        requires
            settle == longest(self.tracks()),
        ensures
            h == self.scene().horizon(self.tracks()),
    {
        if self.height > 0 && self.width > 0 {
            let rows: u128 = self.height as u128;
            let cols: u128 = self.width as u128;
            assert(rows * cols <= 0x7fff_ffff * 0x7fff_ffff) by (nonlinear_arith)
                requires
                    rows <= 0x7fff_ffff,
                    cols <= 0x7fff_ffff,
            ;
            settle as u128 + rows * cols
        } else {
            settle as u128
        }
    }

    /// What `layer` says of the cell in row `y` and column `x`; of a cell
    /// off the grid, that the agent cannot be there.
    fn seen(&self, layer: &Vec<Vec<bool>>, t: Ghost<nat>, y: i64, x: i64) -> (r: bool)
        requires
            self.is_layer(layer@, t@),
            i32::MIN <= y <= i32::MAX,
            i32::MIN <= x <= i32::MAX,
        ensures
            r == self.scene().reach(self.tracks(), t@, Location { y: y as i32, x: x as i32 }),
    {
        if 0 <= y && y < self.height as i64 && 0 <= x && x < self.width as i64 {
            layer[y as usize][x as usize]
        } else {
            proof {
                let c = Location { y: y as i32, x: x as i32 };
                if self.scene().reach(self.tracks(), t@, c) {
                    lemma_reach_on_grid(self.scene(), self.tracks(), t@, c);
                }
            }
            false
        }
    }

    /// Where the agent can be at time `t`, given in `before` where it can be
    /// at the time before.
    #[verifier::loop_isolation(false)]
    fn layer(&self, before: &Vec<Vec<bool>>, t: usize) -> (now: Vec<Vec<bool>>)
        requires
            self.wf(),
            t > 0 ==> self.is_layer(before@, (t - 1) as nat),
        ensures
            self.is_layer(now@, t as nat),
    {
        let ghost scene = self.scene();
        let ghost done = self.tracks();
        let source = self.agents[self.done.len()].source;
        let mut now: Vec<Vec<bool>> = Vec::new();
        let mut y: i32 = 0;
        while y < self.height
            invariant
                0 <= y,
                y <= self.table_rows(),
                now@.len() == y,
                forall|r: int| 0 <= r < y ==> (#[trigger] now@[r])@.len() == self.table_cols(),
                forall|r: int, q: int|
                    0 <= r < y && 0 <= q < self.table_cols() ==> #[trigger] now@[r]@[q]
                        == scene.reach(done, t as nat, Location { y: r as i32, x: q as i32 }),
            decreases self.height - y,
        {
            let mut row: Vec<bool> = Vec::new();
            let mut x: i32 = 0;
            while x < self.width
                invariant
                    0 <= x,
                    0 <= y < self.height,
                    x <= self.table_cols(),
                    row@.len() == x,
                    forall|q: int|
                        0 <= q < x ==> #[trigger] row@[q] == scene.reach(
                            done,
                            t as nat,
                            Location { y: y, x: q as i32 },
                        ),
                decreases self.width - x,
            {
                let c = Location { y, x };
                let from = if t == 0 {
                    c == source
                } else {
                    let earlier = Ghost((t - 1) as nat);
                    let row_of: i64 = y as i64;
                    let col_of: i64 = x as i64;
                    assert(prior(c, 0) == (Location { y: row_of as i32, x: col_of as i32 }));
                    assert(prior(c, 1) == (Location { y: (row_of - 1) as i32, x: col_of as i32 }));
                    assert(prior(c, 2) == (Location { y: (row_of + 1) as i32, x: col_of as i32 }));
                    assert(prior(c, 3) == (Location { y: row_of as i32, x: (col_of - 1) as i32 }));
                    assert(prior(c, 4) == (Location { y: row_of as i32, x: (col_of + 1) as i32 }));
                    self.seen(before, earlier, row_of, col_of) || self.seen(
                        before,
                        earlier,
                        row_of - 1,
                        col_of,
                    ) || self.seen(before, earlier, row_of + 1, col_of) || self.seen(
                        before,
                        earlier,
                        row_of,
                        col_of - 1,
                    ) || self.seen(before, earlier, row_of, col_of + 1)
                };
                let free = from && self.is_clear(c, t);
                assert(free == scene.reach(done, t as nat, c));
                row.push(free);
                x += 1;
            }
            now.push(row);
            y += 1;
        }
        now
    }

    /// Whether the agent can hold its destination from time `t` on.
    #[verifier::loop_isolation(false)]
    fn rests_from(&self, t: usize, settle: usize) -> (r: bool)
        requires
            self.wf(),
            settle == longest(self.tracks()),
            self.scene().clear(
                self.tracks(),
                self.scene().mover(self.tracks()).destination,
                settle as int,
            ),
        ensures
            r == self.scene().rests(self.tracks(), t as nat),
    {
        let ghost scene = self.scene();
        let ghost done = self.tracks();
        let destination = self.agents[self.done.len()].destination;
        let mut u: usize = t;
        while u < settle
            invariant
                t <= u,
                forall|w: int| t <= w < u ==> #[trigger] scene.clear(done, destination, w),
            decreases settle - u,
        {
            if !self.is_clear(destination, u) {
                return false;
            }
            u += 1;
        }
        proof {
            assert forall|w: int| w >= t implies #[trigger] scene.clear(done, destination, w) by {
                if w >= settle {
                    lemma_clear_settled(scene, done, destination, w);
                }
            }
        }
        true
    }

    /// The cell from which the agent enters `c`, which it has reached at
    /// time `t + 1`.
    fn step_back(&self, layer: &Vec<Vec<bool>>, t: Ghost<nat>, c: Location) -> (r: Location)
        requires
            self.is_layer(layer@, t@),
            self.scene().reach(self.tracks(), t@ + 1, c),
        ensures
            r == self.scene().first_prior(self.tracks(), t@, c),
            self.scene().reach(self.tracks(), t@, r),
    {
        proof {
            lemma_reach_on_grid(self.scene(), self.tracks(), t@ + 1, c);
            lemma_first_prior(self.scene(), self.tracks(), t@, c);
        }
        let y: i64 = c.y as i64;
        let x: i64 = c.x as i64;
        if self.seen(layer, t, y, x) {
            c
        } else if self.seen(layer, t, y - 1, x) {
            Location { y: c.y - 1, x: c.x }
        } else if self.seen(layer, t, y + 1, x) {
            Location { y: c.y + 1, x: c.x }
        } else if self.seen(layer, t, y, x - 1) {
            Location { y: c.y, x: c.x - 1 }
        } else {
            proof {
                assert(self.scene().reach(self.tracks(), t@, prior(c, 4)));
                lemma_reach_on_grid(self.scene(), self.tracks(), t@, prior(c, 4));
            }
            Location { y: c.y, x: c.x + 1 }
        }
    }

    /// The path that arrives at time `last`, read back from the layers.
    #[verifier::loop_isolation(false)]
    fn trace(&self, layers: &Vec<Vec<Vec<bool>>>, last: usize) -> (path: Vec<Location>)
        requires
            self.wf(),
            layers@.len() == last + 1,
            forall|i: int| 0 <= i <= last ==> self.is_layer((#[trigger] layers@[i])@, i as nat),
            self.scene().reach(
                self.tracks(),
                last as nat,
                self.scene().mover(self.tracks()).destination,
            ),
        ensures
            path@ == self.scene().trace(self.tracks(), last as nat),
    {
        let ghost scene = self.scene();
        let ghost done = self.tracks();
        let mut c = self.agents[self.done.len()].destination;
        let mut reversed: Vec<Location> = Vec::new();
        reversed.push(c);
        let mut i: usize = last;
        while i > 0
            invariant
                i <= last,
                reversed@.len() == last - i + 1,
                c == scene.back(done, last as nat, i as nat),
                scene.reach(done, i as nat, c),
                forall|m: int|
                    0 <= m < reversed@.len() ==> #[trigger] reversed@[m] == scene.back(
                        done,
                        last as nat,
                        (last - m) as nat,
                    ),
            decreases i,
        {
            assert(self.is_layer(layers@[i - 1]@, (i - 1) as nat));
            c = self.step_back(&layers[i - 1], Ghost((i - 1) as nat), c);
            reversed.push(c);
            i -= 1;
        }
        let mut path: Vec<Location> = Vec::new();
        let mut m: usize = reversed.len();
        while m > 0
            invariant
                m <= reversed@.len(),
                reversed@.len() == last + 1,
                path@.len() == reversed@.len() - m,
                forall|q: int|
                    0 <= q < path@.len() ==> #[trigger] path@[q] == scene.back(
                        done,
                        last as nat,
                        q as nat,
                    ),
            decreases m,
        {
            m -= 1;
            path.push(reversed[m]);
        }
        assert(path@ =~= scene.trace(done, last as nat));
        path
    }

    /// Whether the same cells are in reach at time `t + 1` as at time `t`.
    #[verifier::loop_isolation(false)]
    fn unchanged(&self, before: &Vec<Vec<bool>>, now: &Vec<Vec<bool>>, t: Ghost<nat>) -> (r: bool)
        requires
            self.is_layer(before@, t@),
            self.is_layer(now@, t@ + 1),
        ensures
            r == (forall|p: Location| #[trigger]
                self.scene().reach(self.tracks(), t@ + 1, p) == self.scene().reach(
                    self.tracks(),
                    t@,
                    p,
                )),
    {
        let ghost scene = self.scene();
        let ghost done = self.tracks();
        let mut y: usize = 0;
        while y < now.len()
            invariant
                y <= now@.len(),
                forall|r: int, q: int|
                    0 <= r < y && 0 <= q < self.table_cols() ==> #[trigger] now@[r]@[q]
                        == before@[r]@[q],
            decreases now@.len() - y,
        {
            let mut x: usize = 0;
            while x < now[y].len()
                invariant
                    y < now@.len(),
                    x <= now@[y as int]@.len(),
                    forall|q: int| 0 <= q < x ==> #[trigger] now@[y as int]@[q] == before@[y as int]@[q],
                decreases now@[y as int]@.len() - x,
            {
                if now[y][x] != before[y][x] {
                    proof {
                        let p = Location { y: y as i32, x: x as i32 };
                        assert(now@[y as int]@[x as int] == scene.reach(done, t@ + 1, p));
                        assert(before@[y as int]@[x as int] == scene.reach(done, t@, p));
                    }
                    return false;
                }
                x += 1;
            }
            y += 1;
        }
        proof {
            assert forall|p: Location| #[trigger]
                scene.reach(done, t@ + 1, p) == scene.reach(done, t@, p) by {
                if 0 <= p.y < self.table_rows() && 0 <= p.x < self.table_cols() {
                    assert(now@[p.y as int]@[p.x as int] == scene.reach(done, t@ + 1, p));
                    assert(before@[p.y as int]@[p.x as int] == scene.reach(done, t@, p));
                } else {
                    if scene.reach(done, t@ + 1, p) {
                        lemma_reach_on_grid(scene, done, t@ + 1, p);
                    }
                    if scene.reach(done, t@, p) {
                        lemma_reach_on_grid(scene, done, t@, p);
                    }
                }
            }
        }
        true
    }

    /// The path of the agent, if it has one.
    #[verifier::loop_isolation(false)]
    fn seek(&self) -> (r: Option<Vec<Location>>)
        requires
            self.wf(),
        ensures
            r.is_some() == self.scene().route_of(self.tracks()).is_some(),
            r.is_some() ==> r.unwrap()@ == self.scene().route_of(self.tracks()).unwrap(),
    {
        let ghost scene = self.scene();
        let ghost done = self.tracks();
        let destination = self.agents[self.done.len()].destination;
        let settle = self.longest();
        if !self.is_clear(destination, settle) {
            proof {
                assert forall|t: nat| !scene.first_arrival(done, t) by {
                    let u = if t >= settle {
                        t as int
                    } else {
                        settle as int
                    };
                    lemma_clear_settled(scene, done, destination, u);
                    if scene.rests(done, t) {
                        assert(scene.clear(done, destination, u));
                    }
                }
            }
            return None;
        }
        let limit = self.horizon(settle);
        let mut layers: Vec<Vec<Vec<bool>>> = Vec::new();
        let nothing: Vec<Vec<bool>> = Vec::new();
        let first = self.layer(&nothing, 0);
        layers.push(first);
        let mut t: usize = 0;
        loop
            invariant
                layers@.len() == t + 1,
                t <= limit,
                forall|i: int| 0 <= i <= t ==> self.is_layer((#[trigger] layers@[i])@, i as nat),
                forall|u: nat| u < t ==> !#[trigger] scene.arrives(done, u),
            decreases limit - t,
        {
            let here = self.seen(&layers[t], Ghost(t as nat), destination.y as i64, destination.x as i64);
            if here && self.rests_from(t, settle) {
                proof {
                    assert(scene.arrives(done, t as nat));
                    assert(scene.first_arrival(done, t as nat));
                    let chosen = choose|u: nat| scene.first_arrival(done, u);
                    assert(scene.arrives(done, chosen));
                    assert(chosen == t);
                }
                return Some(self.trace(&layers, t));
            }
            assert(!scene.arrives(done, t as nat));
            if t as u128 >= limit {
                proof {
                    assert forall|u: nat| !scene.first_arrival(done, u) by {
                        if scene.first_arrival(done, u) {
                            assert(scene.arrives(done, u));
                            assert(u <= t);
                        }
                    }
                }
                return None;
            }
            assert(layers.len() == t + 1);
            let next = self.layer(&layers[t], t + 1);
            if t >= settle && self.unchanged(&layers[t], &next, Ghost(t as nat)) {
                // nothing new comes into reach any more
                proof {
                    assert forall|u: nat| !scene.first_arrival(done, u) by {
                        if scene.first_arrival(done, u) {
                            assert(scene.arrives(done, u));
                            if u > t {
                                lemma_steady(scene, done, t as nat, u, destination);
                                assert forall|w: int| w >= t implies #[trigger] scene.clear(
                                    done,
                                    destination,
                                    w,
                                ) by {
                                    lemma_clear_settled(scene, done, destination, w);
                                }
                                assert(scene.arrives(done, t as nat));
                            }
                        }
                    }
                }
                return None;
            }
            layers.push(next);
            t += 1;
        }
    }
}

/// Finds paths for the agents of a request, one agent after the other.
pub struct Router {}

impl Router {
    pub fn new() -> (router: Router)
        ensures
            router == (Router {  }),
    {
        Router {  }
    }

    /// Routes the agents in the order of the request. Each agent gets the
    /// path of `Scene::route_of`: the earliest arrival that keeps clear of
    /// the borders, the forbidden cells and the agents before it. The paths
    /// are filed in that order under the agents' keys. The first agent that
    /// has no way to its destination, at whatever time, is the error, and
    /// no path is handed back.
    #[verifier::loop_isolation(false)]
    pub fn route(&mut self, req: &RoutingRequest) -> (r: Result<RoutingResponse, RoutingError>)
        ensures
            r.is_ok() == req.scene().planned(req.agents@.len()).is_some(),
            match r {
                Ok(resp) => {
                    let paths = req.scene().planned(req.agents@.len()).unwrap();
                    &&& paths.len() == req.agents@.len()
                    &&& req.scene().sound(paths)
                    &&& route_entries(resp.routes) == filed_all(req.agents@, paths, paths.len())
                },
                Err(RoutingError::NoRoute { index, id }) => {
                    &&& index < req.agents@.len()
                    &&& id == req.agents@[index as int].id
                    &&& req.scene().planned(index as nat).is_some()
                    &&& req.scene().planned((index + 1) as nat).is_none()
                    &&& forall|t: nat|
                        !#[trigger] req.scene().arrives(
                            req.scene().planned(index as nat).unwrap(),
                            t,
                        )
                },
            },
    {
        let ghost scene = req.scene();
        let height = req.gridview.height();
        let width = req.gridview.width();
        let n = req.agents.len();
        let mut paths: Vec<Vec<Location>> = Vec::new();
        let mut k: usize = 0;
        assert(paths_of(paths@) =~= Seq::<Seq<Location>>::empty());
        while k < n
            invariant
                k <= n,
                paths@.len() == k,
                scene.planned(k as nat) == Some(paths_of(paths@)),
                forall|j: int| 0 <= j < k ==> (#[trigger] paths@[j])@.len() > 0,
            decreases n - k,
        {
            let search = Search {
                height,
                width,
                blockages: &req.blockages,
                agents: &req.agents,
                done: &paths,
            };
            assert(search.scene() == scene);
            let found = search.seek();
            match found {
                None => {
                    proof {
                        assert(scene.planned((k + 1) as nat).is_none());
                        lemma_planned_none(scene, (k + 1) as nat, n as nat);
                        assert forall|t: nat| !#[trigger] scene.arrives(paths_of(paths@), t) by {
                            lemma_no_route_ever(scene, paths_of(paths@), t);
                        }
                    }
                    return Err(RoutingError::NoRoute { index: k, id: req.agents[k].id });
                },
                Some(path) => {
                    let ghost before = paths_of(paths@);
                    paths.push(path);
                    assert(paths_of(paths@) =~= before.push(path@));
                },
            }
            k += 1;
        }
        proof {
            lemma_planned_sound(scene, n as nat);
        }
        let ghost all = paths_of(paths@);
        let mut routes = routes_new();
        let mut i: usize = 0;
        while i < n
            invariant
                i <= n,
                route_entries(routes) == filed_all(req.agents@, all, i as nat),
            decreases n - i,
        {
            let path = crate::command::copy_locations(&paths[i]);
            let _ = routes_insert(&mut routes, req.agents[i].id.key(), path);
            i += 1;
        }
        Ok(RoutingResponse { routes })
    }
}

} // verus!
