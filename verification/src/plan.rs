//! The planner: one tick from the graph to the routes and the commands to
//! run.
//!
//! A tick schedules a batch, places it, routes the droplets and commits the
//! batch. Where the batch cannot be placed and holds more than one command,
//! the planner asks the scheduler for one command less and tries again.

use crate::command::{Command, CommandRequest};
use crate::geometry::Location;
use crate::graph::{CmdIndex, Graph};
use crate::grid::{DropletId, GridView};
use crate::place::{
    base_of, batch_of, items_of, lemma_all_known, lemma_pack_sound, packing_sound, place_outcome,
    placed, Placement, PlacementError, PlacementRequest, PlacementResponse, Placer,
};
use crate::route::{filed_all, Agent, Router, RoutingError, RoutingRequest, Scene};
use crate::route_map::route_entries;
use crate::sched::{
    inputs_at, lemma_chosen_ready, lemma_no_fault, SchedError, SchedRequest, SchedResponse,
    Scheduler,
};
use indexmap::IndexMap;
use vstd::prelude::*;

pub use crate::route::Path;

verus! {

/// Why a tick has no plan.
#[derive(Clone, Copy, Debug, PartialEq, Eq, Structural)]
pub enum PlanError {
    RouteError(RoutingError),
    SchedError(SchedError),
    PlaceError(PlacementError),
}

/// A command of the tick: its node, where it runs, and what it asked for.
pub struct PlannedCommand {
    pub cmd_id: CmdIndex,
    pub placement: Placement,
    pub request: CommandRequest,
}

/// What a tick hands to the execution layer: the path of every droplet that
/// moves, filed under `DropletId::key`, and the commands to run.
pub struct PlanPhase {
    pub routes: IndexMap<(usize, usize), Path>,
    pub planned_commands: Vec<PlannedCommand>,
}

/// The batch of a tick: the nodes that run, the droplets that are parked,
/// and the position of each rectangle, those of the nodes first.
pub struct Batch {
    pub commands: Seq<CmdIndex>,
    pub stored: Seq<DropletId>,
    pub spots: Seq<Location>,
}

/// The extent of the rectangle that each of `commands` asks for.
pub open spec fn shapes_of(graph: &Graph, gridview: &GridView, commands: Seq<CmdIndex>) -> Seq<Location> {
    Seq::new(
        commands.len(),
        |i: int| graph.command_of(commands[i] as int).unwrap().shape_on(gridview),
    )
}

/// The droplets that each of `commands` consumes.
pub open spec fn inputs_of(graph: &Graph, commands: Seq<CmdIndex>) -> Seq<Seq<DropletId>> {
    Seq::new(commands.len(), |i: int| inputs_at(graph, commands[i]))
}

/// One try at a batch: what the scheduler picks under `limit`, placed.
pub open spec fn attempt(
    scheduler: &Scheduler,
    graph: &Graph,
    gridview: &GridView,
    limit: Option<usize>,
) -> Result<Batch, PlanError> {
    match scheduler.outcome(graph, gridview, limit) {
        Err(e) => Err(PlanError::SchedError(e)),
        Ok((commands, stored)) => match place_outcome(
            gridview,
            Seq::empty(),
            shapes_of(graph, gridview, commands),
            inputs_of(graph, commands),
            stored,
        ) {
            Err(e) => Err(PlanError::PlaceError(e)),
            Ok(spots) => Ok(Batch { commands, stored, spots }),
        },
    }
}

/// A bound on the number of commands that the scheduler picks under
/// `limit`, and one more where there is no limit.
pub open spec fn budget(graph: &Graph, limit: Option<usize>) -> nat {
    match limit {
        None => graph.size() + 1,
        Some(k) => k as nat,
    }
}

/// The batch on which the tries end: a try whose batch of more than one
/// command cannot be placed is followed by a try with one command less.
pub open spec fn settled(
    scheduler: &Scheduler,
    graph: &Graph,
    gridview: &GridView,
    limit: Option<usize>,
) -> Result<Batch, PlanError>
    decreases budget(graph, limit),
{
    let size = scheduler.chosen(graph, limit).len();
    match attempt(scheduler, graph, gridview, limit) {
        Err(PlanError::PlaceError(e)) => if size > 1 {
            proof {
                lemma_chosen_ready(scheduler, graph, limit);
                graph.lemma_size_bounded();
            }
            settled(scheduler, graph, gridview, Some((size - 1) as usize))
        } else {
            Err(PlanError::PlaceError(e))
        },
        other => other,
    }
}

/// The moves of the droplets that are parked.
pub open spec fn stored_agents(gridview: &GridView, batch: Batch) -> Seq<Agent> {
    Seq::new(
        batch.stored.len(),
        |j: int|
            {
                let droplet = gridview.lookup(batch.stored[j]).unwrap();
                Agent {
                    id: batch.stored[j],
                    source: droplet.location,
                    destination: batch.spots[batch.commands.len() + j],
                    dimensions: droplet.dimensions,
                }
            },
    )
}

/// The moves of the droplets that `command` consumes, when its rectangle
/// has its top-left cell at `offset`.
pub open spec fn command_agents(gridview: &GridView, command: Command, offset: Location) -> Seq<Agent> {
    Seq::new(
        command.inputs().len(),
        |m: int|
            {
                let droplet = gridview.lookup(command.inputs()[m]).unwrap();
                Agent {
                    id: command.inputs()[m],
                    source: droplet.location,
                    destination: (Placement { offset, shape: command.shape_on(gridview) }).lookup(
                        command.cells_on(gridview)[m],
                    ).unwrap(),
                    dimensions: droplet.dimensions,
                }
            },
    )
}

/// The moves of the droplets that the first `n` commands of the batch
/// consume.
pub open spec fn input_agents(graph: &Graph, gridview: &GridView, batch: Batch, n: nat) -> Seq<Agent>
    decreases n,
{
    if n == 0 {
        Seq::empty()
    } else {
        input_agents(graph, gridview, batch, (n - 1) as nat) + command_agents(
            gridview,
            graph.command_of(batch.commands[n - 1] as int).unwrap(),
            batch.spots[n - 1],
        )
    }
}

/// The moves of a tick: the parked droplets first, then the droplets that
/// the commands consume, command by command.
pub open spec fn agents_of(graph: &Graph, gridview: &GridView, batch: Batch) -> Seq<Agent> {
    stored_agents(gridview, batch) + input_agents(graph, gridview, batch, batch.commands.len())
}

/// What the router is asked in a tick.
pub open spec fn scene_of(graph: &Graph, gridview: &GridView, batch: Batch) -> Scene {
    Scene {
        rows: gridview.rows(),
        cols: gridview.cols(),
        blockages: Seq::empty(),
        agents: agents_of(graph, gridview, batch),
    }
}

/// The batch holds together: each of its nodes has a command bound that can
/// say what it needs, and the positions are those that placing gives.
pub open spec fn consistent(graph: &Graph, gridview: &GridView, batch: Batch) -> bool {
    &&& forall|i: int|
        0 <= i < batch.commands.len() ==> {
            &&& (#[trigger] batch.commands[i]) < graph.size()
            &&& graph.command_of(batch.commands[i] as int).is_some()
            &&& graph.command_of(batch.commands[i] as int).unwrap().requestable(gridview)
        }
    &&& place_outcome(
        gridview,
        Seq::empty(),
        shapes_of(graph, gridview, batch.commands),
        inputs_of(graph, batch.commands),
        batch.stored,
    ) == Ok::<Seq<Location>, PlacementError>(batch.spots)
}

/// The rectangles of a batch that holds together lie on the grid, and none
/// of them shares a cell with another.
pub proof fn lemma_batch_placed(graph: &Graph, gridview: &GridView, batch: Batch)
    requires
        consistent(graph, gridview, batch),
    ensures
        batch.spots.len() == batch.commands.len() + batch.stored.len(),
        packing_sound(
            gridview.rows() as int,
            gridview.cols() as int,
            base_of(
                gridview,
                Seq::empty(),
                batch_of(batch.stored, inputs_of(graph, batch.commands)),
            ),
            items_of(gridview, shapes_of(graph, gridview, batch.commands), batch.stored),
            batch.spots,
        ),
{
    lemma_pack_sound(
        gridview.rows() as int,
        gridview.cols() as int,
        base_of(gridview, Seq::empty(), batch_of(batch.stored, inputs_of(graph, batch.commands))),
        items_of(gridview, shapes_of(graph, gridview, batch.commands), batch.stored),
        batch.commands.len() + batch.stored.len(),
    );
}

/// The batch of a try that succeeds holds together, and it is what the
/// scheduler picks under the limit of that try.
pub proof fn lemma_attempt_consistent(
    scheduler: &Scheduler,
    graph: &Graph,
    gridview: &GridView,
    limit: Option<usize>,
)
    requires
        attempt(scheduler, graph, gridview, limit).is_ok(),
    ensures
        consistent(graph, gridview, attempt(scheduler, graph, gridview, limit).unwrap()),
        attempt(scheduler, graph, gridview, limit).unwrap().commands == scheduler.chosen(
            graph,
            limit,
        ),
{
    let batch = attempt(scheduler, graph, gridview, limit).unwrap();
    lemma_chosen_ready(scheduler, graph, limit);
    assert forall|i: int| 0 <= i < batch.commands.len() implies {
        &&& (#[trigger] batch.commands[i]) < graph.size()
        &&& graph.command_of(batch.commands[i] as int).is_some()
        &&& graph.command_of(batch.commands[i] as int).unwrap().requestable(gridview)
    } by {
        lemma_no_fault(graph, gridview, batch.commands, batch.commands.len(), i);
        assert(scheduler.ready(graph, scheduler.chosen(graph, limit)[i] as int));
    }
}

/// The batch on which the tries end holds together.
pub proof fn lemma_settled_consistent(
    scheduler: &Scheduler,
    graph: &Graph,
    gridview: &GridView,
    limit: Option<usize>,
)
    requires
        settled(scheduler, graph, gridview, limit).is_ok(),
    ensures
        consistent(graph, gridview, settled(scheduler, graph, gridview, limit).unwrap()),
    decreases budget(graph, limit),
{
    let size = scheduler.chosen(graph, limit).len();
    match attempt(scheduler, graph, gridview, limit) {
        Err(PlanError::PlaceError(e)) => {
            if size > 1 {
                lemma_chosen_ready(scheduler, graph, limit);
                graph.lemma_size_bounded();
                lemma_settled_consistent(scheduler, graph, gridview, Some((size - 1) as usize));
            }
        },
        _ => {
            lemma_attempt_consistent(scheduler, graph, gridview, limit);
        },
    }
}

/// The commands of the batch on which the tries end may run: none of them
/// is committed, and each node they depend on is.
pub proof fn lemma_settled_ready(
    scheduler: &Scheduler,
    graph: &Graph,
    gridview: &GridView,
    limit: Option<usize>,
)
    requires
        settled(scheduler, graph, gridview, limit).is_ok(),
    ensures
        forall|i: int|
            0 <= i < settled(scheduler, graph, gridview, limit).unwrap().commands.len()
                ==> scheduler.ready(
                graph,
                (#[trigger] settled(scheduler, graph, gridview, limit).unwrap().commands[i]) as int,
            ),
    decreases budget(graph, limit),
{
    let size = scheduler.chosen(graph, limit).len();
    lemma_chosen_ready(scheduler, graph, limit);
    match attempt(scheduler, graph, gridview, limit) {
        Err(PlanError::PlaceError(e)) => {
            if size > 1 {
                graph.lemma_size_bounded();
                lemma_settled_ready(scheduler, graph, gridview, Some((size - 1) as usize));
            }
        },
        _ => {
            lemma_attempt_consistent(scheduler, graph, gridview, limit);
        },
    }
}

/// The tries end on a batch of at least one command, where some node may
/// run, the scheduler finds no fault under any limit, and every batch of
/// one command can be placed.
pub proof fn lemma_backoff_ends(
    scheduler: &Scheduler,
    graph: &Graph,
    gridview: &GridView,
    limit: Option<usize>,
)
    requires
        scheduler.chosen(graph, None).len() >= 1,
        limit.is_some() ==> limit.unwrap() >= 1,
        forall|l: Option<usize>| (#[trigger] scheduler.outcome(graph, gridview, l)).is_ok(),
        forall|l: Option<usize>|
            scheduler.chosen(graph, l).len() == 1 ==> !(#[trigger] attempt(
                scheduler,
                graph,
                gridview,
                l,
            ) is Err),
    ensures
        settled(scheduler, graph, gridview, limit).is_ok(),
        settled(scheduler, graph, gridview, limit).unwrap().commands.len() >= 1,
    decreases budget(graph, limit),
{
    let size = scheduler.chosen(graph, limit).len();
    assert(size >= 1);
    assert(scheduler.outcome(graph, gridview, limit).is_ok());
    match attempt(scheduler, graph, gridview, limit) {
        Err(PlanError::PlaceError(e)) => {
            if size > 1 {
                lemma_chosen_ready(scheduler, graph, limit);
                graph.lemma_size_bounded();
                lemma_backoff_ends(scheduler, graph, gridview, Some((size - 1) as usize));
            }
        },
        Err(_) => {},
        Ok(batch) => {
            lemma_attempt_consistent(scheduler, graph, gridview, limit);
        },
    }
}

/// What each of `commands` asks for on the grid as it stands.
#[verifier::loop_isolation(false)]
fn requests_for(gridview: &GridView, graph: &Graph, commands: &Vec<CmdIndex>) -> (requests: Vec<
    CommandRequest,
>)
    requires
        gridview.wf(),
        forall|i: int|
            0 <= i < commands@.len() ==> {
                &&& (#[trigger] commands@[i]) < graph.size()
                &&& graph.command_of(commands@[i] as int).is_some()
                &&& graph.command_of(commands@[i] as int).unwrap().requestable(gridview)
            },
    ensures
        requests@.len() == commands@.len(),
        forall|i: int|
            0 <= i < requests@.len() ==> {
                &&& graph.command_of(commands@[i] as int).unwrap().asks(
                    gridview,
                    &#[trigger] requests@[i],
                )
                &&& requests@[i].wf()
            },
{
    let mut requests: Vec<CommandRequest> = Vec::new();
    let mut i: usize = 0;
    while i < commands.len()
        invariant
            i <= commands@.len(),
            requests@.len() == i,
            forall|q: int|
                0 <= q < i ==> {
                    &&& graph.command_of(commands@[q] as int).unwrap().asks(
                        gridview,
                        &#[trigger] requests@[q],
                    )
                    &&& requests@[q].wf()
                },
        decreases commands@.len() - i,
    {
        let c = commands[i];
        assert(commands@[i as int] < graph.size());
        let command = graph.command(c).unwrap();
        requests.push(command.request(gridview));
        i += 1;
    }
    requests
}

/// The requests and the placement that belong to the batch.
pub open spec fn carries(
    graph: &Graph,
    gridview: &GridView,
    batch: Batch,
    requests: Seq<CommandRequest>,
    placement: &PlacementResponse,
) -> bool {
    &&& requests.len() == batch.commands.len()
    &&& forall|i: int|
        0 <= i < requests.len() ==> {
            &&& graph.command_of(batch.commands[i] as int).unwrap().asks(
                gridview,
                &#[trigger] requests[i],
            )
            &&& requests[i].wf()
        }
    &&& placement.spots() == batch.spots
    &&& placement.commands@.len() == batch.commands.len()
    &&& placement.stored_droplets@.len() == batch.stored.len()
    &&& forall|i: int|
        0 <= i < placement.commands@.len() ==> (#[trigger] placement.commands@[i]).shape
            == requests[i].shape
}

/// Schedules and places, with one command less after each batch that
/// cannot be placed, down to a batch of one.
#[verifier::loop_isolation(false)]
fn settle(scheduler: &Scheduler, placer: &mut Placer, gridview: &GridView, graph: &Graph) -> (r: Result<
    (SchedResponse, Vec<CommandRequest>, PlacementResponse),
    PlanError,
>)
    requires
        gridview.wf(),
    ensures
        match r {
            Ok((picked, requests, placement)) => {
                let batch = Batch {
                    commands: picked.commands_to_run@,
                    stored: picked.droplets_to_store@,
                    spots: placement.spots(),
                };
                &&& settled(scheduler, graph, gridview, None) == Ok::<Batch, PlanError>(batch)
                &&& consistent(graph, gridview, batch)
                &&& carries(graph, gridview, batch, requests@, &placement)
            },
            Err(e) => {
                &&& settled(scheduler, graph, gridview, None) == Err::<Batch, PlanError>(e)
                &&& !(e is RouteError)
            },
        },
{
    let mut limit: Option<usize> = None;
    loop
        invariant
            settled(scheduler, graph, gridview, limit) == settled(scheduler, graph, gridview, None),
        decreases budget(graph, limit),
    {
        let picked = match scheduler.schedule(&SchedRequest { graph, gridview, limit }) {
            Ok(picked) => picked,
            Err(e) => {
                return Err(PlanError::SchedError(e));
            },
        };
        let ghost commands = picked.commands_to_run@;
        proof {
            lemma_chosen_ready(scheduler, graph, limit);
            graph.lemma_size_bounded();
            assert forall|i: int| 0 <= i < commands.len() implies {
                &&& (#[trigger] commands[i]) < graph.size()
                &&& graph.command_of(commands[i] as int).is_some()
                &&& graph.command_of(commands[i] as int).unwrap().requestable(gridview)
            } by {
                lemma_no_fault(graph, gridview, commands, commands.len(), i);
                assert(scheduler.ready(graph, scheduler.chosen(graph, limit)[i] as int));
            }
        }
        let requests = requests_for(gridview, graph, &picked.commands_to_run);
        let req = PlacementRequest {
            gridview,
            fixed_commands: Vec::new(),
            commands: requests.as_slice(),
            stored_droplets: picked.droplets_to_store.as_slice(),
        };
        proof {
            assert(req.shapes() =~= shapes_of(graph, gridview, commands));
            assert(req.inputs() =~= inputs_of(graph, commands));
            assert(req.fixed_commands@ =~= Seq::<Placement>::empty());
        }
        let n = picked.commands_to_run.len();
        match placer.place(req) {
            Ok(placement) => {
                proof {
                    lemma_attempt_consistent(scheduler, graph, gridview, limit);
                }
                return Ok((picked, requests, placement));
            },
            Err(e) => {
                if n <= 1 {
                    return Err(PlanError::PlaceError(e));
                }
                limit = Some(n - 1);
            },
        }
    }
}

/// The moves of the tick.
#[verifier::loop_isolation(false)]
fn agents_for(
    gridview: &GridView,
    graph: &Graph,
    picked: &SchedResponse,
    requests: &Vec<CommandRequest>,
    placement: &PlacementResponse,
) -> (agents: Vec<Agent>)
    requires
        gridview.wf(),
        consistent(
            graph,
            gridview,
            Batch {
                commands: picked.commands_to_run@,
                stored: picked.droplets_to_store@,
                spots: placement.spots(),
            },
        ),
        carries(
            graph,
            gridview,
            Batch {
                commands: picked.commands_to_run@,
                stored: picked.droplets_to_store@,
                spots: placement.spots(),
            },
            requests@,
            placement,
        ),
    ensures
        agents@ == agents_of(
            graph,
            gridview,
            Batch {
                commands: picked.commands_to_run@,
                stored: picked.droplets_to_store@,
                spots: placement.spots(),
            },
        ),
{
    let ghost batch = Batch {
        commands: picked.commands_to_run@,
        stored: picked.droplets_to_store@,
        spots: placement.spots(),
    };
    let ghost shapes = shapes_of(graph, gridview, batch.commands);
    let ghost items = items_of(gridview, shapes, batch.stored);
    let ghost parked = stored_agents(gridview, batch);
    let n = requests.len();
    proof {
        lemma_batch_placed(graph, gridview, batch);
    }
    let mut agents: Vec<Agent> = Vec::new();
    let mut j: usize = 0;
    while j < picked.droplets_to_store.len()
        invariant
            j <= batch.stored.len(),
            agents@ == parked.take(j as int),
        decreases batch.stored.len() - j,
    {
        let id = picked.droplets_to_store[j];
        proof {
            lemma_all_known(gridview, batch.stored, batch.stored.len(), j as int);
            gridview.lemma_resident_valid(id);
        }
        let droplet = gridview.get(id).unwrap();
        let destination = placement.stored_droplets[j];
        assert(destination == batch.spots[n + j]);
        agents.push(Agent::from_droplet(&droplet, destination));
        assert(agents@ =~= parked.take(j as int + 1));
        j += 1;
    }
    assert(parked.take(parked.len() as int) =~= parked);
    let mut i: usize = 0;
    assert(agents@ =~= parked + input_agents(graph, gridview, batch, 0));
    while i < n
        invariant
            i <= n,
            agents@ == parked + input_agents(graph, gridview, batch, i as nat),
        decreases n - i,
    {
        let request = &requests[i];
        let at = placement.commands[i];
        let ghost command = graph.command_of(batch.commands[i as int] as int).unwrap();
        let ghost before = agents@;
        let ghost moves = command_agents(gridview, command, batch.spots[i as int]);
        proof {
            assert(command.asks(gridview, &requests@[i as int]));
            assert(placement.commands@[i as int].offset == batch.spots[i as int]);
            assert(placed(items, batch.spots)[i as int].inside(
                gridview.rows() as int,
                gridview.cols() as int,
            ));
            assert(items[i as int].dimensions == shapes[i as int]);
        }
        let mut m: usize = 0;
        while m < request.inputs.len()
            invariant
                m <= request.inputs@.len(),
                request.inputs@.len() == moves.len(),
                agents@ == before + moves.take(m as int),
            decreases request.inputs@.len() - m,
        {
            let id = request.inputs[m];
            let cell = request.input_locations[m];
            proof {
                command.lemma_requestable_inputs(gridview, m as int);
                assert(crate::command::cell_in_shape(request.input_locations@[m as int], request.shape));
            }
            let droplet = gridview.get(id).unwrap();
            let destination = at.get(cell).unwrap();
            agents.push(
                Agent {
                    id,
                    source: droplet.location,
                    destination,
                    dimensions: droplet.dimensions,
                },
            );
            assert(agents@ =~= before + moves.take(m as int + 1));
            m += 1;
        }
        assert(moves.take(moves.len() as int) =~= moves);
        assert(agents@ =~= parked + input_agents(graph, gridview, batch, (i + 1) as nat));
        i += 1;
    }
    agents
}

/// Plans the ticks of one device.
pub struct Planner {
    pub gridview: GridView,
    pub scheduler: Scheduler,
    pub placer: Placer,
    pub router: Router,
}

impl Planner {
    /// The batch that the next tick settles on for `graph`.
    pub open spec fn batch_for(&self, graph: &Graph) -> Result<Batch, PlanError> {
        settled(&self.scheduler, graph, &self.gridview, None)
    }

    /// A planner for the device in the state `gridview`, with nothing
    /// committed.
    pub fn new(gridview: GridView) -> (planner: Planner)
        ensures
            planner.gridview == gridview,
            forall|c: CmdIndex| !planner.scheduler.is_committed(c),
    {
        Planner {
            gridview: gridview,
            scheduler: Scheduler::new(),
            placer: Placer::new(),
            router: Router::new(),
        }
    }

    /// Whether node `c` was committed in an earlier tick.
    pub fn has_committed(&self, c: CmdIndex) -> (r: bool)
        ensures
            r == self.scheduler.is_committed(c),
    {
        self.scheduler.has_committed(c)
    }

    /// Plans one tick. The batch is the one of `batch_for`: its rectangles
    /// lie on the grid and share no cell. Its droplets are routed as
    /// `Router::route` routes the moves of `agents_of`, with no cell
    /// forbidden: no two of them ever share a cell. Where that succeeds, the
    /// commands of the batch are committed and handed back with the routes.
    /// On an error nothing is committed: the error is that of the scheduler,
    /// that of the placer for a batch of one command at most, or that of
    /// the router. The grid must hold no two droplets on one cell.
    pub fn plan(&mut self, graph: &Graph, _droplets: &[DropletId]) -> (r: Result<PlanPhase, PlanError>)
        requires
            old(self).gridview.wf(),
            old(self).gridview.no_collision(),
        ensures
            final(self).gridview == old(self).gridview,
            match r {
                Ok(phase) => {
                    &&& old(self).batch_for(graph).is_ok()
                    &&& {
                        let batch = old(self).batch_for(graph).unwrap();
                        let scene = scene_of(graph, &old(self).gridview, batch);
                        let paths = scene.planned(scene.agents.len());
                        &&& consistent(graph, &old(self).gridview, batch)
                        &&& packing_sound(
                            old(self).gridview.rows() as int,
                            old(self).gridview.cols() as int,
                            base_of(
                                &old(self).gridview,
                                Seq::empty(),
                                batch_of(batch.stored, inputs_of(graph, batch.commands)),
                            ),
                            items_of(
                                &old(self).gridview,
                                shapes_of(graph, &old(self).gridview, batch.commands),
                                batch.stored,
                            ),
                            batch.spots,
                        )
                        &&& paths.is_some()
                        &&& scene.sound(paths.unwrap())
                        &&& route_entries(phase.routes) == filed_all(
                            scene.agents,
                            paths.unwrap(),
                            scene.agents.len(),
                        )
                        &&& phase.planned_commands@.len() == batch.commands.len()
                        &&& forall|i: int|
                            0 <= i < batch.commands.len() ==> {
                                let planned = #[trigger] phase.planned_commands@[i];
                                &&& planned.cmd_id == batch.commands[i]
                                &&& planned.placement.offset == batch.spots[i]
                                &&& planned.placement.shape == planned.request.shape
                                &&& graph.command_of(batch.commands[i] as int).unwrap().asks(
                                    &old(self).gridview,
                                    &planned.request,
                                )
                            }
                        &&& forall|c: CmdIndex|
                            final(self).scheduler.is_committed(c) == (old(
                                self,
                            ).scheduler.is_committed(c) || batch.commands.contains(c))
                    }
                },
                Err(e) => {
                    &&& forall|c: CmdIndex|
                        final(self).scheduler.is_committed(c) == old(self).scheduler.is_committed(
                            c,
                        )
                    &&& match e {
                        PlanError::RouteError(RoutingError::NoRoute { index, id }) => {
                            &&& old(self).batch_for(graph).is_ok()
                            &&& {
                                let batch = old(self).batch_for(graph).unwrap();
                                let scene = scene_of(graph, &old(self).gridview, batch);
                                &&& index < scene.agents.len()
                                &&& id == scene.agents[index as int].id
                                &&& scene.planned(index as nat).is_some()
                                &&& scene.planned((index + 1) as nat).is_none()
                            }
                        },
                        other => old(self).batch_for(graph) == Err::<Batch, PlanError>(other),
                    }
                },
            },
    {
        let (picked, requests, placement) = match settle(
            &self.scheduler,
            &mut self.placer,
            &self.gridview,
            graph,
        ) {
            Ok(found) => found,
            Err(e) => {
                return Err(e);
            },
        };
        let ghost batch = Batch {
            commands: picked.commands_to_run@,
            stored: picked.droplets_to_store@,
            spots: placement.spots(),
        };
        let agents = agents_for(&self.gridview, graph, &picked, &requests, &placement);
        let req = RoutingRequest { agents, gridview: &self.gridview, blockages: Vec::new() };
        assert(req.scene() =~= scene_of(graph, &self.gridview, batch)) by {
            assert(req.blockages@ =~= Seq::<Location>::empty());
        }
        let routes = match self.router.route(&req) {
            Ok(routed) => routed.routes,
            Err(e) => {
                return Err(PlanError::RouteError(e));
            },
        };
        let n = picked.commands_to_run.len();
        let mut planned_commands: Vec<PlannedCommand> = Vec::new();
        let mut i: usize = 0;
        while i < n
            invariant
                n == batch.commands.len(),
                batch.commands == picked.commands_to_run@,
                batch.spots == placement.spots(),
                carries(graph, &self.gridview, batch, requests@, &placement),
                i <= n,
                planned_commands@.len() == i,
                forall|q: int|
                    0 <= q < i ==> {
                        let planned = #[trigger] planned_commands@[q];
                        &&& planned.cmd_id == batch.commands[q]
                        &&& planned.placement.offset == batch.spots[q]
                        &&& planned.placement.shape == planned.request.shape
                        &&& graph.command_of(batch.commands[q] as int).unwrap().asks(
                            &self.gridview,
                            &planned.request,
                        )
                    },
            decreases n - i,
        {
            let request = requests[i].duplicate();
            proof {
                assert(graph.command_of(batch.commands[i as int] as int).unwrap().asks(
                    &self.gridview,
                    &requests@[i as int],
                ));
                assert(placement.commands@[i as int].offset == placement.spots()[i as int]);
            }
            planned_commands.push(
                PlannedCommand {
                    cmd_id: picked.commands_to_run[i],
                    placement: placement.commands[i],
                    request,
                },
            );
            i += 1;
        }
        self.scheduler.commit(&picked);
        proof {
            lemma_batch_placed(graph, &self.gridview, batch);
        }
        Ok(PlanPhase { routes, planned_commands })
    }
}

} // verus!
