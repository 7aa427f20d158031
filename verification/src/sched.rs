//! Scheduling: which commands run in this tick, and which droplets wait.

use crate::graph::{CmdIndex, Graph};
use crate::grid::{Droplet, DropletId, GridView};
use vstd::prelude::*;

verus! {

/// What a scheduler is asked: the graph, the device as it stands, and how
/// many commands may run at once at most.
pub struct SchedRequest<'a> {
    pub graph: &'a Graph,
    pub gridview: &'a GridView,
    pub limit: Option<usize>,
}

/// The commands to run in this tick, in the order of their handles, and the
/// resident droplets that none of them consumes and that therefore have to
/// be parked.
pub struct SchedResponse {
    pub commands_to_run: Vec<CmdIndex>,
    pub droplets_to_store: Vec<DropletId>,
}

#[derive(Clone, Copy, Debug, PartialEq, Eq, Structural)]
pub enum SchedError {
    /// A node that would run has no command bound to it.
    Unbound(CmdIndex),
    /// The command of a node that would run cannot say what it needs: see
    /// `Command::requestable`.
    NotRequestable(CmdIndex),
}

/// The sequence `all`, cut to its first `limit` items where a limit is
/// given.
pub open spec fn capped(all: Seq<CmdIndex>, limit: Option<usize>) -> Seq<CmdIndex> {
    match limit {
        Some(k) => if k < all.len() {
            all.take(k as int)
        } else {
            all
        },
        None => all,
    }
}

/// What is wrong with node `c`, if anything.
pub open spec fn fault_at(graph: &Graph, gridview: &GridView, c: CmdIndex) -> Option<SchedError> {
    match graph.command_of(c as int) {
        None => Some(SchedError::Unbound(c)),
        Some(command) => if command.requestable(gridview) {
            None
        } else {
            Some(SchedError::NotRequestable(c))
        },
    }
}

/// The first fault among the first `n` of `chosen`.
pub open spec fn first_fault(graph: &Graph, gridview: &GridView, chosen: Seq<CmdIndex>, n: nat) -> Option<
    SchedError,
>
    decreases n,
{
    if n == 0 {
        None
    } else {
        match first_fault(graph, gridview, chosen, (n - 1) as nat) {
            Some(e) => Some(e),
            None => fault_at(graph, gridview, chosen[n - 1]),
        }
    }
}

/// The droplets that the command of node `c` consumes.
pub open spec fn inputs_at(graph: &Graph, c: CmdIndex) -> Seq<DropletId> {
    match graph.command_of(c as int) {
        Some(command) => command.inputs(),
        None => Seq::empty(),
    }
}

/// The droplets that the first `n` of `chosen` consume, in order.
pub open spec fn consumed(graph: &Graph, chosen: Seq<CmdIndex>, n: nat) -> Seq<DropletId>
    decreases n,
{
    if n == 0 {
        Seq::empty()
    } else {
        consumed(graph, chosen, (n - 1) as nat) + inputs_at(graph, chosen[n - 1])
    }
}

/// The names of those among the first `n` of `residents` that are not in
/// `taken`, in order.
pub open spec fn kept(residents: Seq<Droplet>, taken: Seq<DropletId>, n: nat) -> Seq<DropletId>
    decreases n,
{
    if n == 0 {
        Seq::empty()
    } else {
        let rest = kept(residents, taken, (n - 1) as nat);
        if taken.contains(residents[n - 1].id) {
            rest
        } else {
            rest.push(residents[n - 1].id)
        }
    }
}

/// Whether `x` is in `v`.
pub fn holds_index(v: &Vec<CmdIndex>, x: CmdIndex) -> (r: bool)
    ensures
        r == v@.contains(x),
{
    let mut i: usize = 0;
    while i < v.len()
        invariant
            i <= v@.len(),
            forall|k: int| 0 <= k < i ==> v@[k] != x,
        decreases v@.len() - i,
    {
        if v[i] == x {
            return true;
        }
        i += 1;
    }
    false
}

/// Whether `x` is in `v`.
pub fn holds_id(v: &Vec<DropletId>, x: DropletId) -> (r: bool)
    ensures
        r == v@.contains(x),
{
    let mut i: usize = 0;
    while i < v.len()
        invariant
            i <= v@.len(),
            forall|k: int| 0 <= k < i ==> v@[k] != x,
        decreases v@.len() - i,
    {
        if v[i] == x {
            return true;
        }
        i += 1;
    }
    false
}

/// Keeps, from tick to tick, which commands have been committed.
pub struct Scheduler {
    committed: Vec<CmdIndex>,
}

impl Scheduler {
    /// Node `c` was committed.
    pub closed spec fn is_committed(&self, c: CmdIndex) -> bool {
        self.committed@.contains(c)
    }

    /// Whatever `earlier` had committed, this scheduler has too.
    pub open spec fn extends(&self, earlier: &Scheduler) -> bool {
        forall|c: CmdIndex| earlier.is_committed(c) ==> self.is_committed(c)
    }

    /// Node `i` may run: it is not committed, and each node it depends on
    /// is.
    pub open spec fn ready(&self, graph: &Graph, i: int) -> bool {
        &&& 0 <= i < graph.size()
        &&& !self.is_committed(i as usize)
        &&& forall|j: int|
            0 <= j < graph.predecessors_of(i).len() ==> self.is_committed(
                #[trigger] graph.predecessors_of(i)[j],
            )
    }

    /// The nodes below `n` that may run, in the order of their handles.
    pub open spec fn ready_below(&self, graph: &Graph, n: nat) -> Seq<CmdIndex>
        decreases n,
    {
        if n == 0 {
            Seq::empty()
        } else {
            let rest = self.ready_below(graph, (n - 1) as nat);
            if self.ready(graph, n - 1) {
                rest.push((n - 1) as usize)
            } else {
                rest
            }
        }
    }

    /// The nodes that run: those that may, and under a limit the first of
    /// them.
    pub open spec fn chosen(&self, graph: &Graph, limit: Option<usize>) -> Seq<CmdIndex> {
        capped(self.ready_below(graph, graph.size()), limit)
    }

    /// What `schedule` answers: the nodes that run with the droplets to
    /// park, or the first fault among those nodes.
    pub open spec fn outcome(&self, graph: &Graph, gridview: &GridView, limit: Option<usize>) -> Result<
        (Seq<CmdIndex>, Seq<DropletId>),
        SchedError,
    > {
        let chosen = self.chosen(graph, limit);
        match first_fault(graph, gridview, chosen, chosen.len()) {
            Some(e) => Err(e),
            None => Ok(
                (
                    chosen,
                    kept(
                        gridview.droplets(),
                        consumed(graph, chosen, chosen.len()),
                        gridview.droplets().len(),
                    ),
                ),
            ),
        }
    }

    /// A scheduler that has committed nothing.
    pub fn new() -> (s: Scheduler)
        ensures
            forall|c: CmdIndex| !s.is_committed(c),
    {
        Scheduler { committed: Vec::new() }
    }

    /// Whether node `c` was committed.
    pub fn has_committed(&self, c: CmdIndex) -> (r: bool)
        ensures
            r == self.is_committed(c),
    {
        holds_index(&self.committed, c)
    }

    /// Whether node `i` may run.
    #[verifier::loop_isolation(false)]
    fn is_ready(&self, graph: &Graph, i: usize) -> (r: bool)
        requires
            i < graph.size(),
        ensures
            r == self.ready(graph, i as int),
    {
        if holds_index(&self.committed, i) {
            return false;
        }
        let predecessors = graph.predecessors(i);
        let mut j: usize = 0;
        while j < predecessors.len()
            invariant
                j <= predecessors@.len(),
                forall|q: int| 0 <= q < j ==> self.is_committed(#[trigger] predecessors@[q]),
            decreases predecessors@.len() - j,
        {
            if !holds_index(&self.committed, predecessors[j]) {
                return false;
            }
            j += 1;
        }
        true
    }

    /// Picks the commands of this tick. The nodes that may run are taken in
    /// the order of their handles, under a limit the first `limit` of them.
    /// Each must have a command bound that can say what it needs on the
    /// grid: the first that fails is the error. The droplets to park are
    /// the residents that none of the picked commands consumes.
    #[verifier::loop_isolation(false)]
    pub fn schedule(&self, req: &SchedRequest) -> (r: Result<SchedResponse, SchedError>)
        ensures
            match r {
                Ok(resp) => self.outcome(req.graph, req.gridview, req.limit) == Ok::<
                    (Seq<CmdIndex>, Seq<DropletId>),
                    SchedError,
                >((resp.commands_to_run@, resp.droplets_to_store@)),
                Err(e) => self.outcome(req.graph, req.gridview, req.limit) == Err::<
                    (Seq<CmdIndex>, Seq<DropletId>),
                    SchedError,
                >(e),
            },
    {
        let graph = req.graph;
        let gridview = req.gridview;
        let n = graph.len();
        let mut commands_to_run: Vec<CmdIndex> = Vec::new();
        let mut i: usize = 0;
        while i < n
            invariant
                i <= n,
                commands_to_run@ == capped(self.ready_below(graph, i as nat), req.limit),
                forall|k: int| 0 <= k < commands_to_run@.len() ==> commands_to_run@[k] < i,
            decreases n - i,
        {
            let ghost all = self.ready_below(graph, i as nat);
            let full = match req.limit {
                Some(k) => commands_to_run.len() >= k,
                None => false,
            };
            if !full && self.is_ready(graph, i) {
                commands_to_run.push(i);
                assert(commands_to_run@ =~= capped(all.push(i), req.limit));
            } else {
                proof {
                    if full && self.ready(graph, i as int) {
                        assert(commands_to_run@ =~= capped(all.push(i), req.limit));
                    }
                }
            }
            i += 1;
        }
        let ghost chosen = commands_to_run@;
        let mut taken: Vec<DropletId> = Vec::new();
        let mut k: usize = 0;
        while k < commands_to_run.len()
            invariant
                k <= chosen.len(),
                commands_to_run@ == chosen,
                first_fault(graph, gridview, chosen, k as nat).is_none(),
                taken@ == consumed(graph, chosen, k as nat),
            decreases chosen.len() - k,
        {
            let c = commands_to_run[k];
            match graph.command(c) {
                None => {
                    proof {
                        lemma_fault_stays(graph, gridview, chosen, (k + 1) as nat, chosen.len());
                    }
                    return Err(SchedError::Unbound(c));
                },
                Some(command) => {
                    if !command.can_request(gridview) {
                        proof {
                            lemma_fault_stays(graph, gridview, chosen, (k + 1) as nat, chosen.len());
                        }
                        return Err(SchedError::NotRequestable(c));
                    }
                    let mut inputs = command.input_droplets();
                    taken.append(&mut inputs);
                },
            }
            k += 1;
        }
        let mut droplets_to_store: Vec<DropletId> = Vec::new();
        let mut d: usize = 0;
        while d < gridview.len()
            invariant
                d <= gridview.droplets().len(),
                droplets_to_store@ == kept(gridview.droplets(), taken@, d as nat),
            decreases gridview.droplets().len() - d,
        {
            let id = gridview.nth(d).id;
            if !holds_id(&taken, id) {
                droplets_to_store.push(id);
            }
            d += 1;
        }
        Ok(SchedResponse { commands_to_run, droplets_to_store })
    }

    /// Marks the commands of `resp` as committed.
    #[verifier::loop_isolation(false)]
    pub fn commit(&mut self, resp: &SchedResponse)
        ensures
            forall|c: CmdIndex|
                final(self).is_committed(c) == (old(self).is_committed(c)
                    || resp.commands_to_run@.contains(c)),
    {
        let ghost before = self.committed@;
        let ghost run = resp.commands_to_run@;
        let mut i: usize = 0;
        while i < resp.commands_to_run.len()
            invariant
                i <= run.len(),
                forall|x: CmdIndex|
                    #[trigger] self.committed@.contains(x) ==> before.contains(x) || run.take(
                        i as int,
                    ).contains(x),
                forall|x: CmdIndex| #[trigger] before.contains(x) ==> self.committed@.contains(x),
                forall|q: int| 0 <= q < i ==> self.committed@.contains(#[trigger] run[q]),
            decreases run.len() - i,
        {
            let c = resp.commands_to_run[i];
            let ghost held = self.committed@;
            if !holds_index(&self.committed, c) {
                self.committed.push(c);
            }
            proof {
                let prev = run.take(i as int);
                let next = run.take(i as int + 1);
                let now = self.committed@;
                assert(next[i as int] == c);
                assert forall|x: CmdIndex| held.contains(x) implies now.contains(x) by {
                    let q = choose|q: int| 0 <= q < held.len() && held[q] == x;
                    assert(now[q] == x);
                }
                if !held.contains(c) {
                    assert(now[held.len() as int] == c);
                }
                assert(now.contains(c));
                assert forall|x: CmdIndex| #[trigger] now.contains(x) implies before.contains(x)
                    || next.contains(x) by {
                    let q = choose|q: int| 0 <= q < now.len() && now[q] == x;
                    if q < held.len() {
                        assert(held[q] == x);
                        assert(held.contains(x));
                        if !before.contains(x) {
                            let w = choose|w: int| 0 <= w < prev.len() && prev[w] == x;
                            assert(next[w] == x);
                        }
                    }
                }
            }
            i += 1;
        }
        proof {
            assert(run.take(run.len() as int) =~= run);
            assert forall|c: CmdIndex|
                self.is_committed(c) == (old(self).is_committed(c) || run.contains(c)) by {
                if run.contains(c) {
                    let q = choose|q: int| 0 <= q < run.len() && run[q] == c;
                    assert(self.committed@.contains(run[q]));
                }
            }
        }
    }
}

/// A fault found among the first nodes is the fault found among more.
pub proof fn lemma_fault_stays(graph: &Graph, gridview: &GridView, chosen: Seq<CmdIndex>, k: nat, n: nat)
    requires
        k <= n,
        first_fault(graph, gridview, chosen, k).is_some(),
    ensures
        first_fault(graph, gridview, chosen, n) == first_fault(graph, gridview, chosen, k),
    decreases n,
{
    if k < n {
        lemma_fault_stays(graph, gridview, chosen, k, (n - 1) as nat);
    }
}

/// Where the first nodes have no fault, none of them has one.
pub proof fn lemma_no_fault(graph: &Graph, gridview: &GridView, chosen: Seq<CmdIndex>, n: nat, k: int)
    requires
        first_fault(graph, gridview, chosen, n).is_none(),
        0 <= k < n,
    ensures
        fault_at(graph, gridview, chosen[k]).is_none(),
    decreases n,
{
    if k < n - 1 {
        lemma_no_fault(graph, gridview, chosen, (n - 1) as nat, k);
    }
}

/// Every node among those below `n` that may run is below `n` and may run,
/// and the nodes come in rising order.
pub proof fn lemma_ready_below(s: &Scheduler, graph: &Graph, n: nat)
    requires
        n <= graph.size(),
    ensures
        forall|k: int|
            0 <= k < s.ready_below(graph, n).len() ==> {
                &&& (#[trigger] s.ready_below(graph, n)[k]) < n
                &&& s.ready(graph, s.ready_below(graph, n)[k] as int)
            },
        forall|a: int, b: int|
            0 <= a < b < s.ready_below(graph, n).len() ==> (#[trigger] s.ready_below(graph, n)[a])
                < (#[trigger] s.ready_below(graph, n)[b]),
        s.ready_below(graph, n).len() <= n,
    decreases n,
{
    if n > 0 {
        graph.lemma_size_bounded();
        lemma_ready_below(s, graph, (n - 1) as nat);
        let rest = s.ready_below(graph, (n - 1) as nat);
        let all = s.ready_below(graph, n);
        assert forall|k: int| 0 <= k < all.len() implies (#[trigger] all[k]) < n && s.ready(
            graph,
            all[k] as int,
        ) by {
            if k < rest.len() {
                assert(all[k] == rest[k]);
            }
        }
        assert forall|a: int, b: int| 0 <= a < b < all.len() implies (#[trigger] all[a]) < (
        #[trigger] all[b]) by {
            assert(all[a] == rest[a]);
            if b < rest.len() {
                assert(all[b] == rest[b]);
            }
        }
    }
}

/// What is chosen may run: it is a node of the graph, it is not committed,
/// and each node it depends on is. No node is chosen twice, and under a
/// limit no more nodes are chosen than the limit allows.
pub proof fn lemma_chosen_ready(s: &Scheduler, graph: &Graph, limit: Option<usize>)
    ensures
        forall|k: int|
            0 <= k < s.chosen(graph, limit).len() ==> s.ready(
                graph,
                (#[trigger] s.chosen(graph, limit)[k]) as int,
            ),
        forall|a: int, b: int|
            0 <= a < b < s.chosen(graph, limit).len() ==> (#[trigger] s.chosen(graph, limit)[a]) < (
            #[trigger] s.chosen(graph, limit)[b]),
        s.chosen(graph, limit).len() <= graph.size(),
        limit.is_some() ==> s.chosen(graph, limit).len() <= limit.unwrap(),
{
    lemma_ready_below(s, graph, graph.size());
}

/// Every node below `n` that may run is among those listed.
pub proof fn lemma_ready_listed(s: &Scheduler, graph: &Graph, n: nat, i: int)
    requires
        0 <= i < n <= graph.size(),
        s.ready(graph, i),
    ensures
        s.ready_below(graph, n).contains(i as usize),
    decreases n,
{
    graph.lemma_size_bounded();
    let all = s.ready_below(graph, n);
    let rest = s.ready_below(graph, (n - 1) as nat);
    if i == n - 1 {
        assert(all[rest.len() as int] == i as usize);
    } else {
        lemma_ready_listed(s, graph, (n - 1) as nat, i);
        let k = choose|k: int| 0 <= k < rest.len() && rest[k] == i as usize;
        assert(all[k] == rest[k]);
    }
}

/// No node that may run is left out but for the limit: where one is left
/// out, as many nodes are chosen as the limit allows.
pub proof fn lemma_chosen_maximal(s: &Scheduler, graph: &Graph, limit: Option<usize>, i: int)
    requires
        s.ready(graph, i),
    ensures
        s.chosen(graph, limit).contains(i as usize) || (limit.is_some() && s.chosen(
            graph,
            limit,
        ).len() == limit.unwrap()),
{
    lemma_ready_listed(s, graph, graph.size(), i);
}

/// A droplet is consumed by the first `n` of `chosen` exactly when the
/// command of one of them consumes it.
pub proof fn lemma_consumed_members(graph: &Graph, chosen: Seq<CmdIndex>, n: nat, id: DropletId)
    ensures
        consumed(graph, chosen, n).contains(id) <==> exists|k: int|
            0 <= k < n && #[trigger] inputs_at(graph, chosen[k]).contains(id),
    decreases n,
{
    if n > 0 {
        lemma_consumed_members(graph, chosen, (n - 1) as nat, id);
        let before = consumed(graph, chosen, (n - 1) as nat);
        let last = inputs_at(graph, chosen[n - 1]);
        let all = before + last;
        if all.contains(id) {
            let q = choose|q: int| 0 <= q < all.len() && all[q] == id;
            if q < before.len() {
                assert(before[q] == id);
            } else {
                assert(last[q - before.len()] == id);
            }
        }
        if before.contains(id) {
            let q = choose|q: int| 0 <= q < before.len() && before[q] == id;
            assert(all[q] == id);
        }
        if last.contains(id) {
            let q = choose|q: int| 0 <= q < last.len() && last[q] == id;
            assert(all[before.len() + q] == id);
        }
    }
}

/// A droplet is kept exactly when it is one of the first `n` residents and
/// not taken.
pub proof fn lemma_kept_members(residents: Seq<Droplet>, taken: Seq<DropletId>, n: nat, id: DropletId)
    requires
        n <= residents.len(),
    ensures
        kept(residents, taken, n).contains(id) <==> !taken.contains(id) && exists|j: int|
            0 <= j < n && (#[trigger] residents[j]).id == id,
    decreases n,
{
    if n > 0 {
        lemma_kept_members(residents, taken, (n - 1) as nat, id);
        let rest = kept(residents, taken, (n - 1) as nat);
        let all = kept(residents, taken, n);
        let last = residents[n - 1].id;
        if all.contains(id) {
            let q = choose|q: int| 0 <= q < all.len() && all[q] == id;
            if q < rest.len() {
                assert(rest[q] == id);
            }
        }
        if rest.contains(id) {
            let q = choose|q: int| 0 <= q < rest.len() && rest[q] == id;
            assert(all[q] == id);
        }
        if !taken.contains(last) {
            assert(all[rest.len() as int] == last);
        }
    }
}

/// A command that was committed in one tick is in no later tick among the
/// commands to run, and a command runs only when every command it depends
/// on was committed before.
pub proof fn lemma_monotonic_commit(
    earlier: &Scheduler,
    later: &Scheduler,
    graph: &Graph,
    limit: Option<usize>,
    c: CmdIndex,
)
    requires
        later.extends(earlier),
    ensures
        earlier.is_committed(c) ==> !later.chosen(graph, limit).contains(c),
        later.chosen(graph, limit).contains(c) ==> forall|j: int|
            0 <= j < graph.predecessors_of(c as int).len() ==> later.is_committed(
                #[trigger] graph.predecessors_of(c as int)[j],
            ),
{
    lemma_chosen_ready(later, graph, limit);
    if later.chosen(graph, limit).contains(c) {
        let k = choose|k: int|
            0 <= k < later.chosen(graph, limit).len() && later.chosen(graph, limit)[k] == c;
        assert(later.ready(graph, later.chosen(graph, limit)[k] as int));
    }
}

} // verus!
