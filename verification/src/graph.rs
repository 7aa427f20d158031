//! The dependency graph of commands.

use crate::command::Command;
use vstd::prelude::*;

verus! {

/// The handle of a node: its position in the graph.
pub type CmdIndex = usize;

/// A node: the command bound to it, if one is bound yet, and the nodes that
/// have to be committed before it may run.
pub struct Node {
    pub command: Option<Command>,
    pub predecessors: Vec<CmdIndex>,
}

/// Commands and their dependencies. A node depends only on nodes that were
/// added before it, so the graph has no cycle.
pub struct Graph {
    nodes: Vec<Node>,
}

impl Graph {
    /// The nodes, in the order in which they were added.
    pub closed spec fn nodes(&self) -> Seq<Node> {
        self.nodes@
    }

    /// The number of nodes.
    pub open spec fn size(&self) -> nat {
        self.nodes().len()
    }

    /// The command bound to node `i`.
    pub open spec fn command_of(&self, i: int) -> Option<Command> {
        self.nodes()[i].command
    }

    /// The nodes that node `i` depends on.
    pub open spec fn predecessors_of(&self, i: int) -> Seq<CmdIndex> {
        self.nodes()[i].predecessors@
    }

    /// Every node depends on earlier nodes only.
    pub open spec fn wf(&self) -> bool {
        forall|i: int, j: int|
            0 <= i < self.size() && 0 <= j < self.predecessors_of(i).len() ==> (
            #[trigger] self.predecessors_of(i)[j]) < i
    }

    /// Every node has a handle.
    pub proof fn lemma_size_bounded(&self)
        ensures
            self.size() <= usize::MAX,
    {
        assert(self.nodes@.len() == self.nodes.len());
    }

    /// A graph without nodes.
    pub fn new() -> (g: Graph)
        ensures
            g.wf(),
            g.size() == 0,
    {
        Graph { nodes: Vec::new() }
    }

    /// The number of nodes.
    pub fn len(&self) -> (n: usize)
        ensures
            n == self.size(),
    {
        self.nodes.len()
    }

    /// Adds a node that depends on `predecessors` and hands back its handle.
    /// Where one of `predecessors` is not a node of the graph, nothing is
    /// added.
    #[verifier::loop_isolation(false)]
    pub fn add(&mut self, command: Option<Command>, predecessors: Vec<CmdIndex>) -> (r: Option<
        CmdIndex,
    >)
        requires
            old(self).wf(),
        ensures
            final(self).wf(),
            r.is_some() <==> (forall|j: int|
                0 <= j < predecessors@.len() ==> (#[trigger] predecessors@[j]) < old(self).size()),
            match r {
                Some(index) => {
                    &&& index == old(self).size()
                    &&& final(self).size() == old(self).size() + 1
                    &&& final(self).command_of(index as int) == command
                    &&& final(self).predecessors_of(index as int) == predecessors@
                    &&& forall|i: int|
                        0 <= i < old(self).size() ==> #[trigger] final(self).nodes()[i] == old(
                            self,
                        ).nodes()[i]
                },
                None => final(self).nodes() == old(self).nodes(),
            },
    {
        let n = self.nodes.len();
        let mut j: usize = 0;
        while j < predecessors.len()
            invariant
                j <= predecessors@.len(),
                forall|k: int| 0 <= k < j ==> (#[trigger] predecessors@[k]) < n,
            decreases predecessors@.len() - j,
        {
            if predecessors[j] >= n {
                return None;
            }
            j += 1;
        }
        let ghost before = self.nodes@;
        self.nodes.push(Node { command, predecessors });
        proof {
            assert forall|i: int, k: int|
                0 <= i < self.size() && 0 <= k < self.predecessors_of(i).len() implies (
            #[trigger] self.predecessors_of(i)[k]) < i by {
                if i < n {
                    assert(self.nodes@[i] == before[i]);
                    assert(old(self).predecessors_of(i)[k] < i);
                }
            }
        }
        Some(n)
    }

    /// Binds `command` to node `index`, in place of what was bound there.
    /// Hands back whether `index` is a node of the graph; where it is not,
    /// nothing changes.
    pub fn bind(&mut self, index: CmdIndex, command: Command) -> (r: bool)
        requires
            old(self).wf(),
        ensures
            final(self).wf(),
            r == (index < old(self).size()),
            final(self).size() == old(self).size(),
            forall|i: int|
                0 <= i < old(self).size() ==> #[trigger] final(self).predecessors_of(i) == old(
                    self,
                ).predecessors_of(i),
            forall|i: int|
                0 <= i < old(self).size() && i != index ==> #[trigger] final(self).command_of(i)
                    == old(self).command_of(i),
            r ==> final(self).command_of(index as int) == Some(command),
    {
        if index >= self.nodes.len() {
            return false;
        }
        let ghost before = self.nodes@;
        self.nodes[index].command = Some(command);
        proof {
            assert forall|i: int, k: int|
                0 <= i < self.size() && 0 <= k < self.predecessors_of(i).len() implies (
            #[trigger] self.predecessors_of(i)[k]) < i by {
                assert(self.nodes@[i].predecessors == before[i].predecessors);
                assert(old(self).predecessors_of(i)[k] < i);
            }
        }
        true
    }

    /// The command bound to node `index`.
    pub fn command(&self, index: CmdIndex) -> (r: Option<Command>)
        requires
            index < self.size(),
        ensures
            r == self.command_of(index as int),
    {
        self.nodes[index].command
    }

    /// The nodes that node `index` depends on.
    pub fn predecessors(&self, index: CmdIndex) -> (r: &Vec<CmdIndex>)
        requires
            index < self.size(),
        ensures
            r@ == self.predecessors_of(index as int),
    {
        &self.nodes[index].predecessors
    }
}

} // verus!
