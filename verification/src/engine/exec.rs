//! What it takes to execute one node, and the bookkeeping around slow ones.
//!
//! A node whose p50 is over the threshold, or which is a render or build by nature, runs as a
//! *job*: it gets an id, a progress stream and a cancel handle, and the scheduler never blocks on
//! it.

use crate::engine::graph::NodeSpec;
use crate::identity::Attribution;
use crate::identity::Digest;
use crate::identity::NodeKey;
use crate::identity::NodeOutput;
use vstd::prelude::*;

verus! {

/// The number of a job.
#[derive(Clone, Copy, PartialEq, Eq, Hash, Debug, PartialOrd, Ord, Structural)]
pub struct JobId(pub u64);

/// Live jobs for a daemon. The registry belongs to the engine, not to whoever asked for the task,
/// so a client that disconnects stops nothing.
pub struct JobRegistry {
    /// The number of the last job that was registered.
    pub next: u64,
    /// The jobs that have not finished, in the order they were registered.
    pub running: Vec<(JobId, NodeKey)>,
}

/// Which nodes run under which job numbers.
pub open spec fn job_list(v: Seq<(JobId, NodeKey)>) -> Seq<(u64, Seq<char>)> {
    v.map_values(|p: (JobId, NodeKey)| (p.0.0, p.1@))
}

impl View for JobRegistry {
    type V = Seq<(u64, Seq<char>)>;

    open spec fn view(&self) -> Seq<(u64, Seq<char>)> {
        job_list(self.running@)
    }
}

impl JobRegistry {
    /// Job numbers ascend and none is beyond the last that was given out.
    pub open spec fn wf(&self) -> bool {
        &&& forall|i: int| 0 <= i < self@.len() ==> #[trigger] self@[i].0 <= self.next
        &&& forall|i: int, j: int|
            0 <= i < j < self@.len() ==> #[trigger] self@[i].0 < #[trigger] self@[j].0
    }

    pub fn new() -> (r: Self)
        ensures
            r.wf(),
            r@.len() == 0,
            r.next == 0,
    {
        JobRegistry { next: 0, running: Vec::new() }
    }

    /// Give a node the next job number.
    pub fn register(&mut self, node_key: &NodeKey) -> (id: JobId)
        requires
            old(self).wf(),
            old(self).next < u64::MAX,
        ensures
            final(self).wf(),
            id.0 == old(self).next + 1,
            final(self).next == id.0,
            final(self)@ == old(self)@.push((id.0, node_key@)),
    {
        let ghost b = self@;
        assert(forall|i: int| 0 <= i < b.len() ==> #[trigger] b[i].0 <= self.next);
        self.next = self.next + 1;
        let id = JobId(self.next);
        self.running.push((id, node_key.clone()));
        assert(self@ =~= b.push((id.0, node_key@)));
        id
    }

    fn place(&self, id: JobId) -> (r: Option<usize>)
        ensures
            match r {
                Some(i) => i < self@.len() && self@[i as int].0 == id.0,
                None => forall|i: int| 0 <= i < self@.len() ==> #[trigger] self@[i].0 != id.0,
            },
    {
        let mut i: usize = 0;
        while i < self.running.len()
            invariant
                i <= self.running@.len(),
                forall|k: int| 0 <= k < i ==> #[trigger] self@[k].0 != id.0,
            decreases self.running@.len() - i,
        {
            if self.running[i].0.0 == id.0 {
                return Some(i);
            }
            i += 1;
        }
        None
    }

    /// A job ended: it is no longer live.
    pub fn finish(&mut self, id: JobId)
        requires
            old(self).wf(),
        ensures
            final(self).wf(),
            final(self).next == old(self).next,
            final(self)@ == old(self)@.filter(|p: (u64, Seq<char>)| p.0 != id.0),
    {
        let ghost before = self@;
        let ghost keep = |p: (u64, Seq<char>)| p.0 != id.0;
        match self.place(id) {
            Some(i) => {
                let _ = self.running.remove(i);
                proof {
                    assert(self@ =~= before.remove(i as int));
                    lemma_filter_one(before, id.0, i as int);
                }
            },
            None => {
                proof {
                    lemma_filter_none(before, id.0);
                }
            },
        }
    }

    /// Can a job be asked to stop? Not if it already finished.
    pub fn cancel(&self, id: JobId) -> (r: bool)
        ensures
            r == exists|i: int| 0 <= i < self@.len() && #[trigger] self@[i].0 == id.0,
    {
        self.place(id).is_some()
    }

    /// The live jobs, by number.
    pub fn live(&self) -> (r: &Vec<(JobId, NodeKey)>)
        ensures
            job_list(r@) == self@,
    {
        &self.running
    }
}

proof fn lemma_filter_none(s: Seq<(u64, Seq<char>)>, id: u64)
    requires
        forall|i: int| 0 <= i < s.len() ==> #[trigger] s[i].0 != id,
    ensures
        s.filter(|p: (u64, Seq<char>)| p.0 != id) == s,
    decreases s.len(),
{
    reveal(Seq::filter);
    if s.len() > 0 {
        let t = s.drop_last();
        assert forall|i: int| 0 <= i < t.len() implies #[trigger] t[i].0 != id by {
            assert(t[i] == s[i]);
        }
        lemma_filter_none(t, id);
        assert(s.last() == s[s.len() - 1]);
        assert(s =~= t.push(s.last()));
    }
}

proof fn lemma_filter_one(s: Seq<(u64, Seq<char>)>, id: u64, i: int)
    requires
        0 <= i < s.len(),
        s[i].0 == id,
        forall|a: int, b: int| 0 <= a < b < s.len() ==> #[trigger] s[a].0 < #[trigger] s[b].0,
    ensures
        s.filter(|p: (u64, Seq<char>)| p.0 != id) == s.remove(i),
    decreases s.len(),
{
    reveal(Seq::filter);
    let t = s.drop_last();
    if i == s.len() - 1 {
        assert forall|k: int| 0 <= k < t.len() implies #[trigger] t[k].0 != id by {
            assert(s[k].0 < s[i].0);
        }
        lemma_filter_none(t, id);
        assert(s.remove(i) =~= t);
    } else {
        assert forall|a: int, b: int| 0 <= a < b < t.len() implies #[trigger] t[a].0
            < #[trigger] t[b].0 by {
            assert(s[a].0 < s[b].0);
        }
        lemma_filter_one(t, id, i);
        assert(s[i].0 < s[s.len() - 1].0);
        assert(s.remove(i) =~= t.remove(i).push(s.last()));
    }
}

/// A node replaced by the subgraph it just computed.
///
/// A plan node cannot declare its children in advance, because computing them *is* its job. The
/// same primitive covers repair: a verify rung that fails emits a fix-and-recheck subgraph and
/// hands its own identity to the recheck.
///
/// The engine treats the expanding node as delegating: its outputs become the substitute's
/// outputs, and its dependents wait for the substitute rather than for it.
#[derive(Debug)]
pub struct Expansion {
    /// New nodes. They may depend on each other and on nodes already in the graph.
    pub nodes: Vec<NodeSpec>,
    /// Which of the new nodes stands in for the expanding one.
    pub substitute: NodeKey,
}

impl Expansion {
    pub fn new(nodes: Vec<NodeSpec>, substitute: &str) -> (r: Self)
        ensures
            r.nodes == nodes,
            r.substitute@ == substitute@,
    {
        Expansion { nodes, substitute: NodeKey::new(substitute) }
    }
}

/// What an executor hands back: an output, and optionally a subgraph that supersedes it.
#[derive(Debug)]
pub struct NodeResult {
    pub output: NodeOutput,
    pub expansion: Option<Expansion>,
}

impl NodeResult {
    pub fn done(output: NodeOutput) -> (r: Self)
        ensures
            r.output == output,
            r.expansion is None,
    {
        NodeResult { output, expansion: None }
    }

    /// Delegate to a subgraph. The node itself is recorded as passing: it did its job, which was
    /// to work out what the real work is.
    pub fn expand(outputs: Vec<Digest>, expansion: Expansion) -> (r: Self)
        ensures
            r.output.outputs == outputs,
            r.output.verdict is Pass,
            r.output.attribution == Attribution::nothing(),
            r.output.diagnostics@.len() == 0,
            r.expansion == Some(expansion),
    {
        NodeResult { output: NodeOutput::pass(outputs), expansion: Some(expansion) }
    }
}

} // verus!
