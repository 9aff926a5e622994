//! The run report.
//!
//! The report is not a log. It is the raw material for the benchmark: per step attribution, time
//! to first visible change, and the cold / warm / hot split. Anything that gets published has to
//! be recoverable from here without re-running anything.

use crate::engine::eta::Eta;
use crate::identity::ActionKey;
use crate::identity::Attribution;
use crate::identity::Digest;
use crate::identity::NodeKey;
use crate::identity::NodeKind;
use crate::names;
use crate::names::ascending;
use crate::text::texts;
use vstd::prelude::*;

verus! {

/// How a node came to its result.
#[derive(Clone, Copy, PartialEq, Eq, Debug, Structural)]
pub enum NodeStatus {
    /// Served from the memo store. Zero work.
    Hit,
    /// Found already complete in the task's journal after a crash or disconnect.
    Resumed,
    /// Actually executed.
    Computed,
    /// Executed and its verdict was Fail.
    Failed,
    /// Never ran: something upstream failed.
    Skipped,
    /// Ran, and handed its result to a subgraph it computed. Its own report carries that
    /// subgraph's outputs once the substitute finishes.
    Expanded,
}

impl NodeStatus {
    /// Did the node execute in this run?
    pub open spec fn worked(self) -> bool {
        self is Computed || self is Failed || self is Expanded
    }

    pub fn did_work(&self) -> (r: bool)
        ensures
            r == self.worked(),
    {
        matches!(self, NodeStatus::Computed | NodeStatus::Failed | NodeStatus::Expanded)
    }
}

/// What happened to one node.
#[derive(Debug)]
pub struct NodeReport {
    pub key: NodeKey,
    pub kind: NodeKind,
    pub action: Option<ActionKey>,
    pub status: NodeStatus,
    pub outputs: Vec<Digest>,
    /// Execution time, excluding time queued behind a lane cap.
    pub exec_ms: u64,
    /// Time spent waiting for a slot. Contention, not work.
    pub queue_ms: u64,
    pub attribution: Attribution,
    pub was_job: bool,
    /// Milliseconds after task start when this node finished.
    pub finished_at_ms: u64,
    pub diagnostics: Vec<String>,
}

/// A node report as plain values.
#[verifier::ext_equal]
pub struct ReportModel {
    pub key: Seq<char>,
    pub kind: NodeKind,
    pub action: Option<ActionKey>,
    pub status: NodeStatus,
    pub outputs: Seq<Digest>,
    pub exec_ms: u64,
    pub queue_ms: u64,
    pub attribution: Attribution,
    pub was_job: bool,
    pub finished_at_ms: u64,
    pub diagnostics: Seq<Seq<char>>,
}

impl View for NodeReport {
    type V = ReportModel;

    open spec fn view(&self) -> ReportModel {
        ReportModel {
            key: self.key@,
            kind: self.kind,
            action: self.action,
            status: self.status,
            outputs: self.outputs@,
            exec_ms: self.exec_ms,
            queue_ms: self.queue_ms,
            attribution: self.attribution,
            was_job: self.was_job,
            finished_at_ms: self.finished_at_ms,
            diagnostics: texts(self.diagnostics@),
        }
    }
}

/// A copy of a run of digests.
pub fn copy_digests(v: &Vec<Digest>) -> (r: Vec<Digest>)
    ensures
        r@ == v@,
{
    vstd::slice::slice_to_vec(v.as_slice())
}

impl Clone for NodeReport {
    fn clone(&self) -> (r: Self)
        ensures
            r@ == self@,
    {
        NodeReport {
            key: self.key.clone(),
            kind: self.kind,
            action: self.action,
            status: self.status,
            outputs: copy_digests(&self.outputs),
            exec_ms: self.exec_ms,
            queue_ms: self.queue_ms,
            attribution: self.attribution,
            was_job: self.was_job,
            finished_at_ms: self.finished_at_ms,
            diagnostics: crate::text::copy_strings(&self.diagnostics),
        }
    }
}

/// What a whole run did.
#[derive(Debug)]
pub struct RunReport {
    pub task_id: String,
    pub wall_ms: u64,
    /// Eta computed before any node ran, from history alone.
    pub eta_at_start: Eta,
    /// When the first node produced output: the time to first visible change.
    pub first_change_ms: Option<u64>,
    pub nodes: Vec<NodeReport>,
    /// Summed attribution across every node that did work.
    pub attribution: Attribution,
    /// Wall time the memo store saved, as originally measured on the nodes that hit.
    pub saved_ms: u64,
}

/// How many of these reports satisfy the test.
pub open spec fn tally(nodes: Seq<NodeReport>, p: spec_fn(NodeReport) -> bool) -> nat
    decreases nodes.len(),
{
    if nodes.len() == 0 {
        0
    } else {
        tally(nodes.drop_last(), p) + if p(nodes.last()) {
            1nat
        } else {
            0nat
        }
    }
}

proof fn lemma_tally_bound(nodes: Seq<NodeReport>, p: spec_fn(NodeReport) -> bool)
    ensures
        tally(nodes, p) <= nodes.len(),
        tally(nodes, p) == 0 <==> forall|i: int| 0 <= i < nodes.len() ==> !p(#[trigger] nodes[i]),
    decreases nodes.len(),
{
    if nodes.len() > 0 {
        lemma_tally_bound(nodes.drop_last(), p);
        if tally(nodes, p) == 0 {
            assert forall|i: int| 0 <= i < nodes.len() implies !p(#[trigger] nodes[i]) by {
                if i < nodes.len() - 1 {
                    assert(nodes.drop_last()[i] == nodes[i]);
                }
            }
        } else if !p(nodes.last()) {
            let i = choose|i: int|
                0 <= i < nodes.drop_last().len() && p(#[trigger] nodes.drop_last()[i]);
            assert(p(nodes[i]));
        } else {
            assert(p(nodes[nodes.len() - 1]));
        }
    }
}

/// Counts of one status and of another cannot exceed the nodes there are.
proof fn lemma_tally_disjoint(
    nodes: Seq<NodeReport>,
    p: spec_fn(NodeReport) -> bool,
    q: spec_fn(NodeReport) -> bool,
)
    requires
        forall|n: NodeReport| !(#[trigger] p(n) && #[trigger] q(n)),
    ensures
        tally(nodes, p) + tally(nodes, q) <= nodes.len(),
    decreases nodes.len(),
{
    if nodes.len() > 0 {
        lemma_tally_disjoint(nodes.drop_last(), p, q);
        let n = nodes.last();
        assert(!(p(n) && q(n)));
    }
}

/// Does the report have this status?
pub open spec fn has_status(s: NodeStatus) -> spec_fn(NodeReport) -> bool {
    |n: NodeReport| n.status == s
}

/// Did the node execute?
pub open spec fn did_its_work() -> spec_fn(NodeReport) -> bool {
    |n: NodeReport| n.status.worked()
}

impl RunReport {
    pub fn count(&self, status: NodeStatus) -> (r: usize)
        ensures
            r == tally(self.nodes@, has_status(status)),
    {
        let mut c: usize = 0;
        let mut i: usize = 0;
        let ghost p = has_status(status);
        while i < self.nodes.len()
            invariant
                i <= self.nodes@.len(),
                p == has_status(status),
                c == tally(self.nodes@.take(i as int), p),
                c <= i,
            decreases self.nodes@.len() - i,
        {
            proof {
                assert(self.nodes@.take(i + 1).drop_last() =~= self.nodes@.take(i as int));
                lemma_tally_bound(self.nodes@.take(i as int), p);
            }
            if self.nodes[i].status == status {
                c += 1;
            }
            i += 1;
        }
        assert(self.nodes@.take(self.nodes@.len() as int) =~= self.nodes@);
        c
    }

    /// Nodes that cost nothing: served from the memo store or from the journal.
    pub fn hits(&self) -> (r: usize)
        ensures
            r == tally(self.nodes@, has_status(NodeStatus::Hit)) + tally(
                self.nodes@,
                has_status(NodeStatus::Resumed),
            ),
    {
        proof {
            lemma_tally_disjoint(
                self.nodes@,
                has_status(NodeStatus::Hit),
                has_status(NodeStatus::Resumed),
            );
        }
        assert(self.nodes@.len() == self.nodes.len());
        self.count(NodeStatus::Hit) + self.count(NodeStatus::Resumed)
    }

    pub fn computed(&self) -> (r: usize)
        ensures
            r == tally(self.nodes@, did_its_work()),
    {
        let mut c: usize = 0;
        let mut i: usize = 0;
        let ghost p = did_its_work();
        while i < self.nodes.len()
            invariant
                i <= self.nodes@.len(),
                p == did_its_work(),
                c == tally(self.nodes@.take(i as int), p),
                c <= i,
            decreases self.nodes@.len() - i,
        {
            proof {
                assert(self.nodes@.take(i + 1).drop_last() =~= self.nodes@.take(i as int));
            }
            if self.nodes[i].status.did_work() {
                c += 1;
            }
            i += 1;
        }
        assert(self.nodes@.take(self.nodes@.len() as int) =~= self.nodes@);
        c
    }

    /// Nodes that expanded into a subgraph rather than producing a result directly.
    pub fn expanded(&self) -> (r: usize)
        ensures
            r == tally(self.nodes@, has_status(NodeStatus::Expanded)),
    {
        self.count(NodeStatus::Expanded)
    }

    pub fn failed(&self) -> (r: usize)
        ensures
            r == tally(self.nodes@, has_status(NodeStatus::Failed)),
    {
        self.count(NodeStatus::Failed)
    }

    /// Nothing failed and nothing was skipped.
    pub fn ok(&self) -> (r: bool)
        ensures
            r == (forall|i: int|
                0 <= i < self.nodes@.len() ==> !((#[trigger] self.nodes@[i]).status is Failed)
                    && !(self.nodes@[i].status is Skipped)),
    {
        proof {
            lemma_tally_bound(self.nodes@, has_status(NodeStatus::Failed));
            lemma_tally_bound(self.nodes@, has_status(NodeStatus::Skipped));
            let f = has_status(NodeStatus::Failed);
            let s = has_status(NodeStatus::Skipped);
            assert forall|i: int| 0 <= i < self.nodes@.len() implies f(
                #[trigger] self.nodes@[i],
            ) == (self.nodes@[i].status is Failed) && s(self.nodes@[i]) == (
            self.nodes@[i].status is Skipped) by {}
        }
        self.failed() == 0 && self.count(NodeStatus::Skipped) == 0
    }

    /// Exactly which nodes did work, in ascending order.
    pub fn computed_keys(&self) -> (r: Vec<String>)
        ensures
            ascending(texts(r@)),
            forall|x: Seq<char>| #[trigger]
                texts(r@).contains(x) <==> exists|i: int|
                    0 <= i < self.nodes@.len() && (#[trigger] self.nodes@[i]).key@ == x
                        && self.nodes@[i].status.worked(),
    {
        let mut out: Vec<String> = Vec::new();
        let mut i: usize = 0;
        while i < self.nodes.len()
            invariant
                i <= self.nodes@.len(),
                ascending(texts(out@)),
                forall|x: Seq<char>| #[trigger]
                    texts(out@).contains(x) <==> exists|k: int|
                        0 <= k < i && (#[trigger] self.nodes@[k]).key@ == x
                            && self.nodes@[k].status.worked(),
            decreases self.nodes@.len() - i,
        {
            let n = &self.nodes[i];
            if n.status.did_work() {
                names::insert(&mut out, n.key.0.clone());
            }
            i += 1;
        }
        out
    }

    pub fn node(&self, key: &str) -> (r: Option<&NodeReport>)
        ensures
            match r {
                Some(n) => exists|i: int|
                    0 <= i < self.nodes@.len() && self.nodes@[i] == *n && n.key@ == key@ && forall|
                        k: int,
                    |
                        0 <= k < i ==> (#[trigger] self.nodes@[k]).key@ != key@,
                None => forall|k: int|
                    0 <= k < self.nodes@.len() ==> (#[trigger] self.nodes@[k]).key@ != key@,
            },
    {
        let owned = key.to_owned();
        let mut i: usize = 0;
        while i < self.nodes.len()
            invariant
                owned@ == key@,
                i <= self.nodes@.len(),
                forall|k: int| 0 <= k < i ==> (#[trigger] self.nodes@[k]).key@ != key@,
            decreases self.nodes@.len() - i,
        {
            if self.nodes[i].key.0 == owned {
                return Some(&self.nodes[i]);
            }
            i += 1;
        }
        None
    }

    /// A hot run is one where nothing was computed at all.
    pub fn is_hot(&self) -> (r: bool)
        ensures
            r == (self.nodes@.len() > 0 && forall|i: int|
                0 <= i < self.nodes@.len() ==> !(#[trigger] self.nodes@[i]).status.worked()),
    {
        proof {
            lemma_tally_bound(self.nodes@, did_its_work());
            let p = did_its_work();
            assert forall|i: int| 0 <= i < self.nodes@.len() implies p(#[trigger] self.nodes@[i])
                == self.nodes@[i].status.worked() by {}
        }
        self.computed() == 0 && self.nodes.len() > 0
    }
}

} // verus!
