//! A run from its beginning to its end: what is to be done next, and what is made of each reply.
//!
//! Looking a result up, handing a node to an executor and waiting for one are done by whoever
//! drives the run. What is decided between them is decided here.

use crate::engine::eta::Eta;
use crate::engine::exec::Expansion;
use crate::engine::exec::NodeResult;
use crate::engine::graph::executable;
use crate::engine::graph::key_names;
use crate::engine::graph::plans;
use crate::engine::graph::GraphError;
use crate::engine::graph::NodeSpec;
use crate::engine::graph::Plan;
use crate::engine::graph::TaskGraph;
use crate::engine::report::copy_digests;
use crate::engine::report::RunReport;
use crate::engine::scheduler::completes;
use crate::engine::scheduler::drained;
use crate::engine::scheduler::hits;
use crate::engine::scheduler::listed;
use crate::engine::scheduler::name_lists;
use crate::engine::scheduler::report_list;
use crate::engine::scheduler::resumes;
use crate::engine::scheduler::takes;
use crate::engine::scheduler::Dispatch;
use crate::engine::scheduler::Effect;
use crate::engine::scheduler::EngineError;
use crate::engine::scheduler::RunModel;
use crate::engine::scheduler::RunState;
use crate::identity::ActionKey;
use crate::identity::Attribution;
use crate::identity::Digest;
use crate::store::journal::got_to;
use crate::store::journal::law_a_crash_resumes_at_the_frontier;
use crate::store::journal::Frontier;
use crate::store::journal::JournalEntry;
use crate::text::texts;
use vstd::prelude::*;

verus! {

/// A run of a task's graph.
pub struct Run {
    pub st: RunState,
    /// Where the task got to before, if it was interrupted.
    pub frontier: Frontier,
}

/// What is to be done next.
pub enum Turn {
    /// Take this node up as it was left: the task had completed it with this very action.
    Resumed(Dispatch),
    /// Look this node's result up.
    Look(Dispatch),
    /// Wait for one of the nodes that are running.
    Wait,
    /// Nothing: no node is running, and none will become ready.
    Over,
}

/// A result that was in the memo store.
pub struct Found {
    pub outputs: Vec<Digest>,
    /// What it took to compute.
    pub duration_ms: u64,
    /// The subgraph that the node computed, where it computed one.
    pub replay: Option<Expansion>,
}

/// What becomes of a node whose result was looked up.
pub enum Looked {
    /// Nobody has its result: it is to be run, and counts as running.
    Start,
    /// Its result was there.
    Served(Effect),
}

/// A node that an executor is done with.
pub struct Ended {
    pub spec: NodeSpec,
    pub action: ActionKey,
    pub result: NodeResult,
    pub exec_ms: u64,
    pub queue_ms: u64,
    pub was_job: bool,
}

/// Had the task completed this node with this very action?
pub open spec fn had_done(done: Map<Seq<char>, JournalEntry>, d: Dispatch) -> bool {
    done.contains_key(d.spec.key@) && done[d.spec.key@].action.0@ == d.action.0@
}

/// Is `t` what is to be done next, and `after` the state then?
pub open spec fn turns(
    before: RunModel,
    done: Map<Seq<char>, JournalEntry>,
    t: Turn,
    after: RunModel,
) -> bool {
    match t {
        Turn::Resumed(d) => takes(before, d, after) && had_done(done, d),
        Turn::Look(d) => takes(before, d, after) && !had_done(done, d),
        Turn::Wait => drained(before, after) && !before.running.is_empty(),
        Turn::Over => drained(before, after) && before.running.is_empty(),
    }
}

/// Is this the line for a node that was served without work?
pub open spec fn is_hit_line(e: JournalEntry, d: Dispatch, outputs: Seq<Digest>, at: u64) -> bool {
    &&& e.node_key@ == d.spec.key@
    &&& e.action == d.action
    &&& e.outputs@ == outputs
    &&& e.hit
    &&& e.duration_ms == 0
    &&& e.attribution == Attribution::nothing()
    &&& e.at_unix_ms == at
}

/// Is this the line for a node that was run?
pub open spec fn is_run_line(e: JournalEntry, x: Ended, at: u64) -> bool {
    &&& e.node_key@ == x.spec.key@
    &&& e.action == x.action
    &&& e.outputs@ == x.result.output.outputs@
    &&& !e.hit
    &&& e.duration_ms == x.exec_ms
    &&& e.attribution == x.result.output.attribution
    &&& e.at_unix_ms == at
}

/// The line that the task's journal gets for a node whose result was found.
pub fn hit_line(d: &Dispatch, found: &Found, at_unix_ms: u64) -> (r: JournalEntry)
    ensures
        is_hit_line(r, *d, found.outputs@, at_unix_ms),
{
    JournalEntry {
        node_key: d.spec.key.clone(),
        action: d.action,
        outputs: copy_digests(&found.outputs),
        hit: true,
        duration_ms: 0,
        attribution: Attribution::default(),
        at_unix_ms,
    }
}

/// The line that the task's journal gets for a node that was run. Only a node that passed is done:
/// one that failed is tried again when the task is.
pub fn run_line(x: &Ended, at_unix_ms: u64) -> (r: Option<JournalEntry>)
    ensures
        match r {
            Some(e) => x.result.output.verdict is Pass && is_run_line(e, *x, at_unix_ms),
            None => !(x.result.output.verdict is Pass),
        },
{
    if !x.result.output.verdict.passed() {
        return None;
    }
    Some(
        JournalEntry {
            node_key: x.spec.key.clone(),
            action: x.action,
            outputs: copy_digests(&x.result.output.outputs),
            hit: false,
            duration_ms: x.exec_ms,
            attribution: x.result.output.attribution,
            at_unix_ms,
        },
    )
}

/// What a task's journal says is done is not done again: a run that is resumed looks nothing up,
/// and so runs nothing, that the journal's last line on the node says was completed with the same
/// action.
pub proof fn law_what_is_done_is_not_done_again(
    v: Seq<JournalEntry>,
    i: int,
    before: RunModel,
    d: Dispatch,
    after: RunModel,
)
    requires
        0 <= i < v.len(),
        forall|k: int| i < k < v.len() ==> (#[trigger] v[k]).node_key@ != v[i].node_key@,
        turns(before, got_to(v), Turn::Look(d), after),
        d.spec.key@ == v[i].node_key@,
    ensures
        d.action.0@ != v[i].action.0@,
{
    law_a_crash_resumes_at_the_frontier(v, i);
}

impl Run {
    pub open spec fn wf(&self) -> bool {
        self.st.wf() && self.frontier.wf()
    }

    /// The run of a graph, before anything has been done. The entries are those of the task's
    /// journal, if it is to be resumed. A graph that cannot be executed is refused.
    pub fn begin(
        graph: TaskGraph,
        entries: Vec<JournalEntry>,
        max_depth: usize,
    ) -> (r: Result<Self, GraphError>)
        requires
            graph.wf(),
        ensures
            r is Ok <==> executable(graph@),
            match r {
                Ok(run) => {
                    &&& run.wf()
                    &&& run.frontier.entries@ == got_to(entries@)
                    &&& exists|p: Plan|
                        {
                            &&& #[trigger] plans(p, graph@)
                            &&& run.st.model() == (RunModel {
                                dependents: name_lists(p.dependents@),
                                ..RunModel::start(graph@, key_names(p.topo@), max_depth as nat)
                            })
                        }
                },
                Err(e) => graph.has_fault(e),
            },
    {
        match graph.validate() {
            Err(e) => Err(e),
            Ok(plan) => {
                assert(plans(plan, graph@));
                Ok(
                    Run {
                        st: RunState::new(graph, plan, max_depth),
                        frontier: Frontier::of(entries),
                    },
                )
            },
        }
    }

    /// Takes the next turn. A node that can be dispatched is dispatched before any is waited for.
    pub fn next(&mut self) -> (t: Turn)
        requires
            old(self).wf(),
        ensures
            final(self).wf(),
            final(self).frontier == old(self).frontier,
            turns(
                old(self).st.model(),
                old(self).frontier.entries@,
                t,
                final(self).st.model(),
            ),
    {
        match self.st.next_dispatch() {
            None => {
                let ghost r = texts(self.st.running@);
                if self.st.running.len() == 0 {
                    assert(r.to_set() =~= Set::empty());
                    Turn::Over
                } else {
                    assert(r.contains(r[0]));
                    assert(r.to_set().contains(r[0]));
                    Turn::Wait
                }
            },
            Some(d) => {
                let done = self.frontier.done(&d.spec.key, &d.action).is_some();
                if done {
                    Turn::Resumed(d)
                } else {
                    Turn::Look(d)
                }
            },
        }
    }

    /// The node of the last turn had been completed: it is taken up as the task's journal left
    /// it. `replay` is the subgraph that the node had computed, where it computed one: the run goes
    /// on inside it.
    pub fn resumed(
        &mut self,
        d: &Dispatch,
        replay: Option<Expansion>,
        now_ms: u64,
    ) -> (r: Result<Effect, EngineError>)
        requires
            old(self).wf(),
            had_done(old(self).frontier.entries@, *d),
        ensures
            final(self).wf(),
            final(self).frontier == old(self).frontier,
            resumes(
                old(self).st.model(),
                d.spec,
                d.action,
                old(self).frontier.entries@[d.spec.key@].outputs@,
                old(self).frontier.entries@[d.spec.key@].attribution,
                replay,
                now_ms,
                r,
                final(self).st.model(),
            ),
    {
        let (outputs, attribution) = match self.frontier.done(&d.spec.key, &d.action) {
            Some(e) => (copy_digests(&e.outputs), e.attribution),
            None => (Vec::new(), Attribution::default()),
        };
        self.st.resume(&d.spec, d.action, outputs, attribution, replay, now_ms)
    }

    /// The node of the last turn was looked up: serve it where its result was there, and let it
    /// be run otherwise.
    pub fn looked(
        &mut self,
        d: &Dispatch,
        found: Option<Found>,
        now_ms: u64,
    ) -> (r: Result<Looked, EngineError>)
        requires
            old(self).wf(),
            found matches Some(f) ==> old(self).st.saved_ms + f.duration_ms <= u64::MAX,
        ensures
            final(self).wf(),
            final(self).frontier == old(self).frontier,
            match found {
                None => {
                    &&& r == Ok::<Looked, EngineError>(Looked::Start)
                    &&& final(self).st.model() == (RunModel {
                        running: old(self).st.model().running.insert(d.spec.key@),
                        ..old(self).st.model()
                    })
                },
                Some(f) => exists|told: Result<Effect, EngineError>|
                    {
                        &&& #[trigger] hits(
                            old(self).st.model(),
                            d.spec,
                            d.action,
                            f.outputs@,
                            f.duration_ms,
                            f.replay,
                            now_ms,
                            told,
                            final(self).st.model(),
                        )
                        &&& match r {
                            Ok(Looked::Served(x)) => told == Ok::<Effect, EngineError>(x),
                            Ok(Looked::Start) => false,
                            Err(e) => told == Err::<Effect, EngineError>(e),
                        }
                    },
            },
    {
        match found {
            None => {
                self.st.start(&d.spec.key);
                Ok(Looked::Start)
            },
            Some(f) => match self.st.hit(
                &d.spec,
                d.action,
                f.outputs,
                f.duration_ms,
                f.replay,
                now_ms,
            ) {
                Ok(x) => Ok(Looked::Served(x)),
                Err(e) => Err(e),
            },
        }
    }

    /// An executor is done with a node.
    pub fn ended(&mut self, x: Ended, now_ms: u64) -> (r: Result<Effect, EngineError>)
        requires
            old(self).wf(),
            old(self).st.attribution.fits(x.result.output.attribution),
        ensures
            final(self).wf(),
            final(self).frontier == old(self).frontier,
            completes(
                old(self).st.model(),
                x.spec,
                x.action,
                x.result.output,
                x.result.expansion,
                x.exec_ms,
                x.queue_ms,
                x.was_job,
                now_ms,
                r,
                final(self).st.model(),
            ),
    {
        self.st.complete(
            &x.spec,
            x.action,
            x.result.output,
            x.result.expansion,
            x.exec_ms,
            x.queue_ms,
            x.was_job,
            now_ms,
        )
    }

    /// The report of a run that is over. What never became reachable sits behind a failure, and
    /// is reported as skipped; a node whose substitute gave no answer is reported as failed.
    pub fn finish(
        self,
        task_id: &str,
        now_ms: u64,
        wall_ms: u64,
        eta_at_start: Eta,
    ) -> (r: RunReport)
        requires
            self.wf(),
        ensures
            ({
                let m = self.st.model().closed(now_ms);
                &&& r.task_id@ == task_id@
                &&& r.wall_ms == wall_ms
                &&& r.eta_at_start == eta_at_start
                &&& r.first_change_ms == m.first_change_ms
                &&& r.attribution == m.attribution
                &&& r.saved_ms == m.saved_ms
                &&& report_list(r.nodes@) == listed(m.topo, m.reports)
            }),
    {
        let mut st = self.st;
        st.skip_leftovers(now_ms);
        st.into_report(task_id, wall_ms, eta_at_start)
    }
}

} // verus!
