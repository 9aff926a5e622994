//! The scheduler's state machine: what is ready, what is settled, and what a result unlocks.
//!
//! The loop around it is small on purpose: take every node whose dependencies are resolved,
//! compute its action key *from the content its inputs actually produced*, serve it from the memo
//! if the key is known there, and run it otherwise. Early cutoff falls out of that: a node that
//! reruns and produces byte-identical output leaves every downstream action key unchanged, so the
//! downstream still hits.
//!
//! The graph is not fixed. A planner's job *is* to produce the graph, and a verify rung that fails
//! produces repair work nobody planned. So a node may expand into a subgraph, plus the one node in
//! it that stands in for the expanding node. Dependents then wait on the substitute.

use crate::engine::eta::Eta;
use crate::engine::eta::NodeCost;
use crate::engine::exec::Expansion;
use crate::engine::graph::batch_fault;
use crate::engine::graph::batch_order;
use crate::engine::graph::copy_keys;
use crate::engine::graph::downstream;
use crate::engine::graph::first_on_cycle;
use crate::engine::graph::graph_error_text;
use crate::engine::graph::in_dependency_order;
use crate::engine::graph::key_names;
use crate::engine::graph::law_batch_order_loses_no_step;
use crate::engine::graph::may_all_join;
use crate::engine::graph::may_join;
use crate::engine::graph::once_each;
use crate::engine::graph::plans;
use crate::engine::graph::put_all;
use crate::engine::graph::ready;
use crate::engine::graph::same_step;
use crate::engine::graph::step_names;
use crate::engine::graph::unrepeated;
use crate::engine::graph::GraphError;
use crate::engine::graph::NodeSpec;
use crate::engine::graph::Plan;
use crate::engine::graph::Steps;
use crate::engine::graph::TaskGraph;
use crate::engine::report::copy_digests;
use crate::engine::report::NodeReport;
use crate::engine::report::NodeStatus;
use crate::engine::report::ReportModel;
use crate::engine::report::RunReport;
use crate::identity::action_fields;
use crate::identity::action_key;
use crate::identity::blake3_of;
use crate::identity::frames;
use crate::identity::ActionKey;
use crate::identity::Attribution;
use crate::identity::Digest;
use crate::identity::Lane;
use crate::identity::NodeKey;
use crate::identity::NodeKind;
use crate::identity::NodeOutput;
use crate::maps::NameMap;
use crate::names;
use crate::names::ascending;
use crate::names::before;
use crate::names::lemma_before_asymmetric;
use crate::reach::lemma_distinct_len;
use crate::reach::lemma_reach_root;
use crate::reach::lemma_reach_step;
use crate::reach::lemma_targets;
use crate::reach::reachable;
use crate::reach::targets;
use crate::reach::walk;
use crate::text::copy_strings;
use crate::text::same;
use crate::text::texts;
use vstd::prelude::*;

verus! {

/// The state of a run, as plain values.
#[verifier::ext_equal]
pub struct RunModel {
    pub steps: Steps,
    pub topo: Seq<Seq<char>>,
    pub dependents: Map<Seq<char>, Seq<Seq<char>>>,
    pub pending: Map<Seq<char>, nat>,
    pub outputs: Map<Seq<char>, Seq<Digest>>,
    pub ready: Seq<Seq<char>>,
    pub reports: Map<Seq<char>, ReportModel>,
    pub settled: Set<Seq<char>>,
    pub running: Set<Seq<char>>,
    pub delegated: Map<Seq<char>, Seq<char>>,
    pub depth: Map<Seq<char>, nat>,
    pub first_change_ms: Option<u64>,
    pub saved_ms: u64,
    pub attribution: Attribution,
    pub max_depth: nat,
}

/// What a node's dependencies produced, in declared order. A dependency contributing several
/// outputs contributes them all, in its own order; one that produced nothing contributes nothing.
pub open spec fn gather(deps: Seq<Seq<char>>, outputs: Map<Seq<char>, Seq<Digest>>) -> Seq<Digest>
    decreases deps.len(),
{
    if deps.len() == 0 {
        Seq::empty()
    } else {
        gather(deps.drop_last(), outputs) + if outputs.contains_key(deps.last()) {
            outputs[deps.last()]
        } else {
            Seq::empty()
        }
    }
}

/// The key under which a step runs, given what has been produced so far.
pub open spec fn action_digest(s: NodeSpec, outputs: Map<Seq<char>, Seq<Digest>>) -> Seq<u8> {
    blake3_of(frames(action_fields(s.kind, s.op@, s.env, gather(s.dep_names(), outputs))))
}

/// One dependency fewer for each of these nodes; those that now wait for nothing become ready.
pub open spec fn release(
    children: Seq<Seq<char>>,
    pending: Map<Seq<char>, nat>,
    ready: Seq<Seq<char>>,
    settled: Set<Seq<char>>,
) -> (Map<Seq<char>, nat>, Seq<Seq<char>>)
    decreases children.len(),
{
    if children.len() == 0 {
        (pending, ready)
    } else {
        let (p, r) = release(children.drop_last(), pending, ready, settled);
        let c = children.last();
        if p.contains_key(c) {
            let n: nat = if p[c] == 0 {
                0
            } else {
                (p[c] - 1) as nat
            };
            (
                p.insert(c, n),
                if n == 0 && !settled.contains(c) {
                    r.push(c)
                } else {
                    r
                },
            )
        } else {
            (p, r)
        }
    }
}

/// The report of a node that never ran.
pub open spec fn skipped_report(key: Seq<char>, kind: NodeKind, now: u64) -> ReportModel {
    ReportModel {
        key,
        kind,
        action: None,
        status: NodeStatus::Skipped,
        outputs: Seq::empty(),
        exec_ms: 0,
        queue_ms: 0,
        attribution: Attribution::nothing(),
        was_job: false,
        finished_at_ms: now,
        diagnostics: Seq::empty(),
    }
}

impl RunModel {
    /// Who waits on a node.
    pub open spec fn children(self, k: Seq<char>) -> Seq<Seq<char>> {
        if self.dependents.contains_key(k) {
            self.dependents[k]
        } else {
            Seq::empty()
        }
    }

    /// The kind of a node; data if the graph does not hold it.
    pub open spec fn kind_of(self, k: Seq<char>) -> NodeKind {
        if self.steps.contains_key(k) {
            self.steps[k].kind
        } else {
            NodeKind::Data
        }
    }

    /// The state after a node's dependents have been told that it is resolved.
    pub open spec fn unlock(self, k: Seq<char>) -> RunModel {
        let (p, r) = release(self.children(k), self.pending, self.ready, self.settled);
        RunModel { pending: p, ready: r, ..self }
    }

    /// From a node to those that wait on it and are not settled.
    pub open spec fn open_edge(self) -> spec_fn(Seq<char>, Seq<char>) -> bool {
        |a: Seq<char>, b: Seq<char>| self.children(a).contains(b) && !self.settled.contains(b)
    }

    /// Does a failure of `failed` cut `x` off? It does if `x` waits on it, directly or through
    /// other nodes that are not settled yet.
    pub open spec fn cut_off(self, failed: Seq<char>, x: Seq<char>) -> bool {
        exists|n: nat| n > 0 && #[trigger] walk(self.open_edge(), failed, x, n)
    }

    /// The state after everything that a failure cuts off has been skipped.
    pub open spec fn skip_from(self, failed: Seq<char>, now: u64) -> RunModel {
        RunModel {
            settled: self.settled.union(Set::new(|x: Seq<char>| self.cut_off(failed, x))),
            reports: Map::new(
                |x: Seq<char>| self.reports.contains_key(x) || self.cut_off(failed, x),
                |x: Seq<char>|
                    if self.cut_off(failed, x) {
                        skipped_report(x, self.kind_of(x), now)
                    } else {
                        self.reports[x]
                    },
            ),
            ..self
        }
    }
}

/// Did the node end without a usable result?
pub open spec fn gave_nothing(status: NodeStatus) -> bool {
    status is Failed || status is Skipped
}

impl RunModel {
    /// A result is in: its dependents are released, or cut off if there is no usable result.
    pub open spec fn follow(self, k: Seq<char>, status: NodeStatus, now: u64) -> RunModel {
        if gave_nothing(status) {
            self.skip_from(k, now)
        } else {
            self.unlock(k)
        }
    }

    /// A substitute's result becomes that of the node it stood in for. A subgraph that fails
    /// fails the node that delegated to it; one that succeeds leaves that node's status alone,
    /// because how the delegating node itself was obtained is a separate fact.
    pub open spec fn pass_on(
        self,
        parent: Seq<char>,
        outputs: Seq<Digest>,
        diagnostics: Seq<Seq<char>>,
        status: NodeStatus,
    ) -> RunModel {
        RunModel {
            outputs: self.outputs.insert(parent, outputs),
            reports: if self.reports.contains_key(parent) {
                let r = self.reports[parent];
                self.reports.insert(
                    parent,
                    ReportModel {
                        outputs,
                        diagnostics: if diagnostics.len() > 0 {
                            diagnostics
                        } else {
                            r.diagnostics
                        },
                        status: if gave_nothing(status) {
                            NodeStatus::Failed
                        } else {
                            r.status
                        },
                        ..r
                    },
                )
            } else {
                self.reports
            },
            ..self
        }
    }

    /// Hand a result up through every node whose identity it carries. A repair can itself be
    /// repaired, so the node that finally produces an answer may be several substitutions below
    /// the node that was asked for it.
    pub open spec fn resolve(
        self,
        k: Seq<char>,
        outputs: Seq<Digest>,
        diagnostics: Seq<Seq<char>>,
        status: NodeStatus,
        now: u64,
    ) -> RunModel
        decreases self.delegated.dom().len(),
        when self.delegated.dom().finite()
    {
        if self.delegated.contains_key(k) {
            let parent = self.delegated[k];
            let handed = self.pass_on(parent, outputs, diagnostics, status);
            let m = RunModel { delegated: self.delegated.remove(k), ..handed };
            m.follow(parent, status, now).resolve(parent, outputs, diagnostics, status, now)
        } else {
            self
        }
    }

    /// A node's result enters the state, before anybody has been told.
    pub open spec fn enter(self, report: ReportModel) -> RunModel {
        RunModel {
            settled: self.settled.insert(report.key),
            first_change_ms: if report.outputs.len() > 0 && self.first_change_ms is None {
                Some(report.finished_at_ms)
            } else {
                self.first_change_ms
            },
            attribution: if report.status.worked() {
                self.attribution.plus(report.attribution)
            } else {
                self.attribution
            },
            outputs: self.outputs.insert(report.key, report.outputs),
            reports: self.reports.insert(report.key, report),
            ..self
        }
    }

    /// The state after a node has come to its result. A node that is already settled stays as it
    /// is.
    pub open spec fn settle(self, report: ReportModel) -> RunModel {
        if self.settled.contains(report.key) {
            self
        } else {
            self.enter(report).resolve(
                report.key,
                report.outputs,
                report.diagnostics,
                report.status,
                report.finished_at_ms,
            ).follow(report.key, report.status, report.finished_at_ms)
        }
    }

    /// The state after a node has handed its identity to a substitute. It is settled for
    /// scheduling purposes, but it does not unlock its dependents: they wait for the substitute.
    pub open spec fn delegate(self, report: ReportModel) -> RunModel {
        RunModel {
            settled: self.settled.insert(report.key),
            reports: self.reports.insert(report.key, report),
            ..self
        }
    }
}

/// The state of a run.
pub struct RunState {
    /// The live graph. It grows when a node expands.
    pub graph: TaskGraph,
    pub topo: Vec<NodeKey>,
    pub dependents: NameMap<Vec<String>>,
    pub pending: NameMap<usize>,
    pub outputs: NameMap<Vec<Digest>>,
    pub ready: Vec<String>,
    pub reports: NameMap<NodeReport>,
    /// Every node that will not run again: done, failed, skipped or delegated.
    pub settled: Vec<String>,
    pub running: Vec<String>,
    /// substitute -> the node whose identity it took over.
    pub delegated: NameMap<String>,
    /// How many expansions deep each node's lineage is.
    pub depth: NameMap<usize>,
    pub first_change_ms: Option<u64>,
    pub saved_ms: u64,
    pub attribution: Attribution,
    pub max_depth: usize,
}

/// A list of names as texts.
pub open spec fn name_lists(m: Map<Seq<char>, Vec<String>>) -> Map<Seq<char>, Seq<Seq<char>>> {
    Map::new(|k: Seq<char>| m.contains_key(k), |k: Seq<char>| texts(m[k]@))
}

/// Counts by name.
pub open spec fn counts(m: Map<Seq<char>, usize>) -> Map<Seq<char>, nat> {
    Map::new(|k: Seq<char>| m.contains_key(k), |k: Seq<char>| m[k] as nat)
}

/// Digests by name.
pub open spec fn digest_lists(m: Map<Seq<char>, Vec<Digest>>) -> Map<Seq<char>, Seq<Digest>> {
    Map::new(|k: Seq<char>| m.contains_key(k), |k: Seq<char>| m[k]@)
}

/// Reports by name.
pub open spec fn report_models(m: Map<Seq<char>, NodeReport>) -> Map<Seq<char>, ReportModel> {
    Map::new(|k: Seq<char>| m.contains_key(k), |k: Seq<char>| m[k]@)
}

/// Names by name.
pub open spec fn name_values(m: Map<Seq<char>, String>) -> Map<Seq<char>, Seq<char>> {
    Map::new(|k: Seq<char>| m.contains_key(k), |k: Seq<char>| m[k]@)
}

impl RunState {
    /// Every collection is in order.
    pub open spec fn wf(&self) -> bool {
        &&& self.graph.wf()
        &&& self.dependents.wf()
        &&& self.pending.wf()
        &&& self.outputs.wf()
        &&& self.reports.wf()
        &&& ascending(texts(self.settled@))
        &&& ascending(texts(self.running@))
        &&& self.delegated.wf()
        &&& self.depth.wf()
    }

    /// The state as plain values.
    pub open spec fn model(&self) -> RunModel {
        RunModel {
            steps: self.graph@,
            topo: key_names(self.topo@),
            dependents: name_lists(self.dependents@),
            pending: counts(self.pending@),
            outputs: digest_lists(self.outputs@),
            ready: texts(self.ready@),
            reports: report_models(self.reports@),
            settled: texts(self.settled@).to_set(),
            running: texts(self.running@).to_set(),
            delegated: name_values(self.delegated@),
            depth: counts(self.depth@),
            first_change_ms: self.first_change_ms,
            saved_ms: self.saved_ms,
            attribution: self.attribution,
            max_depth: self.max_depth as nat,
        }
    }

    /// Input digests in declared dependency order.
    pub fn inputs_for(&self, spec: &NodeSpec) -> (r: Vec<Digest>)
        requires
            self.wf(),
        ensures
            r@ == gather(spec.dep_names(), self.model().outputs),
    {
        let ghost ds = spec.dep_names();
        let ghost outs = self.model().outputs;
        let mut inputs: Vec<Digest> = Vec::new();
        let mut i: usize = 0;
        assert(ds.take(0) =~= Seq::empty());
        while i < spec.deps.len()
            invariant
                self.wf(),
                ds == spec.dep_names(),
                outs == self.model().outputs,
                i <= spec.deps@.len(),
                inputs@ == gather(ds.take(i as int), outs),
            decreases spec.deps@.len() - i,
        {
            assert(ds.take(i + 1).drop_last() =~= ds.take(i as int));
            assert(ds.take(i + 1).last() == spec.deps@[i as int]@);
            match self.outputs.get(spec.deps[i].as_str()) {
                Some(v) => {
                    let mut more = copy_digests(v);
                    inputs.append(&mut more);
                },
                None => {
                    assert(inputs@ =~= inputs@ + Seq::<Digest>::empty());
                },
            }
            i += 1;
        }
        assert(ds.take(i as int) =~= ds);
        inputs
    }

    /// Decrement dependents and queue any that are now fully resolved.
    fn unlock(&mut self, key: &str)
        requires
            old(self).wf(),
        ensures
            final(self).wf(),
            final(self).model() == old(self).model().unlock(key@),
    {
        let ghost m0 = self.model();
        let children = match self.dependents.get(key) {
            Some(c) => copy_strings(c),
            None => Vec::new(),
        };
        let ghost cs = texts(children@);
        assert(cs =~= m0.children(key@));
        let mut i: usize = 0;
        assert(cs.take(0) =~= Seq::empty());
        while i < children.len()
            invariant
                self.wf(),
                cs == texts(children@),
                i <= children@.len(),
                ({
                    let (p, r) = release(cs.take(i as int), m0.pending, m0.ready, m0.settled);
                    self.model() == RunModel { pending: p, ready: r, ..m0 }
                }),
            decreases children@.len() - i,
        {
            let ghost m1 = self.model();
            let ghost before = self.pending@;
            let c = children[i].clone();
            assert(cs.take(i + 1).drop_last() =~= cs.take(i as int));
            assert(cs.take(i + 1).last() == c@);
            match self.pending.get(c.as_str()) {
                Some(n) => {
                    let left: usize = if *n == 0 {
                        0
                    } else {
                        *n - 1
                    };
                    self.pending.insert(c.clone(), left);
                    assert(counts(self.pending@) =~= m1.pending.insert(c@, left as nat));
                    if left == 0 && !names::has(&self.settled, c.as_str()) {
                        let ghost r0 = self.ready@;
                        self.ready.push(c);
                        assert(texts(self.ready@) =~= texts(r0).push(c@));
                    }
                },
                None => {},
            }
            i += 1;
        }
        assert(cs.take(i as int) =~= cs);
    }

    /// A failure does not fail the task. Its dependents are unreachable and are marked skipped;
    /// independent branches keep running, because their results are still worth caching. Returns
    /// the nodes that were skipped.
    fn skip_downstream(&mut self, failed: &str, now_ms: u64) -> (skipped: Vec<String>)
        requires
            old(self).wf(),
        ensures
            final(self).wf(),
            final(self).model() == old(self).model().skip_from(failed@, now_ms),
            texts(skipped@).no_duplicates(),
            forall|x: Seq<char>| #[trigger]
                texts(skipped@).contains(x) <==> old(self).model().cut_off(failed@, x),
    {
        let ghost m0 = self.model();
        let ghost e = m0.open_edge();
        let ghost f = failed@;
        let ghost universe = targets(self.dependents.entries@);
        let mut queue = match self.dependents.get(failed) {
            Some(c) => copy_strings(c),
            None => Vec::new(),
        };
        assert(texts(queue@) =~= m0.children(f));
        let mut skipped: Vec<String> = Vec::new();
        let mut head: usize = 0;
        proof {
            assert(m0.settled.union(texts(skipped@).to_set()) =~= m0.settled);
            let q = texts(queue@);
            assert forall|x: Seq<char>| #[trigger] q.contains(x) implies (m0.settled.contains(x)
                || m0.cut_off(f, x)) && universe.contains(x) by {
                if !m0.settled.contains(x) {
                    assert(walk(e, f, f, 0));
                    assert(e(f, x));
                    assert(walk(e, f, x, 1));
                }
                lemma_child_is_target(self, m0, f, x);
            }
        }
        while head < queue.len()
            invariant
                self.wf(),
                m0 == old(self).model(),
                e == m0.open_edge(),
                f == failed@,
                universe == targets(self.dependents.entries@),
                head <= queue@.len(),
                self.model() == (RunModel {
                    settled: self.model().settled,
                    reports: self.model().reports,
                    ..m0
                }),
                self.model().settled == m0.settled.union(texts(skipped@).to_set()),
                forall|x: Seq<char>| #[trigger]
                    self.model().reports.contains_key(x) <==> m0.reports.contains_key(x) || texts(
                        skipped@,
                    ).contains(x),
                forall|x: Seq<char>| #[trigger]
                    self.model().reports.contains_key(x) ==> self.model().reports[x] == if texts(
                        skipped@,
                    ).contains(x) {
                        skipped_report(x, m0.kind_of(x), now_ms)
                    } else {
                        m0.reports[x]
                    },
                texts(skipped@).no_duplicates(),
                forall|i: int| 0 <= i < skipped@.len() ==> universe.contains(
                    #[trigger] texts(skipped@)[i],
                ),
                texts(skipped@).len() <= universe.len(),
                forall|x: Seq<char>| #[trigger] texts(skipped@).contains(x) ==> m0.cut_off(f, x),
                forall|x: Seq<char>| #[trigger]
                    texts(queue@).contains(x) ==> m0.settled.contains(x) || m0.cut_off(f, x),
                forall|x: Seq<char>| #[trigger] texts(queue@).contains(x) ==> universe.contains(x),
                forall|i: int|
                    0 <= i < head ==> self.model().settled.contains(#[trigger] texts(queue@)[i]),
                forall|a: Seq<char>, b: Seq<char>|
                    (a == f || texts(skipped@).contains(a)) && #[trigger] e(a, b) ==> texts(
                        queue@,
                    ).contains(b),
            decreases universe.len() - texts(skipped@).len(), queue@.len() - head,
        {
            let ghost m1 = self.model();
            let ghost q0 = texts(queue@);
            let ghost s0 = texts(skipped@);
            let k = queue[head].clone();
            let ghost kk = k@;
            assert(kk == q0[head as int]);
            assert(q0.contains(kk));
            let ghost settled0 = texts(self.settled@);
            let fresh = names::insert(&mut self.settled, k.clone());
            assert(texts(self.settled@).to_set() =~= settled0.to_set().insert(kk));
            if fresh {
                assert(!m1.settled.contains(kk));
                assert(m0.cut_off(f, kk));
                assert(!s0.contains(kk));
                let kind = match self.graph.nodes.get(k.as_str()) {
                    Some(s) => s.kind,
                    None => NodeKind::Data,
                };
                let report = NodeReport {
                    key: NodeKey(k.clone()),
                    kind,
                    action: None,
                    status: NodeStatus::Skipped,
                    outputs: Vec::new(),
                    exec_ms: 0,
                    queue_ms: 0,
                    attribution: Attribution::default(),
                    was_job: false,
                    finished_at_ms: now_ms,
                    diagnostics: Vec::new(),
                };
                proof {
                    assert(report@ =~= skipped_report(kk, m0.kind_of(kk), now_ms)) by {
                        assert(texts(report.diagnostics@) =~= Seq::empty());
                    }
                }
                self.reports.insert(k.clone(), report);
                assert(report_models(self.reports@) =~= m1.reports.insert(kk, report@));
                match self.dependents.get(k.as_str()) {
                    Some(next) => {
                        let ghost ns = texts(next@);
                        let mut more = copy_strings(next);
                        queue.append(&mut more);
                        assert(texts(queue@) =~= q0 + ns);
                        assert(ns == m0.children(kk));
                    },
                    None => {
                        assert(texts(queue@) =~= q0 + m0.children(kk));
                    },
                }
                skipped.push(k);
                proof {
                    let s1 = texts(skipped@);
                    let q1 = texts(queue@);
                    assert(s1 =~= s0.push(kk));
                    assert(q1 =~= q0 + m0.children(kk));
                    lemma_push_contains(s0, kk);
                    lemma_concat_contains(q0, m0.children(kk));
                    assert(self.model().settled =~= m0.settled.union(s1.to_set()));
                    assert(s1.no_duplicates()) by {
                        assert forall|i: int, j: int|
                            0 <= i < s1.len() && 0 <= j < s1.len() && i != j implies s1[i]
                            != s1[j] by {
                            if i == s0.len() {
                                assert(s0.contains(s0[j]));
                            }
                            if j == s0.len() {
                                assert(s0.contains(s0[i]));
                            }
                        }
                    }
                    assert forall|x: Seq<char>| #[trigger]
                        q1.contains(x) implies m0.settled.contains(x) || m0.cut_off(f, x) by {
                        if !q0.contains(x) && !m0.settled.contains(x) {
                            assert(m0.children(kk).contains(x));
                            lemma_cut_step(m0, f, kk, x);
                        }
                    }
                    assert forall|x: Seq<char>| #[trigger] q1.contains(x) implies universe.contains(
                        x,
                    ) by {
                        if !q0.contains(x) {
                            lemma_child_is_target(self, m0, kk, x);
                        }
                    }
                    assert forall|a: Seq<char>, b: Seq<char>|
                        (a == f || s1.contains(a)) && #[trigger] e(a, b) implies q1.contains(b) by {
                        if !(a == f || s0.contains(a)) {
                            assert(a == kk);
                            assert(m0.children(kk).contains(b));
                        }
                    }
                    assert forall|i: int| 0 <= i < s1.len() implies universe.contains(
                        #[trigger] s1[i],
                    ) by {
                        if i < s0.len() {
                            assert(s1[i] == s0[i]);
                        }
                    }
                    lemma_distinct_len(s1, universe);
                }
            } else {
                assert(self.model() =~= m1);
            }
            head += 1;
            proof {
                let q1 = texts(queue@);
                assert forall|i: int| 0 <= i < head implies self.model().settled.contains(
                    #[trigger] q1[i],
                ) by {
                    assert(q1[i] == q0[i]);
                    if i < head - 1 {
                        assert(m1.settled.contains(q0[i]));
                    }
                }
            }
        }
        proof {
            let s = texts(skipped@);
            let q = texts(queue@);
            assert forall|x: Seq<char>| m0.cut_off(f, x) implies #[trigger] s.contains(x) by {
                let n = choose|n: nat| n > 0 && #[trigger] walk(e, f, x, n);
                lemma_cut_complete(m0, self.model().settled, f, s, q, x, n);
            }
            assert(self.model().settled =~= m0.skip_from(f, now_ms).settled);
            assert(self.model().reports =~= m0.skip_from(f, now_ms).reports);
        }
        skipped
    }
}

proof fn lemma_push_contains(s: Seq<Seq<char>>, k: Seq<char>)
    ensures
        forall|x: Seq<char>| #[trigger] s.push(k).contains(x) <==> s.contains(x) || x == k,
{
    let t = s.push(k);
    assert forall|x: Seq<char>| #[trigger] t.contains(x) <==> s.contains(x) || x == k by {
        if t.contains(x) {
            let i = choose|i: int| 0 <= i < t.len() && t[i] == x;
            if i < s.len() {
                assert(s[i] == x);
            }
        }
        if s.contains(x) {
            let i = choose|i: int| 0 <= i < s.len() && s[i] == x;
            assert(t[i] == x);
        }
        assert(t[s.len() as int] == k);
    }
}

proof fn lemma_concat_contains(a: Seq<Seq<char>>, b: Seq<Seq<char>>)
    ensures
        forall|x: Seq<char>| #[trigger] (a + b).contains(x) <==> a.contains(x) || b.contains(x),
{
    let t = a + b;
    assert forall|x: Seq<char>| #[trigger] t.contains(x) <==> a.contains(x) || b.contains(x) by {
        if t.contains(x) {
            let i = choose|i: int| 0 <= i < t.len() && t[i] == x;
            if i < a.len() {
                assert(a[i] == x);
            } else {
                assert(b[i - a.len()] == x);
            }
        }
        if a.contains(x) {
            let i = choose|i: int| 0 <= i < a.len() && a[i] == x;
            assert(t[i] == x);
        }
        if b.contains(x) {
            let i = choose|i: int| 0 <= i < b.len() && b[i] == x;
            assert(t[a.len() + i] == x);
        }
    }
}

proof fn lemma_cut_step(m: RunModel, f: Seq<char>, k: Seq<char>, x: Seq<char>)
    requires
        m.cut_off(f, k),
        m.children(k).contains(x),
        !m.settled.contains(x),
    ensures
        m.cut_off(f, x),
{
    let n = choose|n: nat| n > 0 && #[trigger] walk(m.open_edge(), f, k, n);
    assert(m.open_edge()(k, x));
    assert(walk(m.open_edge(), f, x, n + 1));
}

proof fn lemma_child_is_target(st: &RunState, m: RunModel, k: Seq<char>, x: Seq<char>)
    requires
        st.dependents.wf(),
        name_lists(st.dependents@) == m.dependents,
        m.children(k).contains(x),
    ensures
        targets(st.dependents.entries@).contains(x),
{
    assert(name_lists(st.dependents@).contains_key(k));
    let p = st.dependents.names().index_of(k);
    assert(st.dependents.names().contains(k));
    st.dependents.lemma_at(p);
    lemma_targets(st.dependents.entries@, p, x);
}

proof fn lemma_cut_complete(
    m: RunModel,
    settled: Set<Seq<char>>,
    f: Seq<char>,
    s: Seq<Seq<char>>,
    q: Seq<Seq<char>>,
    x: Seq<char>,
    n: nat,
)
    requires
        settled == m.settled.union(s.to_set()),
        forall|i: int| 0 <= i < q.len() ==> settled.contains(#[trigger] q[i]),
        forall|a: Seq<char>, b: Seq<char>|
            (a == f || s.contains(a)) && #[trigger] m.open_edge()(a, b) ==> q.contains(b),
        n > 0,
        walk(m.open_edge(), f, x, n),
    ensures
        s.contains(x),
    decreases n,
{
    let e = m.open_edge();
    let c = choose|c: Seq<char>| walk(e, f, c, (n - 1) as nat) && #[trigger] e(c, x);
    if n > 1 {
        lemma_cut_complete(m, settled, f, s, q, c, (n - 1) as nat);
    }
    assert(q.contains(x));
    let i = choose|i: int| 0 <= i < q.len() && q[i] == x;
    assert(settled.contains(q[i]));
}

proof fn lemma_names_finite<V>(m: &NameMap<V>)
    ensures
        m@.dom().finite(),
{
    assert(m@.dom() =~= m.names().to_set());
}

/// The nodes of a list of skipped nodes.
pub open spec fn skipped_names(v: Seq<(String, String)>) -> Seq<Seq<char>> {
    v.map_values(|p: (String, String)| p.0@)
}

/// Are `n` substitutions between `k` and the node `p` whose identity it carries?
pub open spec fn carries(
    delegated: Map<Seq<char>, Seq<char>>,
    k: Seq<char>,
    p: Seq<char>,
    n: nat,
) -> bool
    decreases n,
{
    if n == 0 {
        k == p
    } else {
        delegated.contains_key(k) && carries(
            delegated.remove(k),
            delegated[k],
            p,
            (n - 1) as nat,
        )
    }
}

/// Was the first of these nodes cut off by the second, which is `key` or a node whose identity
/// `key` carries?
pub open spec fn blames(m: RunModel, key: Seq<char>, p: (String, String)) -> bool {
    &&& exists|n: nat| #[trigger] carries(m.delegated, key, p.1@, n)
    &&& m.cut_off(p.1@, p.0@)
}

/// Are these the nodes that were settled between two states, besides `key` itself, each once and
/// with the node that cut it off?
pub open spec fn settled_since(
    skipped: Seq<(String, String)>,
    before: RunModel,
    after: RunModel,
    key: Seq<char>,
) -> bool {
    &&& skipped_names(skipped).no_duplicates()
    &&& forall|x: Seq<char>| #[trigger]
        skipped_names(skipped).contains(x) <==> after.settled.contains(x)
            && !before.settled.contains(x) && x != key
    &&& forall|i: int| 0 <= i < skipped.len() ==> #[trigger] blames(before, key, skipped[i])
}

/// What is cut off when more is settled was cut off before.
proof fn lemma_cut_before(m0: RunModel, m: RunModel, f: Seq<char>, x: Seq<char>, n: nat)
    requires
        m0.settled.subset_of(m.settled),
        m0.dependents == m.dependents,
        walk(m.open_edge(), f, x, n),
    ensures
        walk(m0.open_edge(), f, x, n),
    decreases n,
{
    if n > 0 {
        let e = m.open_edge();
        let c = choose|c: Seq<char>| walk(e, f, c, (n - 1) as nat) && #[trigger] e(c, x);
        lemma_cut_before(m0, m, f, c, (n - 1) as nat);
        assert(m0.open_edge()(c, x));
    }
}

/// What is skipped was not settled, and nothing else changes that.
proof fn lemma_cut_unsettled(m: RunModel, f: Seq<char>, x: Seq<char>)
    requires
        m.cut_off(f, x),
    ensures
        !m.settled.contains(x),
{
    let e = m.open_edge();
    let n = choose|n: nat| n > 0 && #[trigger] walk(e, f, x, n);
    let c = choose|c: Seq<char>| walk(e, f, c, (n - 1) as nat) && #[trigger] e(c, x);
}

fn note_skipped(
    log: &mut Vec<(String, String)>,
    skipped: Vec<String>,
    because: &str,
    Ghost(m): Ghost<RunModel>,
    Ghost(base): Ghost<Set<Seq<char>>>,
    Ghost(m0): Ghost<RunModel>,
    Ghost(key): Ghost<Seq<char>>,
)
    requires
        m0.settled.subset_of(m.settled),
        m0.dependents == m.dependents,
        exists|n: nat| #[trigger] carries(m0.delegated, key, because@, n),
        forall|i: int| 0 <= i < old(log)@.len() ==> #[trigger] blames(m0, key, old(log)@[i]),
        skipped_names(old(log)@).no_duplicates(),
        forall|x: Seq<char>| #[trigger]
            skipped_names(old(log)@).contains(x) <==> m.settled.contains(x) && !base.contains(x),
        base.subset_of(m.settled),
        texts(skipped@).no_duplicates(),
        forall|x: Seq<char>| #[trigger]
            texts(skipped@).contains(x) <==> m.cut_off(because@, x),
    ensures
        skipped_names(final(log)@).no_duplicates(),
        forall|x: Seq<char>| #[trigger]
            skipped_names(final(log)@).contains(x) <==> (m.settled.contains(x) || m.cut_off(
                because@,
                x,
            )) && !base.contains(x),
        forall|i: int| 0 <= i < final(log)@.len() ==> #[trigger] blames(m0, key, final(log)@[i]),
{
    let ghost s = texts(skipped@);
    let ghost l0 = skipped_names(log@);
    let ghost log0 = log@;
    let mut i: usize = 0;
    assert(l0 + s.take(0) =~= l0);
    while i < skipped.len()
        invariant
            i <= skipped@.len(),
            s == texts(skipped@),
            skipped_names(log@) == l0 + s.take(i as int),
            log@.len() == log0.len() + i,
            forall|k: int| 0 <= k < log0.len() ==> #[trigger] log@[k] == log0[k],
            forall|k: int|
                log0.len() <= k < log@.len() ==> (#[trigger] log@[k]).1@ == because@ && log@[k].0@
                    == s[k - log0.len()],
        decreases skipped@.len() - i,
    {
        let ghost before = skipped_names(log@);
        let name = skipped[i].clone();
        let why = because.to_owned();
        log.push((name, why));
        assert(skipped_names(log@) =~= before.push(name@));
        assert(s.take(i + 1) =~= s.take(i as int).push(s[i as int]));
        assert(skipped_names(log@) =~= l0 + s.take(i + 1));
        i += 1;
    }
    proof {
        assert(s.take(i as int) =~= s);
        let l = skipped_names(log@);
        lemma_concat_contains(l0, s);
        assert forall|k: int| 0 <= k < log@.len() implies #[trigger] blames(m0, key, log@[k]) by {
            if k < log0.len() {
                assert(log@[k] == log0[k]);
                assert(blames(m0, key, log0[k]));
            } else {
                let x = log@[k].0@;
                assert(s.contains(s[k - log0.len()]));
                let n = choose|n: nat| n > 0 && #[trigger] walk(m.open_edge(), because@, x, n);
                lemma_cut_before(m0, m, because@, x, n);
            }
        }
        assert forall|x: Seq<char>| #[trigger] l.contains(x) <==> (m.settled.contains(x)
            || m.cut_off(because@, x)) && !base.contains(x) by {
            if m.cut_off(because@, x) {
                lemma_cut_unsettled(m, because@, x);
            }
        }
        assert forall|a: int, b: int| 0 <= a < l.len() && 0 <= b < l.len() && a != b implies l[a]
            != l[b] by {
            let n = l0.len() as int;
            if a < n {
                assert(l0.contains(l0[a]));
            } else {
                assert(s.contains(s[a - n]));
                lemma_cut_unsettled(m, because@, s[a - n]);
            }
            if b < n {
                assert(l0.contains(l0[b]));
            } else {
                assert(s.contains(s[b - n]));
                lemma_cut_unsettled(m, because@, s[b - n]);
            }
        }
    }
}

impl RunState {
    /// A node has come to its result. Returns the nodes that were skipped on its account, each
    /// with the node that cut it off.
    pub fn settle(&mut self, report: NodeReport) -> (skipped: Vec<(String, String)>)
        requires
            old(self).wf(),
            report.status.worked() ==> old(self).attribution.fits(report.attribution),
        ensures
            final(self).wf(),
            final(self).model() == old(self).model().settle(report@),
            settled_since(skipped@, old(self).model(), final(self).model(), report.key@),
    {
        let ghost m0 = self.model();
        let ghost rep = report@;
        let mut log: Vec<(String, String)> = Vec::new();
        let key = report.key.0.clone();
        let now: u64 = report.finished_at_ms;
        let status = report.status;
        let ghost settled0 = texts(self.settled@);
        let fresh = names::insert(&mut self.settled, key.clone());
        assert(texts(self.settled@).to_set() =~= settled0.to_set().insert(key@));
        if !fresh {
            assert(self.model() =~= m0);
            return log;
        }
        if report.outputs.len() > 0 && self.first_change_ms.is_none() {
            self.first_change_ms = Some(now);
        }
        if status.did_work() {
            self.attribution.merge(&report.attribution);
        }
        let outputs = copy_digests(&report.outputs);
        let diagnostics = copy_strings(&report.diagnostics);
        self.outputs.insert(key.clone(), copy_digests(&outputs));
        self.reports.insert(key.clone(), report);
        let ghost m1 = m0.enter(rep);
        proof {
            assert(digest_lists(self.outputs@) =~= m1.outputs);
            assert(report_models(self.reports@) =~= m1.reports);
            assert(self.model() =~= m1);
        }
        let ghost base = m1.settled;
        let ghost goal = m1.resolve(key@, rep.outputs, rep.diagnostics, status, now);
        let mut resolved = key.clone();
        proof {
            lemma_names_finite(&self.delegated);
            assert(name_values(self.delegated@).dom() =~= self.delegated@.dom());
        }
        loop
            invariant
                self.wf(),
                self.model().delegated.dom().finite(),
                outputs@ == rep.outputs,
                forall|p: Seq<char>, n: nat| #[trigger]
                    carries(self.model().delegated, resolved@, p, n) ==> exists|j: nat| #[trigger]
                        carries(m0.delegated, key@, p, j),
                m0.settled.subset_of(self.model().settled),
                self.model().dependents == m0.dependents,
                forall|i: int| 0 <= i < log@.len() ==> #[trigger] blames(m0, key@, log@[i]),
                texts(diagnostics@) == rep.diagnostics,
                self.model().resolve(resolved@, rep.outputs, rep.diagnostics, status, now) == goal,
                base.subset_of(self.model().settled),
                skipped_names(log@).no_duplicates(),
                forall|x: Seq<char>| #[trigger]
                    skipped_names(log@).contains(x) <==> self.model().settled.contains(x)
                        && !base.contains(x),
            ensures
                self.wf(),
                self.model() == goal,
                m0.settled.subset_of(self.model().settled),
                self.model().dependents == m0.dependents,
                forall|i: int| 0 <= i < log@.len() ==> #[trigger] blames(m0, key@, log@[i]),
                base.subset_of(self.model().settled),
                skipped_names(log@).no_duplicates(),
                forall|x: Seq<char>| #[trigger]
                    skipped_names(log@).contains(x) <==> self.model().settled.contains(x)
                        && !base.contains(x),
            decreases self.model().delegated.dom().len(),
        {
            let ghost a = self.model();
            match self.delegated.remove(resolved.as_str()) {
                None => {
                    assert(self.model() =~= a);
                    break;
                },
                Some(parent) => {
                    proof {
                        assert(a.delegated.contains_key(resolved@));
                        assert(a.delegated[resolved@] == parent@);
                        assert(name_values(self.delegated@) =~= a.delegated.remove(resolved@));
                    }
                    self.outputs.insert(parent.clone(), copy_digests(&outputs));
                    assert(digest_lists(self.outputs@) =~= a.outputs.insert(parent@, rep.outputs));
                    match self.reports.remove(parent.as_str()) {
                        Some(r) => {
                            let ghost r0 = r@;
                            let failed = matches!(status, NodeStatus::Failed | NodeStatus::Skipped);
                            let next = NodeReport {
                                key: r.key,
                                kind: r.kind,
                                action: r.action,
                                status: if failed {
                                    NodeStatus::Failed
                                } else {
                                    r.status
                                },
                                outputs: copy_digests(&outputs),
                                exec_ms: r.exec_ms,
                                queue_ms: r.queue_ms,
                                attribution: r.attribution,
                                was_job: r.was_job,
                                finished_at_ms: r.finished_at_ms,
                                diagnostics: if diagnostics.len() > 0 {
                                    copy_strings(&diagnostics)
                                } else {
                                    r.diagnostics
                                },
                            };
                            let ghost n = next@;
                            self.reports.insert(parent.clone(), next);
                            proof {
                                assert(a.reports.contains_key(parent@));
                                assert(a.reports[parent@] == r0);
                                assert(report_models(self.reports@) =~= a.reports.insert(
                                    parent@,
                                    n,
                                ));
                            }
                        },
                        None => {
                            assert(report_models(self.reports@) =~= a.reports);
                        },
                    }
                    let ghost handed = a.pass_on(
                        parent@,
                        rep.outputs,
                        rep.diagnostics,
                        status,
                    );
                    let ghost b = RunModel {
                        delegated: a.delegated.remove(resolved@),
                        ..handed
                    };
                    assert(self.model().reports =~= b.reports);
                    assert(self.model() =~= b);
                    proof {
                        assert forall|p: Seq<char>, n: nat| #[trigger]
                            carries(b.delegated, parent@, p, n) implies exists|j: nat| #[trigger]
                            carries(m0.delegated, key@, p, j) by {
                            assert(carries(a.delegated, resolved@, p, n + 1));
                        }
                        assert(carries(b.delegated, parent@, parent@, 0));
                    }
                    if matches!(status, NodeStatus::Failed | NodeStatus::Skipped) {
                        let s = self.skip_downstream(parent.as_str(), now);
                        note_skipped(
                            &mut log,
                            s,
                            parent.as_str(),
                            Ghost(b),
                            Ghost(base),
                            Ghost(m0),
                            Ghost(key@),
                        );
                    } else {
                        self.unlock(parent.as_str());
                    }
                    assert(self.model() == b.follow(parent@, status, now));
                    assert(self.model().delegated == a.delegated.remove(resolved@));
                    resolved = parent;
                },
            }
        }
        if matches!(status, NodeStatus::Failed | NodeStatus::Skipped) {
            let s = self.skip_downstream(key.as_str(), now);
            assert(carries(m0.delegated, key@, key@, 0));
            note_skipped(
                &mut log,
                s,
                key.as_str(),
                Ghost(goal),
                Ghost(base),
                Ghost(m0),
                Ghost(key@),
            );
        } else {
            self.unlock(key.as_str());
        }
        log
    }

    /// Record a node that handed its identity to a substitute.
    ///
    /// `status` is how the *expansion itself* was obtained: `Expanded` when the node ran to
    /// produce it, `Hit` when it came back from the memo. Keeping those apart is what lets a
    /// second run of a task that once needed a repair still report as hot.
    pub fn record_delegating(
        &mut self,
        key: &NodeKey,
        kind: NodeKind,
        action: Option<ActionKey>,
        status: NodeStatus,
        attribution: Attribution,
        now_ms: u64,
    )
        requires
            old(self).wf(),
        ensures
            final(self).wf(),
            final(self).model() == old(self).model().delegate(
                ReportModel {
                    action,
                    status,
                    attribution,
                    ..skipped_report(key@, kind, now_ms)
                },
            ),
    {
        let ghost m0 = self.model();
        let ghost settled0 = texts(self.settled@);
        names::insert(&mut self.settled, key.0.clone());
        assert(texts(self.settled@).to_set() =~= settled0.to_set().insert(key@));
        let report = NodeReport {
            key: key.clone(),
            kind,
            action,
            status,
            outputs: Vec::new(),
            exec_ms: 0,
            queue_ms: 0,
            attribution,
            was_job: false,
            finished_at_ms: now_ms,
            diagnostics: Vec::new(),
        };
        let ghost rep = report@;
        proof {
            assert(texts(report.diagnostics@) =~= Seq::empty());
            assert(rep =~= ReportModel {
                action,
                status,
                attribution,
                ..skipped_report(key@, kind, now_ms)
            });
        }
        self.reports.insert(key.0.clone(), report);
        assert(report_models(self.reports@) =~= m0.reports.insert(key@, rep));
        assert(self.model() =~= m0.delegate(rep));
    }
}

/// Why a run stopped.
#[derive(Debug)]
pub enum EngineError {
    Graph(GraphError),
    Store(String),
    Panicked(String),
    BadExpansion { node: NodeKey, sub: NodeKey },
    ExpansionDepth(NodeKey),
}

/// What a stopped run is reported as.
pub open spec fn engine_error_text(e: EngineError) -> Seq<char> {
    match e {
        EngineError::Graph(g) => graph_error_text(g),
        EngineError::Store(s) => s@,
        EngineError::Panicked(s) => "a node task panicked: "@ + s@,
        EngineError::BadExpansion { node, sub } => "node "@ + node@
            + " expanded into a subgraph that does not contain its substitute "@ + sub@,
        EngineError::ExpansionDepth(k) => "node "@ + k@
            + " expanded past the depth limit: a repair loop is not terminating"@,
    }
}

impl EngineError {
    pub fn message(&self) -> (r: String)
        ensures
            r@ == engine_error_text(*self),
    {
        match self {
            EngineError::Graph(g) => g.message(),
            EngineError::Store(s) => s.clone(),
            EngineError::Panicked(s) => {
                let mut t = "a node task panicked: ".to_owned();
                t.push_str(s.as_str());
                t
            },
            EngineError::BadExpansion { node, sub } => {
                let mut t = "node ".to_owned();
                t.push_str(node.as_str());
                t.push_str(" expanded into a subgraph that does not contain its substitute ");
                t.push_str(sub.as_str());
                t
            },
            EngineError::ExpansionDepth(k) => {
                let mut t = "node ".to_owned();
                t.push_str(k.as_str());
                t.push_str(" expanded past the depth limit: a repair loop is not terminating");
                t
            },
        }
    }
}

/// A name inside an expansion: relative to the expanding node if it names a sibling, otherwise
/// the name of a node that already exists.
pub open spec fn qualified(
    prefix: Seq<char>,
    siblings: Seq<Seq<char>>,
    k: Seq<char>,
) -> Seq<char> {
    if siblings.contains(k) {
        prefix + k
    } else {
        k
    }
}

/// The names inside an expansion.
pub open spec fn all_qualified(
    prefix: Seq<char>,
    siblings: Seq<Seq<char>>,
    ks: Seq<Seq<char>>,
) -> Seq<Seq<char>> {
    ks.map_values(|k: Seq<char>| qualified(prefix, siblings, k))
}

/// Is `q` the step `n` of an expansion, spliced in under `prefix`?
pub open spec fn spliced(
    prefix: Seq<char>,
    siblings: Seq<Seq<char>>,
    n: NodeSpec,
    q: NodeSpec,
) -> bool {
    &&& q.key@ == prefix + n.key@
    &&& q.dep_names() == all_qualified(prefix, siblings, n.dep_names())
    &&& q.kind == n.kind
    &&& q.op == n.op
    &&& q.env == n.env
    &&& q.lane == n.lane
}

/// Are these the steps of an expansion, spliced in under `prefix`?
pub open spec fn all_spliced(
    prefix: Seq<char>,
    siblings: Seq<Seq<char>>,
    ns: Seq<NodeSpec>,
    qs: Seq<NodeSpec>,
) -> bool {
    qs.len() == ns.len() && forall|i: int|
        0 <= i < ns.len() ==> spliced(prefix, siblings, ns[i], #[trigger] qs[i])
}

/// Did this node end without a usable result?
pub open spec fn fell_through(m: RunModel, d: Seq<char>) -> bool {
    m.reports.contains_key(d) && gave_nothing(m.reports[d].status)
}

/// Do the dependents of a node still wait for it? They do until it is settled, where it has
/// handed its identity on until the node that carries it is, and for good where it has no usable
/// result to give.
pub open spec fn owes(m: RunModel, d: Seq<char>) -> bool {
    !m.settled.contains(d) || m.delegated.contains_value(d) || fell_through(m, d)
}

/// How many of these nodes are still waited for.
pub open spec fn open_count(m: RunModel, ds: Seq<Seq<char>>) -> nat
    decreases ds.len(),
{
    if ds.len() == 0 {
        0
    } else {
        open_count(m, ds.drop_last()) + if owes(m, ds.last()) {
            1nat
        } else {
            0nat
        }
    }
}

/// `k` waits on each of these nodes.
pub open spec fn waiting_on(
    dependents: Map<Seq<char>, Seq<Seq<char>>>,
    ds: Seq<Seq<char>>,
    k: Seq<char>,
) -> Map<Seq<char>, Seq<Seq<char>>>
    decreases ds.len(),
{
    if ds.len() == 0 {
        dependents
    } else {
        let m = waiting_on(dependents, ds.drop_last(), k);
        let d = ds.last();
        m.insert(
            d,
            if m.contains_key(d) {
                m[d].push(k)
            } else {
                seq![k]
            },
        )
    }
}

impl RunModel {
    /// What a step reads, each node once; nothing if the graph does not hold it.
    pub open spec fn reads(self, k: Seq<char>) -> Seq<Seq<char>> {
        if self.steps.contains_key(k) {
            unrepeated(self.steps[k].dep_names())
        } else {
            Seq::empty()
        }
    }

    /// New steps join the run one after the other: each waits for the dependencies that have not
    /// given their results, and is ready at once if there are none.
    pub open spec fn join(self, added: Seq<Seq<char>>, depth: nat) -> RunModel
        decreases added.len(),
    {
        if added.len() == 0 {
            self
        } else {
            let m = self.join(added.drop_last(), depth);
            let k = added.last();
            let ds = m.reads(k);
            let waiting = open_count(m, ds);
            RunModel {
                depth: m.depth.insert(k, depth),
                dependents: waiting_on(m.dependents, ds, k),
                pending: m.pending.insert(k, waiting),
                topo: m.topo.push(k),
                ready: if waiting == 0 {
                    m.ready.push(k)
                } else {
                    m.ready
                },
                ..m
            }
        }
    }

    /// How deep the lineage of a node is.
    pub open spec fn depth_of(self, k: Seq<char>) -> nat {
        if self.depth.contains_key(k) {
            self.depth[k]
        } else {
            0
        }
    }
}

/// The name under which the nodes that `parent` emits are spliced in.
pub open spec fn splice_prefix(parent: Seq<char>) -> Seq<char> {
    parent + "/"@
}

/// Is `after` the state in which `parent` has been expanded into `nodes`, with `substitute`
/// standing in for it? `added` are the new steps, in dependency order.
pub open spec fn expanded(
    before: RunModel,
    after: RunModel,
    parent: Seq<char>,
    nodes: Seq<NodeSpec>,
    substitute: Seq<char>,
    added: Seq<Seq<char>>,
) -> bool {
    let prefix = splice_prefix(parent);
    let siblings = step_names(nodes);
    siblings.contains(substitute) && before.depth_of(parent) < before.max_depth && exists|
        qs: Seq<NodeSpec>,
    |
        {
            &&& #[trigger] all_spliced(prefix, siblings, nodes, qs)
            &&& ({
                let (order, stuck) = batch_order(qs, step_names(qs).to_set(), Set::empty());
                let grown = RunModel { steps: put_all(before.steps, order), ..before };
                let joined = grown.join(step_names(order), before.depth_of(parent) + 1);
                &&& stuck.len() == 0
                &&& may_all_join(before.steps, qs)
                &&& added == step_names(order)
                &&& after == RunModel {
                    delegated: joined.delegated.insert(
                        qualified(prefix, siblings, substitute),
                        parent,
                    ),
                    ..joined
                }
            })
        }
}

/// The refusal of an expansion whose steps cannot join the graph.
pub open spec fn expansion_fault(
    before: RunModel,
    parent: Seq<char>,
    nodes: Seq<NodeSpec>,
    e: GraphError,
) -> bool {
    let siblings = step_names(nodes);
    exists|qs: Seq<NodeSpec>|
        {
            &&& #[trigger] all_spliced(splice_prefix(parent), siblings, nodes, qs)
            &&& ({
                let (order, stuck) = batch_order(qs, step_names(qs).to_set(), Set::empty());
                if may_all_join(before.steps, qs) {
                    stuck.len() > 0 && (e matches GraphError::Cycle(k) && first_on_cycle(
                        stuck,
                        k@,
                    ))
                } else {
                    batch_fault(before.steps, qs, e)
                }
            })
        }
}

fn qualify(prefix: &str, siblings: &Vec<String>, k: &NodeKey) -> (r: NodeKey)
    requires
        ascending(texts(siblings@)),
    ensures
        r@ == qualified(prefix@, texts(siblings@), k@),
{
    if names::has(siblings, k.as_str()) {
        let mut s = prefix.to_owned();
        s.push_str(k.as_str());
        NodeKey(s)
    } else {
        k.clone()
    }
}

fn splice(prefix: &str, siblings: &Vec<String>, n: NodeSpec, Ghost(sib): Ghost<Seq<Seq<char>>>) -> (q:
    NodeSpec)
    requires
        ascending(texts(siblings@)),
        forall|x: Seq<char>| #[trigger] texts(siblings@).contains(x) <==> sib.contains(x),
    ensures
        spliced(prefix@, sib, n, q),
{
    let ghost ds = n.dep_names();
    let mut deps: Vec<NodeKey> = Vec::new();
    let mut i: usize = 0;
    while i < n.deps.len()
        invariant
            ascending(texts(siblings@)),
            forall|x: Seq<char>| #[trigger] texts(siblings@).contains(x) <==> sib.contains(x),
            i <= n.deps@.len(),
            deps@.len() == i,
            ds == n.dep_names(),
            forall|k: int|
                0 <= k < i ==> #[trigger] deps@[k]@ == qualified(prefix@, sib, ds[k]),
        decreases n.deps@.len() - i,
    {
        let d = qualify(prefix, siblings, &n.deps[i]);
        assert(d@ == qualified(prefix@, sib, ds[i as int]));
        deps.push(d);
        i += 1;
    }
    assert(key_names(deps@) =~= all_qualified(prefix@, sib, ds));
    let mut key = prefix.to_owned();
    key.push_str(n.key.as_str());
    NodeSpec { key: NodeKey(key), kind: n.kind, op: n.op, env: n.env, deps, lane: n.lane }
}

impl RunState {
    /// Is there a node that is to answer for this one?
    fn has_substitute(&self, d: &str) -> (r: bool)
        requires
            self.wf(),
        ensures
            r == self.model().delegated.contains_value(d@),
    {
        let ghost m = self.model().delegated;
        let mut i: usize = 0;
        while i < self.delegated.entries.len()
            invariant
                self.wf(),
                m == self.model().delegated,
                i <= self.delegated.entries@.len(),
                forall|j: int| 0 <= j < i ==> (#[trigger] self.delegated.entries@[j]).1@ != d@,
            decreases self.delegated.entries@.len() - i,
        {
            proof {
                self.delegated.lemma_at(i as int);
            }
            if same(self.delegated.entries[i].1.as_str(), d) {
                assert(m.contains_key(self.delegated.names()[i as int]));
                assert(m[self.delegated.names()[i as int]] == d@);
                return true;
            }
            i += 1;
        }
        proof {
            if m.contains_value(d@) {
                let s = choose|s: Seq<char>| #[trigger] m.contains_key(s) && m[s] == d@;
                let p = self.delegated.names().index_of(s);
                assert(self.delegated.names().contains(s));
                self.delegated.lemma_at(p);
                assert(self.delegated.entries@[p].1@ != d@);
            }
        }
        false
    }

    /// Do the dependents of a node still wait for it?
    fn is_owed(&self, d: &str) -> (r: bool)
        requires
            self.wf(),
        ensures
            r == owes(self.model(), d@),
    {
        if !names::has(&self.settled, d) || self.has_substitute(d) {
            return true;
        }
        match self.reports.get(d) {
            Some(r) => matches!(r.status, NodeStatus::Failed | NodeStatus::Skipped),
            None => false,
        }
    }

    /// One new step joins the run.
    fn join_one(&mut self, key: &NodeKey, depth: usize)
        requires
            old(self).wf(),
        ensures
            final(self).wf(),
            final(self).model() == ({
                let m = old(self).model();
                let ds = m.reads(key@);
                let waiting = open_count(m, ds);
                RunModel {
                    depth: m.depth.insert(key@, depth as nat),
                    dependents: waiting_on(m.dependents, ds, key@),
                    pending: m.pending.insert(key@, waiting),
                    topo: m.topo.push(key@),
                    ready: if waiting == 0 {
                        m.ready.push(key@)
                    } else {
                        m.ready
                    },
                    ..m
                }
            }),
    {
        let ghost m = self.model();
        let ghost k = key@;
        self.depth.insert(key.0.clone(), depth);
        assert(counts(self.depth@) =~= m.depth.insert(k, depth as nat));
        let deps = match self.graph.nodes.get(key.as_str()) {
            Some(spec) => once_each(&spec.deps),
            None => Vec::new(),
        };
        let ghost ds = key_names(deps@);
        assert(ds =~= m.reads(k));
        let mut waiting: usize = 0;
        let mut i: usize = 0;
        assert(ds.take(0) =~= Seq::empty());
        while i < deps.len()
            invariant
                self.wf(),
                k == key@,
                ds == key_names(deps@),
                i <= deps@.len(),
                waiting == open_count(m, ds.take(i as int)),
                waiting <= i,
                self.model() == (RunModel {
                    depth: m.depth.insert(k, depth as nat),
                    dependents: waiting_on(m.dependents, ds.take(i as int), k),
                    ..m
                }),
            decreases deps@.len() - i,
        {
            let ghost a = self.model();
            assert(ds.take(i + 1).drop_last() =~= ds.take(i as int));
            assert(ds.take(i + 1).last() == deps@[i as int]@);
            assert(owes(a, deps@[i as int]@) == owes(m, deps@[i as int]@));
            if self.is_owed(deps[i].as_str()) {
                waiting = waiting + 1;
            }
            let d = deps[i].0.clone();
            let ghost before = self.dependents@;
            let mut list: Vec<String> = match self.dependents.remove(d.as_str()) {
                Some(v) => v,
                None => Vec::new(),
            };
            let ghost l0 = texts(list@);
            list.push(key.0.clone());
            assert(texts(list@) =~= l0.push(k));
            let ghost l1 = texts(list@);
            self.dependents.insert(d, list);
            proof {
                if !a.dependents.contains_key(d@) {
                    assert(l1 =~= seq![k]);
                }
                assert(name_lists(self.dependents@) =~= a.dependents.insert(d@, l1));
                assert(self.model() =~= RunModel {
                    depth: m.depth.insert(k, depth as nat),
                    dependents: waiting_on(m.dependents, ds.take(i + 1), k),
                    ..m
                });
            }
            i += 1;
        }
        assert(ds.take(i as int) =~= ds);
        self.pending.insert(key.0.clone(), waiting);
        assert(counts(self.pending@) =~= m.pending.insert(k, waiting as nat));
        let ghost t0 = self.topo@;
        self.topo.push(key.clone());
        assert(key_names(self.topo@) =~= key_names(t0).push(k));
        if waiting == 0 {
            let ghost r0 = self.ready@;
            self.ready.push(key.0.clone());
            assert(texts(self.ready@) =~= texts(r0).push(k));
        }
    }

    /// Splice a computed subgraph into the running graph. Returns the new nodes in dependency
    /// order and the name of the substitute. A refused expansion leaves the run as it was.
    ///
    /// The names in an expansion are *relative to the node that emitted it*: a node called
    /// "recheck" emitted by "verify:lsp" is spliced in as "verify:lsp/recheck". Absolute names
    /// collide the moment two planners emit a section with the same title. Worse, an expansion is
    /// cached against an *action* key, and two different logical nodes with identical inputs share
    /// one action key by design, so a cached expansion can legitimately be replayed under a
    /// different parent.
    pub fn apply_expansion(&mut self, parent: &NodeKey, exp: Expansion) -> (r: Result<
        (Vec<NodeKey>, NodeKey),
        EngineError,
    >)
        requires
            old(self).wf(),
        ensures
            final(self).wf(),
            ({
                let m = old(self).model();
                let siblings = step_names(exp.nodes@);
                let named = siblings.contains(exp.substitute@);
                let shallow = m.depth_of(parent@) < m.max_depth;
                match r {
                    Ok((added, sub)) => {
                        &&& named && shallow
                        &&& sub@ == splice_prefix(parent@) + exp.substitute@
                        &&& expanded(
                            m,
                            final(self).model(),
                            parent@,
                            exp.nodes@,
                            exp.substitute@,
                            key_names(added@),
                        )
                    },
                    Err(EngineError::BadExpansion { node, sub }) => {
                        &&& !named
                        &&& node@ == parent@ && sub@ == exp.substitute@
                        &&& final(self).model() == m
                    },
                    Err(EngineError::ExpansionDepth(k)) => {
                        &&& named && !shallow
                        &&& k@ == parent@
                        &&& final(self).model() == m
                    },
                    Err(EngineError::Graph(e)) => {
                        &&& named && shallow
                        &&& expansion_fault(m, parent@, exp.nodes@, e)
                        &&& final(self).model() == m
                    },
                    Err(_) => false,
                }
            }),
    {
        let ghost m = self.model();
        let ghost ns = exp.nodes@;
        let ghost sib = step_names(ns);
        let mut siblings: Vec<String> = Vec::new();
        let mut i: usize = 0;
        while i < exp.nodes.len()
            invariant
                i <= exp.nodes@.len(),
                ns == exp.nodes@,
                sib == step_names(ns),
                ascending(texts(siblings@)),
                forall|x: Seq<char>| #[trigger]
                    texts(siblings@).contains(x) <==> sib.take(i as int).contains(x),
            decreases exp.nodes@.len() - i,
        {
            names::insert(&mut siblings, exp.nodes[i].key.0.clone());
            proof {
                assert(sib.take(i + 1) =~= sib.take(i as int).push(sib[i as int]));
                lemma_push_contains(sib.take(i as int), sib[i as int]);
            }
            i += 1;
        }
        assert(sib.take(i as int) =~= sib);
        if !names::has(&siblings, exp.substitute.as_str()) {
            return Err(EngineError::BadExpansion { node: parent.clone(), sub: exp.substitute });
        }
        let at: usize = match self.depth.get(parent.as_str()) {
            Some(d) => *d,
            None => 0,
        };
        assert(at == m.depth_of(parent@));
        if at >= self.max_depth {
            return Err(EngineError::ExpansionDepth(parent.clone()));
        }
        let depth: usize = at + 1;
        let mut prefix = parent.0.clone();
        prefix.push_str("/");
        let sub = qualify(prefix.as_str(), &siblings, &exp.substitute);
        let mut rest = exp.nodes;
        let mut nodes: Vec<NodeSpec> = Vec::new();
        let ghost mut n: int = 0;
        assert(ns.skip(0) =~= ns);
        while rest.len() > 0
            invariant
                ns == exp.nodes@,
                prefix@ == splice_prefix(parent@),
                0 <= n <= ns.len(),
                rest@ == ns.skip(n),
                nodes@.len() == n,
                ascending(texts(siblings@)),
                forall|x: Seq<char>| #[trigger] texts(siblings@).contains(x) <==> sib.contains(x),
                forall|k: int|
                    0 <= k < n ==> spliced(prefix@, sib, ns[k], #[trigger] nodes@[k]),
            decreases rest@.len(),
        {
            let spec = rest.remove(0);
            assert(spec == ns[n]);
            assert(rest@ =~= ns.skip(n + 1));
            let q = splice(prefix.as_str(), &siblings, spec, Ghost(sib));
            nodes.push(q);
            proof {
                n = n + 1;
            }
        }
        let ghost qs = nodes@;
        assert(all_spliced(prefix@, sib, ns, qs));
        let ghost order = batch_order(qs, step_names(qs).to_set(), Set::empty()).0;
        let added = match self.graph.add_batch(nodes) {
            Ok(keys) => keys,
            Err(e) => {
                assert(self.model() =~= m);
                assert(expansion_fault(m, parent@, ns, e));
                return Err(EngineError::Graph(e));
            },
        };
        let ghost grown = RunModel { steps: put_all(m.steps, order), ..m };
        assert(self.model() =~= grown);
        let ghost names_added = key_names(added@);
        let mut j: usize = 0;
        assert(names_added.take(0) =~= Seq::empty());
        while j < added.len()
            invariant
                self.wf(),
                names_added == key_names(added@),
                j <= added@.len(),
                self.model() == grown.join(names_added.take(j as int), depth as nat),
            decreases added@.len() - j,
        {
            assert(names_added.take(j + 1).drop_last() =~= names_added.take(j as int));
            assert(names_added.take(j + 1).last() == added@[j as int]@);
            self.join_one(&added[j], depth);
            j += 1;
        }
        assert(names_added.take(j as int) =~= names_added);
        let ghost joined = self.model();
        self.delegated.insert(sub.0.clone(), parent.0.clone());
        proof {
            assert(name_values(self.delegated@) =~= joined.delegated.insert(sub@, parent@));
            assert(self.model() =~= RunModel {
                delegated: joined.delegated.insert(sub@, parent@),
                ..joined
            });
            assert(expanded(m, self.model(), parent@, ns, exp.substitute@, names_added));
        }
        Ok((added, sub))
    }
}

impl RunModel {
    /// The state before anything has run: what reads nothing is ready, in execution order.
    pub open spec fn start(g: Steps, topo: Seq<Seq<char>>, max_depth: nat) -> RunModel {
        RunModel {
            steps: g,
            topo,
            dependents: Map::empty(),
            pending: Map::new(
                |k: Seq<char>| g.contains_key(k),
                |k: Seq<char>| unrepeated(g[k].dep_names()).len(),
            ),
            outputs: Map::empty(),
            ready: topo.filter(|k: Seq<char>| g[k].deps@.len() == 0),
            reports: Map::empty(),
            settled: Set::empty(),
            running: Set::empty(),
            delegated: Map::empty(),
            depth: Map::empty(),
            first_change_ms: None,
            saved_ms: 0,
            attribution: Attribution::nothing(),
            max_depth,
        }
    }

    /// Can the node be dispatched? It is in the graph, not settled and not running.
    pub open spec fn dispatchable(self, k: Seq<char>) -> bool {
        !self.settled.contains(k) && !self.running.contains(k) && self.steps.contains_key(k)
    }

    /// The key under which a node would run now.
    pub open spec fn action_of(self, k: Seq<char>) -> Seq<u8> {
        action_digest(self.steps[k], self.outputs)
    }
}

/// A node to look up and, if nobody has its result, to run.
pub struct Dispatch {
    pub spec: NodeSpec,
    pub inputs: Vec<Digest>,
    pub action: ActionKey,
}

/// Is this the first node of the queue that can be dispatched, with what it reads and the key
/// under which its result is filed, and is `after` the state without it and what was before it?
pub open spec fn takes(m: RunModel, d: Dispatch, after: RunModel) -> bool {
    let k = d.spec.key@;
    exists|i: int|
        {
            &&& 0 <= i < m.ready.len() && #[trigger] m.ready[i] == k
            &&& m.dispatchable(k)
            &&& same_step(d.spec, m.steps[k])
            &&& d.inputs@ == gather(m.steps[k].dep_names(), m.outputs)
            &&& d.action.0@ == m.action_of(k)
            &&& after == RunModel { ready: m.ready.skip(i + 1), ..m }
            &&& forall|j: int| 0 <= j < i ==> !m.dispatchable(#[trigger] m.ready[j])
        }
}

/// Is there nothing in the queue that can be dispatched, and is `after` the state without it?
pub open spec fn drained(m: RunModel, after: RunModel) -> bool {
    &&& after == (RunModel { ready: Seq::empty(), ..m })
    &&& forall|i: int| 0 <= i < m.ready.len() ==> !m.dispatchable(#[trigger] m.ready[i])
}

/// What a result did to the run.
pub enum Effect {
    /// The node is settled; these nodes were skipped, each with the node that cut it off.
    Settled(Vec<(String, String)>),
    /// The node was expanded into these nodes; the last is the substitute.
    Expanded(Vec<NodeKey>, NodeKey),
}

/// A report in plain values.
pub open spec fn result_report(
    key: Seq<char>,
    kind: NodeKind,
    action: ActionKey,
    status: NodeStatus,
    output: NodeOutput,
    exec_ms: u64,
    queue_ms: u64,
    was_job: bool,
    now: u64,
) -> ReportModel {
    ReportModel {
        key,
        kind,
        action: Some(action),
        status,
        outputs: output.outputs@,
        exec_ms,
        queue_ms,
        attribution: output.attribution,
        was_job,
        finished_at_ms: now,
        diagnostics: texts(output.diagnostics@),
    }
}

/// Is this why the expansion was refused?
pub open spec fn refused_expansion(
    m: RunModel,
    parent: Seq<char>,
    exp: Expansion,
    e: EngineError,
) -> bool {
    let named = step_names(exp.nodes@).contains(exp.substitute@);
    let shallow = m.depth_of(parent) < m.max_depth;
    match e {
        EngineError::BadExpansion { node, sub } => !named && node@ == parent && sub@
            == exp.substitute@,
        EngineError::ExpansionDepth(k) => named && !shallow && k@ == parent,
        EngineError::Graph(g) => named && shallow && expansion_fault(m, parent, exp.nodes@, g),
        _ => false,
    }
}

/// Is `after` the state in which `parent` has been expanded, and recorded as `report`?
pub open spec fn expanded_as(
    before: RunModel,
    after: RunModel,
    exp: Expansion,
    added: Seq<Seq<char>>,
    report: ReportModel,
) -> bool {
    exists|mid: RunModel|
        {
            &&& #[trigger] expanded(
                before,
                mid,
                report.key,
                exp.nodes@,
                exp.substitute@,
                added,
            )
            &&& after == mid.delegate(report)
        }
}

/// The report on a node that the task had completed before it was interrupted.
pub open spec fn resumed_report(
    spec: NodeSpec,
    action: ActionKey,
    outputs: Seq<Digest>,
    attribution: Attribution,
    now: u64,
) -> ReportModel {
    ReportModel {
        key: spec.key@,
        kind: spec.kind,
        action: Some(action),
        status: NodeStatus::Resumed,
        outputs,
        exec_ms: 0,
        queue_ms: 0,
        attribution,
        was_job: false,
        finished_at_ms: now,
        diagnostics: Seq::empty(),
    }
}

/// Is `r` what becomes of a node that the task had completed, and `after` the state then? The node
/// is settled as it was left, or expanded as it was expanded; an expansion that does not fit is
/// refused.
pub open spec fn resumes(
    before: RunModel,
    spec: NodeSpec,
    action: ActionKey,
    outputs: Seq<Digest>,
    attribution: Attribution,
    replay: Option<Expansion>,
    now: u64,
    r: Result<Effect, EngineError>,
    after: RunModel,
) -> bool {
    let report = resumed_report(spec, action, outputs, attribution, now);
    match replay {
        None => {
            &&& after == before.settle(report)
            &&& r matches Ok(Effect::Settled(skipped)) && settled_since(
                skipped@,
                before,
                after,
                spec.key@,
            )
        },
        Some(exp) => match r {
            Ok(Effect::Expanded(added, sub)) => {
                &&& sub@ == splice_prefix(spec.key@) + exp.substitute@
                &&& expanded_as(
                    before,
                    after,
                    exp,
                    key_names(added@),
                    (ReportModel { outputs: Seq::empty(), ..report }),
                )
            },
            Ok(_) => false,
            Err(e) => refused_expansion(before, spec.key@, exp, e) && after == before,
        },
    }
}

/// Is `r` what becomes of a node whose result was found, and `after` the state then? The node is
/// settled as it was left, or expanded as it was expanded; an expansion that does not fit is
/// refused.
pub open spec fn hits(
    before: RunModel,
    spec: NodeSpec,
    action: ActionKey,
    outputs: Seq<Digest>,
    duration_ms: u64,
    replay: Option<Expansion>,
    now: u64,
    r: Result<Effect, EngineError>,
    after: RunModel,
) -> bool {
    let m = RunModel { saved_ms: (before.saved_ms + duration_ms) as u64, ..before };
    let report = ReportModel {
        action: Some(action),
        status: NodeStatus::Hit,
        ..skipped_report(spec.key@, spec.kind, now)
    };
    match replay {
        None => {
            &&& after == m.settle(ReportModel { outputs, ..report })
            &&& r matches Ok(Effect::Settled(skipped)) && settled_since(
                skipped@,
                m,
                after,
                spec.key@,
            )
        },
        Some(exp) => match r {
            Ok(Effect::Expanded(added, sub)) => {
                &&& sub@ == splice_prefix(spec.key@) + exp.substitute@
                &&& expanded_as(m, after, exp, key_names(added@), report)
            },
            Ok(_) => false,
            Err(e) => refused_expansion(m, spec.key@, exp, e) && after == m,
        },
    }
}

/// Is `r` what becomes of a node that an executor is done with, and `after` the state then? One
/// that passed and computed a subgraph is expanded; otherwise the node is settled, as computed or
/// as failed.
pub open spec fn completes(
    before: RunModel,
    spec: NodeSpec,
    action: ActionKey,
    output: NodeOutput,
    expansion: Option<Expansion>,
    exec_ms: u64,
    queue_ms: u64,
    was_job: bool,
    now: u64,
    r: Result<Effect, EngineError>,
    after: RunModel,
) -> bool {
    let m = RunModel { running: before.running.remove(spec.key@), ..before };
    let passed = output.verdict is Pass;
    let report = |status: NodeStatus|
        result_report(
            spec.key@,
            spec.kind,
            action,
            status,
            output,
            exec_ms,
            queue_ms,
            was_job,
            now,
        );
    if passed && expansion is Some {
        let exp = expansion->0;
        match r {
            Ok(Effect::Expanded(added, sub)) => {
                &&& sub@ == splice_prefix(spec.key@) + exp.substitute@
                &&& expanded_as(
                    m,
                    (RunModel { attribution: m.attribution, ..after }),
                    exp,
                    key_names(added@),
                    (ReportModel {
                        outputs: Seq::empty(),
                        diagnostics: Seq::empty(),
                        ..report(NodeStatus::Expanded)
                    }),
                )
                &&& after.attribution == m.attribution.plus(output.attribution)
            },
            Ok(_) => false,
            Err(e) => refused_expansion(m, spec.key@, exp, e) && after == m,
        }
    } else {
        &&& r matches Ok(Effect::Settled(skipped)) && settled_since(
            skipped@,
            m,
            after,
            spec.key@,
        )
        &&& after == m.settle(
            report(
                if passed {
                    NodeStatus::Computed
                } else {
                    NodeStatus::Failed
                },
            ),
        )
    }
}

impl RunState {
    /// The state before anything has run.
    pub fn new(graph: TaskGraph, plan: Plan, max_depth: usize) -> (r: Self)
        requires
            graph.wf(),
            plans(plan, graph@),
        ensures
            r.wf(),
            r.model() == (RunModel {
                dependents: name_lists(plan.dependents@),
                ..RunModel::start(graph@, key_names(plan.topo@), max_depth as nat)
            }),
    {
        let ghost g = graph@;
        let ghost t = key_names(plan.topo@);
        let ghost first = |k: Seq<char>| g[k].deps@.len() == 0;
        let mut ready: Vec<String> = Vec::new();
        let mut i: usize = 0;
        proof {
            assert(t.take(0) =~= Seq::empty());
            assert(texts(ready@) =~= t.take(0).filter(first)) by {
                reveal(Seq::filter);
            }
        }
        while i < plan.topo.len()
            invariant
                graph.wf(),
                plans(plan, g),
                g == graph@,
                t == key_names(plan.topo@),
                i <= plan.topo@.len(),
                first == (|k: Seq<char>| g[k].deps@.len() == 0),
                texts(ready@) == t.take(i as int).filter(first),
            decreases plan.topo@.len() - i,
        {
            let ghost r0 = texts(ready@);
            proof {
                assert(t[i as int] == plan.topo@[i as int]@);
                assert(t.contains(t[i as int]));
                assert(t.take(i + 1).drop_last() =~= t.take(i as int));
                assert(t.take(i + 1).last() == t[i as int]);
                reveal(Seq::filter);
            }
            match graph.get(&plan.topo[i]) {
                Some(spec) => {
                    if spec.deps.len() == 0 {
                        ready.push(plan.topo[i].0.clone());
                        assert(texts(ready@) =~= r0.push(t[i as int]));
                    }
                },
                None => {},
            }
            i += 1;
        }
        assert(t.take(i as int) =~= t);
        let r = RunState {
            graph,
            topo: plan.topo,
            dependents: plan.dependents,
            pending: plan.indegree,
            outputs: NameMap::empty(),
            ready,
            reports: NameMap::empty(),
            settled: Vec::new(),
            running: Vec::new(),
            delegated: NameMap::empty(),
            depth: NameMap::empty(),
            first_change_ms: None,
            saved_ms: 0,
            attribution: Attribution::default(),
            max_depth,
        };
        proof {
            let m = RunModel {
                dependents: name_lists(plan.dependents@),
                ..RunModel::start(g, t, max_depth as nat)
            };
            let a = r.model();
            assert(a.pending =~= m.pending);
            assert(a.outputs =~= m.outputs);
            assert(a.reports =~= m.reports);
            assert(a.settled =~= m.settled);
            assert(a.running =~= m.running);
            assert(a.delegated =~= m.delegated);
            assert(a.depth =~= m.depth);
            assert(a =~= m);
        }
        r
    }

    /// Take the next node that can be dispatched off the queue, with what it reads and the key
    /// under which its result is filed. What cannot be dispatched is dropped on the way: it has
    /// been queued twice, and its first turn has come already.
    pub fn next_dispatch(&mut self) -> (r: Option<Dispatch>)
        requires
            old(self).wf(),
        ensures
            final(self).wf(),
            match r {
                None => drained(old(self).model(), final(self).model()),
                Some(d) => takes(old(self).model(), d, final(self).model()),
            },
    {
        let ghost m = self.model();
        let ghost mut i: int = 0;
        assert(m.ready.skip(0) =~= m.ready);
        assert(self.model() =~= RunModel { ready: m.ready.skip(0), ..m });
        while self.ready.len() > 0
            invariant
                self.wf(),
                m == old(self).model(),
                0 <= i <= m.ready.len(),
                self.model() == (RunModel { ready: m.ready.skip(i), ..m }),
                forall|j: int| 0 <= j < i ==> !m.dispatchable(#[trigger] m.ready[j]),
            decreases self.ready@.len(),
        {
            let ghost r0 = self.ready@;
            assert(texts(r0) == m.ready.skip(i));
            let k = self.ready.remove(0);
            proof {
                assert(k@ == texts(r0)[0]);
                assert(k@ == m.ready[i]);
                assert(texts(self.ready@) =~= texts(r0).skip(1));
                assert(m.ready.skip(i).skip(1) =~= m.ready.skip(i + 1));
                assert(self.model() =~= RunModel { ready: m.ready.skip(i + 1), ..m });
            }
            if !names::has(&self.settled, k.as_str()) && !names::has(&self.running, k.as_str()) {
                match self.graph.nodes.get(k.as_str()) {
                    Some(s) => {
                        let spec = s.clone();
                        let inputs = self.inputs_for(s);
                        let action = action_key(
                            s.kind,
                            s.op.as_slice(),
                            &s.env,
                            inputs.as_slice(),
                        );
                        assert(m.ready[i] == spec.key@);
                        return Some(Dispatch { spec, inputs, action });
                    },
                    None => {},
                }
            }
            proof {
                i = i + 1;
            }
        }
        assert(m.ready.skip(i) == texts(self.ready@));
        assert(i == m.ready.len());
        assert(self.model() =~= RunModel { ready: Seq::empty(), ..m });
        None
    }

    /// A node has been handed to an executor.
    pub fn start(&mut self, key: &NodeKey)
        requires
            old(self).wf(),
        ensures
            final(self).wf(),
            final(self).model() == (RunModel {
                running: old(self).model().running.insert(key@),
                ..old(self).model()
            }),
    {
        let ghost m = self.model();
        let ghost r0 = texts(self.running@);
        names::insert(&mut self.running, key.0.clone());
        assert(texts(self.running@).to_set() =~= r0.to_set().insert(key@));
        assert(self.model() =~= RunModel { running: m.running.insert(key@), ..m });
    }

    /// The task already finished this exact action before it was interrupted. Where the node had
    /// computed a subgraph, the subgraph comes back, and the run goes on inside it.
    pub fn resume(
        &mut self,
        spec: &NodeSpec,
        action: ActionKey,
        outputs: Vec<Digest>,
        attribution: Attribution,
        replay: Option<Expansion>,
        now_ms: u64,
    ) -> (r: Result<Effect, EngineError>)
        requires
            old(self).wf(),
        ensures
            final(self).wf(),
            resumes(
                old(self).model(),
                *spec,
                action,
                outputs@,
                attribution,
                replay,
                now_ms,
                r,
                final(self).model(),
            ),
    {
        let ghost m = self.model();
        match replay {
            None => {
                let report = NodeReport {
                    key: spec.key.clone(),
                    kind: spec.kind,
                    action: Some(action),
                    status: NodeStatus::Resumed,
                    outputs,
                    exec_ms: 0,
                    queue_ms: 0,
                    attribution,
                    was_job: false,
                    finished_at_ms: now_ms,
                    diagnostics: Vec::new(),
                };
                assert(texts(report.diagnostics@) =~= Seq::empty());
                let skipped = self.settle(report);
                Ok(Effect::Settled(skipped))
            },
            Some(exp) => match self.apply_expansion(&spec.key, exp) {
                Err(e) => Err(e),
                Ok((added, sub)) => {
                    let ghost mid = self.model();
                    self.record_delegating(
                        &spec.key,
                        spec.kind,
                        Some(action),
                        NodeStatus::Resumed,
                        attribution,
                        now_ms,
                    );
                    assert(expanded(
                        m,
                        mid,
                        spec.key@,
                        exp.nodes@,
                        exp.substitute@,
                        key_names(added@),
                    ));
                    Ok(Effect::Expanded(added, sub))
                },
            },
        }
    }

    /// A node's result was in the memo store: no work. A planner node's expansion was cached with
    /// it, so the subgraph it planned comes back without the planner running.
    ///
    /// A hit costs nothing, so it contributes nothing to attribution. The work it avoided is
    /// reported separately as time saved.
    pub fn hit(
        &mut self,
        spec: &NodeSpec,
        action: ActionKey,
        outputs: Vec<Digest>,
        duration_ms: u64,
        replay: Option<Expansion>,
        now_ms: u64,
    ) -> (r: Result<Effect, EngineError>)
        requires
            old(self).wf(),
            old(self).saved_ms + duration_ms <= u64::MAX,
        ensures
            final(self).wf(),
            hits(
                old(self).model(),
                *spec,
                action,
                outputs@,
                duration_ms,
                replay,
                now_ms,
                r,
                final(self).model(),
            ),
    {
        let ghost m0 = self.model();
        self.saved_ms = self.saved_ms + duration_ms;
        let ghost m = self.model();
        assert(m =~= RunModel { saved_ms: (m0.saved_ms + duration_ms) as u64, ..m0 });
        match replay {
            None => {
                let report = NodeReport {
                    key: spec.key.clone(),
                    kind: spec.kind,
                    action: Some(action),
                    status: NodeStatus::Hit,
                    outputs,
                    exec_ms: 0,
                    queue_ms: 0,
                    attribution: Attribution::default(),
                    was_job: false,
                    finished_at_ms: now_ms,
                    diagnostics: Vec::new(),
                };
                assert(texts(report.diagnostics@) =~= Seq::empty());
                let skipped = self.settle(report);
                Ok(Effect::Settled(skipped))
            },
            Some(exp) => {
                match self.apply_expansion(&spec.key, exp) {
                    Err(e) => Err(e),
                    Ok((added, sub)) => {
                        let ghost mid = self.model();
                        self.record_delegating(
                            &spec.key,
                            spec.kind,
                            Some(action),
                            NodeStatus::Hit,
                            Attribution::default(),
                            now_ms,
                        );
                        assert(expanded(
                            m,
                            mid,
                            spec.key@,
                            exp.nodes@,
                            exp.substitute@,
                            key_names(added@),
                        ));
                        Ok(Effect::Expanded(added, sub))
                    },
                }
            },
        }
    }

    /// An executor is done with a node. One that passed and computed a subgraph is expanded;
    /// otherwise the node is settled, as computed or as failed.
    pub fn complete(
        &mut self,
        spec: &NodeSpec,
        action: ActionKey,
        output: NodeOutput,
        expansion: Option<Expansion>,
        exec_ms: u64,
        queue_ms: u64,
        was_job: bool,
        now_ms: u64,
    ) -> (r: Result<Effect, EngineError>)
        requires
            old(self).wf(),
            old(self).attribution.fits(output.attribution),
        ensures
            final(self).wf(),
            completes(
                old(self).model(),
                *spec,
                action,
                output,
                expansion,
                exec_ms,
                queue_ms,
                was_job,
                now_ms,
                r,
                final(self).model(),
            ),
    {
        let ghost m0 = self.model();
        self.stop(&spec.key);
        let ghost m = self.model();
        let passed = output.verdict.passed();
        match expansion {
            Some(exp) if passed => {
                match self.apply_expansion(&spec.key, exp) {
                    Err(e) => Err(e),
                    Ok((added, sub)) => {
                        let ghost mid = self.model();
                        let ghost settled0 = texts(self.settled@);
                        names::insert(&mut self.settled, spec.key.0.clone());
                        assert(texts(self.settled@).to_set() =~= settled0.to_set().insert(
                            spec.key@,
                        ));
                        let report = NodeReport {
                            key: spec.key.clone(),
                            kind: spec.kind,
                            action: Some(action),
                            status: NodeStatus::Expanded,
                            outputs: Vec::new(),
                            exec_ms,
                            queue_ms,
                            attribution: output.attribution,
                            was_job,
                            finished_at_ms: now_ms,
                            diagnostics: Vec::new(),
                        };
                        let ghost rep = report@;
                        assert(texts(report.diagnostics@) =~= Seq::empty());
                        self.reports.insert(spec.key.0.clone(), report);
                        proof {
                            assert(report_models(self.reports@) =~= mid.reports.insert(
                                spec.key@,
                                rep,
                            ));
                            assert(self.model() =~= mid.delegate(rep));
                            law_expansion_keeps_results(
                                m,
                                mid,
                                spec.key@,
                                exp.nodes@,
                                exp.substitute@,
                                key_names(added@),
                            );
                        }
                        self.attribution.merge(&output.attribution);
                        proof {
                            assert(RunModel {
                                attribution: m.attribution,
                                ..self.model()
                            } =~= mid.delegate(rep));
                            assert(expanded(
                                m,
                                mid,
                                rep.key,
                                exp.nodes@,
                                exp.substitute@,
                                key_names(added@),
                            ));
                            assert(rep =~= ReportModel {
                                outputs: Seq::empty(),
                                diagnostics: Seq::empty(),
                                ..result_report(
                                    spec.key@,
                                    spec.kind,
                                    action,
                                    NodeStatus::Expanded,
                                    output,
                                    exec_ms,
                                    queue_ms,
                                    was_job,
                                    now_ms,
                                )
                            });
                        }
                        Ok(Effect::Expanded(added, sub))
                    },
                }
            },
            _ => {
                let report = NodeReport {
                    key: spec.key.clone(),
                    kind: spec.kind,
                    action: Some(action),
                    status: if passed {
                        NodeStatus::Computed
                    } else {
                        NodeStatus::Failed
                    },
                    outputs: output.outputs,
                    exec_ms,
                    queue_ms,
                    attribution: output.attribution,
                    was_job,
                    finished_at_ms: now_ms,
                    diagnostics: output.diagnostics,
                };
                let skipped = self.settle(report);
                Ok(Effect::Settled(skipped))
            },
        }
    }

    /// A node is no longer with an executor.
    fn stop(&mut self, key: &NodeKey)
        requires
            old(self).wf(),
        ensures
            final(self).wf(),
            final(self).model() == (RunModel {
                running: old(self).model().running.remove(key@),
                ..old(self).model()
            }),
    {
        let ghost m = self.model();
        let ghost r0 = texts(self.running@);
        let (i, found) = names::position(&self.running, key.as_str());
        if found {
            let _ = self.running.remove(i);
            proof {
                let r1 = texts(self.running@);
                assert(r1 =~= r0.remove(i as int));
                lemma_remove_ascending(r0, i as int);
                assert(r1.to_set() =~= r0.to_set().remove(key@));
            }
        } else {
            assert(r0.to_set() =~= r0.to_set().remove(key@));
        }
        assert(self.model() =~= RunModel { running: m.running.remove(key@), ..m });
    }
}

proof fn lemma_remove_ascending(v: Seq<Seq<char>>, i: int)
    requires
        ascending(v),
        0 <= i < v.len(),
    ensures
        ascending(v.remove(i)),
        forall|x: Seq<char>| #[trigger] v.remove(i).contains(x) <==> v.contains(x) && x != v[i],
{
    let t = v.remove(i);
    assert forall|a: int, b: int| 0 <= a < b < t.len() implies before(#[trigger] t[a], #[trigger] t[b]) by {
        let a0 = if a < i {
            a
        } else {
            a + 1
        };
        let b0 = if b < i {
            b
        } else {
            b + 1
        };
        assert(t[a] == v[a0]);
        assert(t[b] == v[b0]);
    }
    assert forall|x: Seq<char>| #[trigger] t.contains(x) <==> v.contains(x) && x != v[i] by {
        if t.contains(x) {
            let j = choose|j: int| 0 <= j < t.len() && t[j] == x;
            let j0 = if j < i {
                j
            } else {
                j + 1
            };
            assert(v[j0] == x);
            lemma_before_asymmetric(v[j0], v[i]);
            lemma_before_asymmetric(v[i], v[j0]);
        }
        if v.contains(x) && x != v[i] {
            let j = choose|j: int| 0 <= j < v.len() && v[j] == x;
            if j < i {
                assert(t[j] == x);
            } else {
                assert(t[j - 1] == x);
            }
        }
    }
}

pub(crate) proof fn lemma_join_keeps(m: RunModel, added: Seq<Seq<char>>, depth: nat)
    ensures
        ({
            let j = m.join(added, depth);
            &&& j.steps == m.steps
            &&& j.outputs == m.outputs
            &&& j.reports == m.reports
            &&& j.settled == m.settled
            &&& j.running == m.running
            &&& j.delegated == m.delegated
            &&& j.first_change_ms == m.first_change_ms
            &&& j.saved_ms == m.saved_ms
            &&& j.attribution == m.attribution
            &&& j.max_depth == m.max_depth
            &&& j.topo == m.topo + added
        }),
    decreases added.len(),
{
    if added.len() > 0 {
        lemma_join_keeps(m, added.drop_last(), depth);
        assert(m.topo + added =~= (m.topo + added.drop_last()).push(added.last()));
    } else {
        assert(m.topo + added =~= m.topo);
    }
}

/// An expansion only adds: results, reports, what is settled and what is running stay as they
/// were, and the new steps are appended to the order.
pub proof fn law_expansion_keeps_results(
    m: RunModel,
    after: RunModel,
    parent: Seq<char>,
    nodes: Seq<NodeSpec>,
    substitute: Seq<char>,
    added: Seq<Seq<char>>,
)
    requires
        expanded(m, after, parent, nodes, substitute, added),
    ensures
        after.outputs == m.outputs,
        after.reports == m.reports,
        after.settled == m.settled,
        after.running == m.running,
        after.first_change_ms == m.first_change_ms,
        after.saved_ms == m.saved_ms,
        after.attribution == m.attribution,
        after.max_depth == m.max_depth,
        after.topo == m.topo + added,
{
    let prefix = splice_prefix(parent);
    let siblings = step_names(nodes);
    let qs = choose|qs: Seq<NodeSpec>|
        {
            &&& #[trigger] all_spliced(prefix, siblings, nodes, qs)
            &&& ({
                let (order, stuck) = batch_order(qs, step_names(qs).to_set(), Set::empty());
                let grown = RunModel { steps: put_all(m.steps, order), ..m };
                let joined = grown.join(step_names(order), m.depth_of(parent) + 1);
                &&& stuck.len() == 0
                &&& may_all_join(m.steps, qs)
                &&& added == step_names(order)
                &&& after == RunModel {
                    delegated: joined.delegated.insert(
                        qualified(prefix, siblings, substitute),
                        parent,
                    ),
                    ..joined
                }
            })
        };
    let order = batch_order(qs, step_names(qs).to_set(), Set::empty()).0;
    let grown = RunModel { steps: put_all(m.steps, order), ..m };
    lemma_join_keeps(grown, step_names(order), m.depth_of(parent) + 1);
}

/// The names in an expansion are relative to the node that emitted it: every step that joins is
/// spliced in under that node's name, so two planners may both emit a step of the same name.
pub proof fn law_expansion_names_are_scoped(
    m: RunModel,
    after: RunModel,
    parent: Seq<char>,
    nodes: Seq<NodeSpec>,
    substitute: Seq<char>,
    added: Seq<Seq<char>>,
    i: int,
)
    requires
        expanded(m, after, parent, nodes, substitute, added),
        0 <= i < added.len(),
    ensures
        exists|j: int|
            0 <= j < nodes.len() && added[i] == splice_prefix(parent) + (
            #[trigger] nodes[j]).key@,
        !m.steps.contains_key(added[i]),
{
    broadcast use vstd::seq_lib::group_to_multiset_ensures;

    let prefix = splice_prefix(parent);
    let siblings = step_names(nodes);
    let qs = choose|qs: Seq<NodeSpec>|
        {
            &&& #[trigger] all_spliced(prefix, siblings, nodes, qs)
            &&& ({
                let (order, stuck) = batch_order(qs, step_names(qs).to_set(), Set::empty());
                &&& stuck.len() == 0
                &&& may_all_join(m.steps, qs)
                &&& added == step_names(order)
            })
        };
    let (order, stuck) = batch_order(qs, step_names(qs).to_set(), Set::empty());
    law_batch_order_loses_no_step(qs, step_names(qs).to_set(), Set::empty());
    assert(stuck =~= Seq::empty());
    assert(order.to_multiset() =~= qs.to_multiset());
    assert(order.contains(order[i]));
    assert(order.to_multiset().count(order[i]) > 0);
    assert(qs.contains(order[i]));
    let j = choose|j: int| 0 <= j < qs.len() && qs[j] == order[i];
    assert(spliced(prefix, siblings, nodes[j], qs[j]));
    assert(may_join(m.steps, step_names(qs), qs[j]));
    assert(added[i] == order[i].key@);
}

proof fn lemma_join_depth(m: RunModel, added: Seq<Seq<char>>, depth: nat, x: Seq<char>)
    ensures
        m.join(added, depth).max_depth == m.max_depth,
        m.join(added, depth).depth_of(x) == if added.contains(x) {
            depth
        } else {
            m.depth_of(x)
        },
    decreases added.len(),
{
    if added.len() > 0 {
        let w = added.drop_last();
        lemma_join_depth(m, w, depth, x);
        assert(added =~= w.push(added.last()));
        lemma_push_contains(w, added.last());
    }
}

/// A repair that needs a repair that needs a repair comes to an end: the steps of an expansion lie
/// one deeper than the node that emitted them, and no step ever lies deeper than the limit.
pub proof fn law_expansions_end(
    m: RunModel,
    after: RunModel,
    parent: Seq<char>,
    nodes: Seq<NodeSpec>,
    substitute: Seq<char>,
    added: Seq<Seq<char>>,
)
    requires
        expanded(m, after, parent, nodes, substitute, added),
        forall|x: Seq<char>| #[trigger] m.depth_of(x) <= m.max_depth,
    ensures
        forall|x: Seq<char>| #[trigger] after.depth_of(x) <= after.max_depth,
        forall|i: int|
            0 <= i < added.len() ==> after.depth_of(#[trigger] added[i]) == m.depth_of(parent) + 1,
{
    let prefix = splice_prefix(parent);
    let siblings = step_names(nodes);
    let qs = choose|qs: Seq<NodeSpec>|
        {
            &&& #[trigger] all_spliced(prefix, siblings, nodes, qs)
            &&& ({
                let order = batch_order(qs, step_names(qs).to_set(), Set::empty()).0;
                let grown = RunModel { steps: put_all(m.steps, order), ..m };
                let joined = grown.join(step_names(order), m.depth_of(parent) + 1);
                &&& added == step_names(order)
                &&& after.depth == joined.depth
                &&& after.max_depth == joined.max_depth
            })
        };
    let order = batch_order(qs, step_names(qs).to_set(), Set::empty()).0;
    let grown = RunModel { steps: put_all(m.steps, order), ..m };
    let depth = m.depth_of(parent) + 1;
    let joined = grown.join(added, depth);
    assert forall|x: Seq<char>| #[trigger] after.depth_of(x) <= after.max_depth by {
        lemma_join_depth(grown, added, depth, x);
        assert(after.depth_of(x) == joined.depth_of(x));
        assert(grown.depth_of(x) == m.depth_of(x));
    }
    assert forall|i: int| 0 <= i < added.len() implies after.depth_of(#[trigger] added[i])
        == depth by {
        lemma_join_depth(grown, added, depth, added[i]);
        assert(added.contains(added[i]));
        assert(after.depth_of(added[i]) == joined.depth_of(added[i]));
    }
}

impl RunModel {
    /// The state after whatever of these nodes never became reachable has been skipped.
    pub open spec fn skip_rest(self, ks: Seq<Seq<char>>, now: u64) -> RunModel
        decreases ks.len(),
    {
        if ks.len() == 0 {
            self
        } else {
            let m = self.skip_rest(ks.drop_last(), now);
            let k = ks.last();
            if m.steps.contains_key(k) {
                m.settle(skipped_report(k, m.steps[k].kind, now))
            } else {
                m
            }
        }
    }
}

impl RunModel {
    /// The state in which every node that still waits for an answer in its place has failed.
    pub open spec fn without_answers(self) -> RunModel {
        RunModel {
            reports: Map::new(
                |x: Seq<char>| self.reports.contains_key(x),
                |x: Seq<char>|
                    if self.delegated.contains_value(x) {
                        ReportModel { status: NodeStatus::Failed, ..self.reports[x] }
                    } else {
                        self.reports[x]
                    },
            ),
            ..self
        }
    }

    /// The state of a run that is over: what never became reachable is skipped, and a node whose
    /// substitute gave no answer has failed.
    pub open spec fn closed(self, now: u64) -> RunModel {
        self.skip_rest(self.topo, now).without_answers()
    }
}

/// The reports of these nodes, in this order; nodes without one are left out.
pub open spec fn listed(
    ks: Seq<Seq<char>>,
    reports: Map<Seq<char>, ReportModel>,
) -> Seq<ReportModel>
    decreases ks.len(),
{
    if ks.len() == 0 {
        Seq::empty()
    } else {
        let before = listed(ks.drop_last(), reports);
        if reports.contains_key(ks.last()) {
            before.push(reports[ks.last()])
        } else {
            before
        }
    }
}

/// A run of reports in plain values.
pub open spec fn report_list(v: Seq<NodeReport>) -> Seq<ReportModel> {
    v.map_values(|r: NodeReport| r@)
}

impl RunState {
    /// Every node that was to be answered for, and was not, has failed.
    fn fail_unanswered(&mut self)
        requires
            old(self).wf(),
        ensures
            final(self).wf(),
            final(self).model() == old(self).model().without_answers(),
    {
        let ghost m = self.model();
        let ghost es = self.delegated.entries@;
        let mut i: usize = 0;
        while i < self.delegated.entries.len()
            invariant
                self.wf(),
                i <= es.len(),
                es == self.delegated.entries@,
                self.model() == (RunModel { reports: self.model().reports, ..m }),
                forall|x: Seq<char>| #[trigger]
                    self.model().reports.contains_key(x) <==> m.reports.contains_key(x),
                forall|x: Seq<char>| #[trigger]
                    m.reports.contains_key(x) ==> self.model().reports[x] == if exists|j: int|
                        0 <= j < i && (#[trigger] es[j]).1@ == x {
                        ReportModel { status: NodeStatus::Failed, ..m.reports[x] }
                    } else {
                        m.reports[x]
                    },
            decreases es.len() - i,
        {
            let ghost a = self.model();
            let parent = self.delegated.entries[i].1.clone();
            let ghost p = parent@;
            match self.reports.remove(parent.as_str()) {
                None => {
                    assert(report_models(self.reports@) =~= a.reports);
                },
                Some(r) => {
                    assert(r@ == a.reports[p]);
                    let next = NodeReport {
                        key: r.key,
                        kind: r.kind,
                        action: r.action,
                        status: NodeStatus::Failed,
                        outputs: r.outputs,
                        exec_ms: r.exec_ms,
                        queue_ms: r.queue_ms,
                        attribution: r.attribution,
                        was_job: r.was_job,
                        finished_at_ms: r.finished_at_ms,
                        diagnostics: r.diagnostics,
                    };
                    let ghost n = next@;
                    self.reports.insert(parent, next);
                    proof {
                        assert(a.reports.contains_key(p));
                        assert(m.reports.contains_key(p));
                        assert(n =~= ReportModel { status: NodeStatus::Failed, ..m.reports[p] });
                        assert(report_models(self.reports@) =~= a.reports.insert(p, n));
                    }
                },
            }
            proof {
                let b = self.model();
                assert(b =~= RunModel { reports: b.reports, ..m });
                assert forall|x: Seq<char>| #[trigger] m.reports.contains_key(x) implies b.reports[x]
                    == if exists|j: int| 0 <= j < i + 1 && (#[trigger] es[j]).1@ == x {
                    ReportModel { status: NodeStatus::Failed, ..m.reports[x] }
                } else {
                    m.reports[x]
                } by {
                    assert(a.reports.contains_key(x));
                    if exists|j: int| 0 <= j < i && (#[trigger] es[j]).1@ == x {
                        let j = choose|j: int| 0 <= j < i && (#[trigger] es[j]).1@ == x;
                        assert(0 <= j < i + 1 && es[j].1@ == x);
                    }
                    if x == p {
                        assert(es[i as int].1@ == x);
                    } else if exists|j: int| 0 <= j < i + 1 && (#[trigger] es[j]).1@ == x {
                        let j = choose|j: int| 0 <= j < i + 1 && (#[trigger] es[j]).1@ == x;
                        assert(j < i);
                    }
                }
            }
            i += 1;
        }
        proof {
            let b = self.model();
            let c = m.without_answers();
            assert forall|x: Seq<char>| #[trigger] m.reports.contains_key(x) implies b.reports[x]
                == c.reports[x] by {
                if m.delegated.contains_value(x) {
                    let s = choose|s: Seq<char>| #[trigger]
                        m.delegated.contains_key(s) && m.delegated[s] == x;
                    let j = self.delegated.names().index_of(s);
                    assert(self.delegated.names().contains(s));
                    self.delegated.lemma_at(j);
                    assert(es[j].1@ == x);
                }
                if exists|j: int| 0 <= j < i && (#[trigger] es[j]).1@ == x {
                    let j = choose|j: int| 0 <= j < i && (#[trigger] es[j]).1@ == x;
                    self.delegated.lemma_at(j);
                    assert(m.delegated.contains_key(self.delegated.names()[j]));
                    assert(m.delegated[self.delegated.names()[j]] == x);
                }
            }
            assert(b.reports =~= c.reports);
        }
    }

    /// Anything still pending never became reachable: it sits behind a failure. And a node whose
    /// substitute was never reached has failed with it.
    pub fn skip_leftovers(&mut self, now_ms: u64)
        requires
            old(self).wf(),
        ensures
            final(self).wf(),
            final(self).model() == old(self).model().closed(now_ms),
    {
        let ghost m = self.model();
        let ghost t = m.topo;
        let topo = copy_keys(&self.topo);
        let mut i: usize = 0;
        assert(t.take(0) =~= Seq::empty());
        while i < topo.len()
            invariant
                self.wf(),
                t == key_names(topo@),
                i <= topo@.len(),
                self.model() == m.skip_rest(t.take(i as int), now_ms),
            decreases topo@.len() - i,
        {
            assert(t.take(i + 1).drop_last() =~= t.take(i as int));
            assert(t.take(i + 1).last() == topo@[i as int]@);
            match self.graph.get(&topo[i]) {
                Some(spec) => {
                    let report = NodeReport {
                        key: topo[i].clone(),
                        kind: spec.kind,
                        action: None,
                        status: NodeStatus::Skipped,
                        outputs: Vec::new(),
                        exec_ms: 0,
                        queue_ms: 0,
                        attribution: Attribution::default(),
                        was_job: false,
                        finished_at_ms: now_ms,
                        diagnostics: Vec::new(),
                    };
                    assert(texts(report.diagnostics@) =~= Seq::empty());
                    assert(report@ =~= skipped_report(topo@[i as int]@, spec.kind, now_ms));
                    let _ = self.settle(report);
                },
                None => {},
            }
            i += 1;
        }
        assert(t.take(i as int) =~= t);
        self.fail_unanswered();
    }

    /// The report of the whole run: every node that has one, in execution order.
    pub fn into_report(self, task_id: &str, wall_ms: u64, eta_at_start: Eta) -> (r: RunReport)
        requires
            self.wf(),
        ensures
            r.task_id@ == task_id@,
            r.wall_ms == wall_ms,
            r.eta_at_start == eta_at_start,
            r.first_change_ms == self.first_change_ms,
            r.attribution == self.attribution,
            r.saved_ms == self.saved_ms,
            report_list(r.nodes@) == listed(self.model().topo, self.model().reports),
    {
        let ghost t = self.model().topo;
        let ghost reports = self.model().reports;
        let mut nodes: Vec<NodeReport> = Vec::new();
        let mut i: usize = 0;
        assert(t.take(0) =~= Seq::empty());
        assert(report_list(nodes@) =~= Seq::empty());
        while i < self.topo.len()
            invariant
                self.wf(),
                t == key_names(self.topo@),
                reports == report_models(self.reports@),
                i <= self.topo@.len(),
                report_list(nodes@) == listed(t.take(i as int), reports),
            decreases self.topo@.len() - i,
        {
            assert(t.take(i + 1).drop_last() =~= t.take(i as int));
            assert(t.take(i + 1).last() == self.topo@[i as int]@);
            let ghost n0 = nodes@;
            match self.reports.get(self.topo[i].as_str()) {
                Some(r) => {
                    let c = r.clone();
                    nodes.push(c);
                    assert(report_list(nodes@) =~= report_list(n0).push(c@));
                },
                None => {},
            }
            i += 1;
        }
        assert(t.take(i as int) =~= t);
        RunReport {
            task_id: task_id.to_owned(),
            wall_ms,
            eta_at_start,
            first_change_ms: self.first_change_ms,
            nodes,
            attribution: self.attribution,
            saved_ms: self.saved_ms,
        }
    }
}

/// Per run limits.
pub struct EngineConfig {
    /// Per lane concurrency cap. Cpu-heavy lanes get fewer slots.
    pub lane_caps: NameMap<usize>,
    pub default_lane_cap: usize,
    /// A node whose p50 exceeds this becomes a job.
    pub job_threshold_ms: u64,
    /// Resume a previously crashed or disconnected task from its journal.
    pub resume: bool,
    /// How deep one lineage of expansions may go. A repair that keeps producing repairs is a bug,
    /// and an unbounded one burns tokens until a human notices.
    pub max_expansion_depth: usize,
}

impl EngineConfig {
    /// The usual limits on a machine with this many processors. Model calls are network bound:
    /// many in flight is free. Local work is not.
    pub fn for_cpus(cpus: usize) -> (r: Self)
        ensures
            r.lane_caps.wf(),
            r.lane_caps@ == Map::<Seq<char>, usize>::empty().insert("model"@, 32usize).insert(
                "cpu"@,
                if cpus < 2 {
                    2usize
                } else {
                    cpus
                },
            ),
            r.default_lane_cap == if cpus < 2 {
                2usize
            } else {
                cpus
            },
            r.job_threshold_ms == 2000,
            r.resume,
            r.max_expansion_depth == 8,
    {
        let local: usize = if cpus < 2 {
            2
        } else {
            cpus
        };
        let mut lane_caps: NameMap<usize> = NameMap::empty();
        lane_caps.insert("model".to_owned(), 32);
        lane_caps.insert("cpu".to_owned(), local);
        EngineConfig {
            lane_caps,
            default_lane_cap: local,
            job_threshold_ms: 2000,
            resume: true,
            max_expansion_depth: 8,
        }
    }

    /// How many nodes of a lane may run at once: its cap, or the default, but never none.
    pub fn lane_cap(&self, lane: &Lane) -> (r: usize)
        requires
            self.lane_caps.wf(),
        ensures
            ({
                let cap = if self.lane_caps@.contains_key(lane@) {
                    self.lane_caps@[lane@]
                } else {
                    self.default_lane_cap
                };
                r == if cap == 0 {
                    1usize
                } else {
                    cap
                }
            }),
    {
        let cap: usize = match self.lane_caps.get(lane.as_str()) {
            Some(c) => *c,
            None => self.default_lane_cap,
        };
        if cap == 0 {
            1
        } else {
            cap
        }
    }

    /// Should a node run as a job? Over the threshold by history, or slow by nature.
    pub fn is_job(&self, kind: NodeKind, p50_ms: Option<u64>) -> (r: bool)
        ensures
            r == (kind is Render || kind is Build || (p50_ms is Some && p50_ms->0
                > self.job_threshold_ms)),
    {
        if kind.is_inherently_slow() {
            return true;
        }
        match p50_ms {
            Some(p) => p > self.job_threshold_ms,
            None => false,
        }
    }
}

/// The walk that predicts what every remaining node will cost.
///
/// Asking history what each unfinished node costs and adding up the critical path is badly wrong
/// on a warm or hot task: it quotes 30 seconds for work the memo store is about to serve in 4
/// milliseconds. So the walk *predicts* content forward: a node whose inputs are all predicted
/// gets its action key computed and probed against the memo, and a probe that hits costs nothing
/// and lets the prediction continue through its children. The moment a node cannot be predicted,
/// its descendants fall back to history, which is the honest answer.
pub struct CostWalk {
    pub at: usize,
    pub costs: NameMap<NodeCost>,
    pub predicted: NameMap<Vec<Digest>>,
}

/// The walk in plain values.
#[verifier::ext_equal]
pub struct WalkModel {
    pub at: nat,
    pub costs: Map<Seq<char>, NodeCost>,
    pub predicted: Map<Seq<char>, Seq<Digest>>,
}

impl View for CostWalk {
    type V = WalkModel;

    open spec fn view(&self) -> WalkModel {
        WalkModel {
            at: self.at as nat,
            costs: self.costs@,
            predicted: digest_lists(self.predicted@),
        }
    }
}

/// What has to be found out about a node before the walk can go on: its memo entry under
/// `action`, if one is given, and otherwise or failing that its history.
pub struct CostQuestion {
    pub key: NodeKey,
    pub action: Option<ActionKey>,
}

impl WalkModel {
    /// Go past every node that needs no question: one the graph does not hold, and one that is
    /// settled, which costs nothing and produced what it produced.
    pub open spec fn advance(self, m: RunModel) -> WalkModel
        decreases m.topo.len() - self.at,
    {
        if self.at >= m.topo.len() {
            self
        } else {
            let k = m.topo[self.at as int];
            if !m.steps.contains_key(k) {
                WalkModel { at: self.at + 1, ..self }.advance(m)
            } else if m.settled.contains(k) {
                WalkModel {
                    at: self.at + 1,
                    costs: self.costs.insert(k, NodeCost::Done),
                    predicted: if m.outputs.contains_key(k) {
                        self.predicted.insert(k, m.outputs[k])
                    } else {
                        self.predicted
                    },
                }.advance(m)
            } else {
                self
            }
        }
    }

    /// Is everything that a node reads predicted?
    pub open spec fn predictable(self, deps: Seq<Seq<char>>) -> bool {
        forall|d: Seq<char>| #[trigger] deps.contains(d) ==> self.predicted.contains_key(d)
    }

    /// The walk after the question about `k` has been answered.
    pub open spec fn answered(
        self,
        k: Seq<char>,
        asked: bool,
        hit: Option<Seq<Digest>>,
        p50: Option<u64>,
        elapsed: u64,
    ) -> WalkModel {
        if asked && hit is Some {
            WalkModel {
                at: self.at + 1,
                costs: self.costs.insert(k, NodeCost::Done),
                predicted: self.predicted.insert(k, hit->0),
            }
        } else {
            WalkModel {
                at: self.at + 1,
                costs: self.costs.insert(
                    k,
                    match p50 {
                        Some(p) => NodeCost::Known(
                            if p > elapsed {
                                (p - elapsed) as u64
                            } else {
                                0
                            },
                        ),
                        None => NodeCost::Unknown,
                    },
                ),
                ..self
            }
        }
    }
}

impl CostWalk {
    pub open spec fn wf(&self) -> bool {
        self.costs.wf() && self.predicted.wf()
    }

    pub fn new() -> (r: Self)
        ensures
            r.wf(),
            r@ == (WalkModel { at: 0, costs: Map::empty(), predicted: Map::empty() }),
    {
        let r = CostWalk { at: 0, costs: NameMap::empty(), predicted: NameMap::empty() };
        assert(r@.predicted =~= Map::empty());
        r
    }

    /// The next question, or none if the walk is done.
    pub fn next(&mut self, st: &RunState) -> (r: Option<CostQuestion>)
        requires
            old(self).wf(),
            st.wf(),
        ensures
            final(self).wf(),
            final(self)@ == old(self)@.advance(st.model()),
            ({
                let m = st.model();
                let w = final(self)@;
                match r {
                    None => w.at >= m.topo.len(),
                    Some(q) => {
                        let k = q.key@;
                        &&& w.at < m.topo.len() && m.topo[w.at as int] == k
                        &&& m.steps.contains_key(k) && !m.settled.contains(k)
                        &&& q.action is Some <==> w.predictable(m.steps[k].dep_names())
                            && !m.running.contains(k)
                        &&& q.action is Some ==> (q.action->0).0@ == blake3_of(
                            frames(
                                action_fields(
                                    m.steps[k].kind,
                                    m.steps[k].op@,
                                    m.steps[k].env,
                                    gather(m.steps[k].dep_names(), w.predicted),
                                ),
                            ),
                        )
                    },
                }
            }),
    {
        let ghost m = st.model();
        let ghost goal = self@.advance(m);
        while self.at < st.topo.len()
            invariant
                self.wf(),
                st.wf(),
                m == st.model(),
                goal == old(self)@.advance(m),
                self@.advance(m) == goal,
            decreases st.topo@.len() - self.at,
        {
            let ghost w = self@;
            let key = st.topo[self.at].clone();
            assert(key@ == m.topo[self.at as int]);
            match st.graph.get(&key) {
                None => {
                    self.at = self.at + 1;
                    assert(self@ =~= WalkModel { at: w.at + 1, ..w });
                },
                Some(spec) => {
                    if names::has(&st.settled, key.as_str()) {
                        self.costs.insert(key.0.clone(), NodeCost::Done);
                        match st.outputs.get(key.as_str()) {
                            Some(outs) => {
                                self.predicted.insert(key.0.clone(), copy_digests(outs));
                                assert(self@.predicted =~= w.predicted.insert(
                                    key@,
                                    m.outputs[key@],
                                ));
                            },
                            None => {},
                        }
                        self.at = self.at + 1;
                        assert(self@ =~= WalkModel {
                            at: w.at + 1,
                            costs: w.costs.insert(key@, NodeCost::Done),
                            predicted: if m.outputs.contains_key(key@) {
                                w.predicted.insert(key@, m.outputs[key@])
                            } else {
                                w.predicted
                            },
                        });
                    } else {
                        let guessed = self.predict(spec);
                        let action = match guessed {
                            Some(inputs) => if names::has(&st.running, key.as_str()) {
                                None
                            } else {
                                Some(
                                    action_key(
                                        spec.kind,
                                        spec.op.as_slice(),
                                        &spec.env,
                                        inputs.as_slice(),
                                    ),
                                )
                            },
                            None => None,
                        };
                        return Some(CostQuestion { key, action });
                    }
                },
            }
        }
        None
    }

    /// What a node will read, if all of it is predicted.
    fn predict(&self, spec: &NodeSpec) -> (r: Option<Vec<Digest>>)
        requires
            self.wf(),
        ensures
            r is Some <==> self@.predictable(spec.dep_names()),
            r is Some ==> r->0@ == gather(spec.dep_names(), self@.predicted),
    {
        let ghost ds = spec.dep_names();
        let ghost outs = self@.predicted;
        let mut inputs: Vec<Digest> = Vec::new();
        let mut i: usize = 0;
        assert(ds.take(0) =~= Seq::empty());
        while i < spec.deps.len()
            invariant
                self.wf(),
                ds == spec.dep_names(),
                outs == self@.predicted,
                i <= spec.deps@.len(),
                inputs@ == gather(ds.take(i as int), outs),
                forall|k: int| 0 <= k < i ==> outs.contains_key(#[trigger] ds[k]),
            decreases spec.deps@.len() - i,
        {
            assert(ds.take(i + 1).drop_last() =~= ds.take(i as int));
            assert(ds.take(i + 1).last() == spec.deps@[i as int]@);
            match self.predicted.get(spec.deps[i].as_str()) {
                Some(v) => {
                    let mut more = copy_digests(v);
                    inputs.append(&mut more);
                },
                None => {
                    assert(ds.contains(ds[i as int]));
                    return None;
                },
            }
            i += 1;
        }
        assert(ds.take(i as int) =~= ds);
        assert forall|d: Seq<char>| #[trigger] ds.contains(d) implies outs.contains_key(d) by {
            let k = choose|k: int| 0 <= k < ds.len() && ds[k] == d;
        }
        Some(inputs)
    }

    /// The answer to a question: what the memo holds under the action, if it was asked and holds
    /// anything; the p50 from history; and how long the node has been running already.
    pub fn answer(
        &mut self,
        q: CostQuestion,
        hit: Option<Vec<Digest>>,
        p50_ms: Option<u64>,
        elapsed_ms: u64,
    )
        requires
            old(self).wf(),
            old(self).at < usize::MAX,
        ensures
            final(self).wf(),
            final(self)@ == old(self)@.answered(
                q.key@,
                q.action is Some,
                match hit {
                    Some(v) => Some(v@),
                    None => None,
                },
                p50_ms,
                elapsed_ms,
            ),
    {
        let ghost w = self@;
        self.at = self.at + 1;
        if q.action.is_some() {
            match hit {
                Some(outs) => {
                    self.costs.insert(q.key.0.clone(), NodeCost::Done);
                    self.predicted.insert(q.key.0, outs);
                    assert(self@.predicted =~= w.predicted.insert(q.key@, outs@));
                    return;
                },
                None => {},
            }
        }
        let cost = match p50_ms {
            Some(p) => NodeCost::Known(
                if p > elapsed_ms {
                    p - elapsed_ms
                } else {
                    0
                },
            ),
            None => NodeCost::Unknown,
        };
        self.costs.insert(q.key.0, cost);
    }
}

proof fn lemma_resolve_grows(
    m: RunModel,
    k: Seq<char>,
    outputs: Seq<Digest>,
    diagnostics: Seq<Seq<char>>,
    status: NodeStatus,
    now: u64,
)
    requires
        m.delegated.dom().finite(),
    ensures
        ({
            let r = m.resolve(k, outputs, diagnostics, status, now);
            &&& m.settled.subset_of(r.settled)
            &&& r.steps == m.steps
            &&& r.topo == m.topo
            &&& r.dependents == m.dependents
            &&& r.running == m.running
            &&& r.delegated.dom().finite()
        }),
    decreases m.delegated.dom().len(),
{
    if m.delegated.contains_key(k) {
        let parent = m.delegated[k];
        let handed = m.pass_on(parent, outputs, diagnostics, status);
        let b = RunModel { delegated: m.delegated.remove(k), ..handed };
        let c = b.follow(parent, status, now);
        assert(c.delegated == m.delegated.remove(k));
        lemma_resolve_grows(c, parent, outputs, diagnostics, status, now);
    }
}

proof fn lemma_resolve_keeps(
    m: RunModel,
    k: Seq<char>,
    outputs: Seq<Digest>,
    diagnostics: Seq<Seq<char>>,
    status: NodeStatus,
    now: u64,
    x: Seq<char>,
)
    requires
        m.delegated.dom().finite(),
        m.outputs.contains_key(x),
        m.outputs[x] == outputs,
    ensures
        m.resolve(k, outputs, diagnostics, status, now).outputs.contains_key(x),
        m.resolve(k, outputs, diagnostics, status, now).outputs[x] == outputs,
    decreases m.delegated.dom().len(),
{
    if m.delegated.contains_key(k) {
        let parent = m.delegated[k];
        let handed = m.pass_on(parent, outputs, diagnostics, status);
        let b = RunModel { delegated: m.delegated.remove(k), ..handed };
        let c = b.follow(parent, status, now);
        assert(c.delegated == m.delegated.remove(k));
        assert(c.outputs == m.outputs.insert(parent, outputs));
        lemma_resolve_keeps(c, parent, outputs, diagnostics, status, now, x);
    }
}

proof fn lemma_resolve_reaches(
    m: RunModel,
    k: Seq<char>,
    outputs: Seq<Digest>,
    diagnostics: Seq<Seq<char>>,
    status: NodeStatus,
    now: u64,
    p: Seq<char>,
    n: nat,
)
    requires
        m.delegated.dom().finite(),
        n > 0,
        carries(m.delegated, k, p, n),
    ensures
        m.resolve(k, outputs, diagnostics, status, now).outputs.contains_key(p),
        m.resolve(k, outputs, diagnostics, status, now).outputs[p] == outputs,
    decreases n,
{
    let parent = m.delegated[k];
    let handed = m.pass_on(parent, outputs, diagnostics, status);
    let b = RunModel { delegated: m.delegated.remove(k), ..handed };
    let c = b.follow(parent, status, now);
    assert(c.delegated == m.delegated.remove(k));
    assert(c.outputs == m.outputs.insert(parent, outputs));
    if n == 1 {
        assert(carries(m.delegated.remove(k), parent, p, 0));
        assert(p == parent);
        lemma_resolve_keeps(c, parent, outputs, diagnostics, status, now, p);
    } else {
        lemma_resolve_reaches(c, parent, outputs, diagnostics, status, now, p, (n - 1) as nat);
    }
}

/// What is settled stays settled, and a node that has come to its result is settled. A result
/// changes neither the steps nor their order nor what is running.
pub proof fn law_settled_stays_settled(m: RunModel, report: ReportModel)
    requires
        m.delegated.dom().finite(),
    ensures
        m.settled.subset_of(m.settle(report).settled),
        m.settle(report).settled.contains(report.key),
        m.settle(report).steps == m.steps,
        m.settle(report).topo == m.topo,
        m.settle(report).running == m.running,
{
    if !m.settled.contains(report.key) {
        lemma_resolve_grows(
            m.enter(report),
            report.key,
            report.outputs,
            report.diagnostics,
            report.status,
            report.finished_at_ms,
        );
    }
}

proof fn lemma_skip_rest(m: RunModel, ks: Seq<Seq<char>>, now: u64)
    requires
        m.delegated.dom().finite(),
    ensures
        ({
            let r = m.skip_rest(ks, now);
            &&& r.delegated.dom().finite()
            &&& r.steps == m.steps
            &&& m.settled.subset_of(r.settled)
            &&& forall|k: Seq<char>| #[trigger]
                ks.contains(k) && m.steps.contains_key(k) ==> r.settled.contains(k)
        }),
    decreases ks.len(),
{
    if ks.len() > 0 {
        let w = ks.drop_last();
        let k = ks.last();
        lemma_skip_rest(m, w, now);
        let b = m.skip_rest(w, now);
        if b.steps.contains_key(k) {
            let report = skipped_report(k, b.steps[k].kind, now);
            law_settled_stays_settled(b, report);
            if !b.settled.contains(k) {
                lemma_resolve_grows(
                    b.enter(report),
                    k,
                    report.outputs,
                    report.diagnostics,
                    report.status,
                    now,
                );
            }
        }
        assert forall|x: Seq<char>| #[trigger] ks.contains(x) && m.steps.contains_key(x) implies
            m.skip_rest(ks, now).settled.contains(x) by {
            let i = choose|i: int| 0 <= i < ks.len() && ks[i] == x;
            if i < w.len() {
                assert(w[i] == x);
                assert(w.contains(x));
            }
        }
    }
}

/// A run ends with every node accounted for: once what never became reachable has been skipped,
/// every step in the order of execution is settled.
pub proof fn law_every_node_is_settled_in_the_end(m: RunModel, now: u64, k: Seq<char>)
    requires
        m.delegated.dom().finite(),
        m.topo.contains(k),
        m.steps.contains_key(k),
    ensures
        m.closed(now).settled.contains(k),
{
    lemma_skip_rest(m, m.topo, now);
}

/// Is this a node that has handed its identity on and waits for an answer, or has failed?
spec fn waits_or_failed(m: RunModel, p: Seq<char>) -> bool {
    &&& m.delegated.dom().finite()
    &&& m.settled.contains(p)
    &&& m.reports.contains_key(p)
    &&& m.delegated.contains_value(p) || m.reports[p].status is Failed
}

proof fn lemma_follow_waits(m: RunModel, k: Seq<char>, status: NodeStatus, now: u64, p: Seq<char>)
    requires
        waits_or_failed(m, p),
    ensures
        waits_or_failed(m.follow(k, status, now), p),
{
    let a = m.follow(k, status, now);
    if gave_nothing(status) && m.cut_off(k, p) {
        lemma_cut_unsettled(m, k, p);
    }
    assert(a.delegated == m.delegated);
}

proof fn lemma_resolve_waits(
    m: RunModel,
    k: Seq<char>,
    outputs: Seq<Digest>,
    diagnostics: Seq<Seq<char>>,
    status: NodeStatus,
    now: u64,
    p: Seq<char>,
)
    requires
        waits_or_failed(m, p),
        gave_nothing(status),
    ensures
        waits_or_failed(m.resolve(k, outputs, diagnostics, status, now), p),
    decreases m.delegated.dom().len(),
{
    if m.delegated.contains_key(k) {
        let parent = m.delegated[k];
        let handed = m.pass_on(parent, outputs, diagnostics, status);
        let b = RunModel { delegated: m.delegated.remove(k), ..handed };
        if p != parent && m.delegated.contains_value(p) {
            let s = choose|s: Seq<char>| #[trigger]
                m.delegated.contains_key(s) && m.delegated[s] == p;
            assert(b.delegated.contains_key(s) && b.delegated[s] == p);
        }
        assert(waits_or_failed(b, p));
        lemma_follow_waits(b, parent, status, now, p);
        let c = b.follow(parent, status, now);
        assert(c.delegated == m.delegated.remove(k));
        lemma_resolve_waits(c, parent, outputs, diagnostics, status, now, p);
    }
}

proof fn lemma_skip_rest_waits(m: RunModel, ks: Seq<Seq<char>>, now: u64, p: Seq<char>)
    requires
        waits_or_failed(m, p),
    ensures
        waits_or_failed(m.skip_rest(ks, now), p),
    decreases ks.len(),
{
    if ks.len() > 0 {
        let k = ks.last();
        lemma_skip_rest_waits(m, ks.drop_last(), now, p);
        let b = m.skip_rest(ks.drop_last(), now);
        if b.steps.contains_key(k) && !b.settled.contains(k) {
            let r = skipped_report(k, b.steps[k].kind, now);
            let e = b.enter(r);
            lemma_resolve_waits(e, k, r.outputs, r.diagnostics, r.status, now, p);
            let v = e.resolve(k, r.outputs, r.diagnostics, r.status, now);
            lemma_follow_waits(v, k, r.status, now, p);
        }
    }
}

/// A subgraph that fails fails the node that delegated to it: a node that still waits for an answer
/// in its place when a run is over is reported as failed, whether its substitute failed, was
/// skipped or was never reached.
pub proof fn law_a_subgraph_that_fails_fails_its_node(m: RunModel, now: u64, p: Seq<char>)
    requires
        m.delegated.dom().finite(),
        m.delegated.contains_value(p),
        m.settled.contains(p),
        m.reports.contains_key(p),
    ensures
        m.closed(now).reports[p].status is Failed,
{
    lemma_skip_rest_waits(m, m.topo, now, p);
}

proof fn lemma_resolve_spends_nothing(
    m: RunModel,
    k: Seq<char>,
    outputs: Seq<Digest>,
    diagnostics: Seq<Seq<char>>,
    status: NodeStatus,
    now: u64,
)
    requires
        m.delegated.dom().finite(),
    ensures
        m.resolve(k, outputs, diagnostics, status, now).attribution == m.attribution,
    decreases m.delegated.dom().len(),
{
    if m.delegated.contains_key(k) {
        let parent = m.delegated[k];
        let handed = m.pass_on(parent, outputs, diagnostics, status);
        let b = RunModel { delegated: m.delegated.remove(k), ..handed };
        let c = b.follow(parent, status, now);
        assert(c.delegated == m.delegated.remove(k));
        lemma_resolve_spends_nothing(c, parent, outputs, diagnostics, status, now);
    }
}

/// A node that did no work costs nothing: a hit, or one that was skipped, leaves the time that a
/// run has spent as it was.
pub proof fn law_a_hit_costs_nothing(m: RunModel, report: ReportModel)
    requires
        m.delegated.dom().finite(),
        !report.status.worked(),
    ensures
        m.settle(report).attribution == m.attribution,
{
    if !m.settled.contains(report.key) {
        let e = m.enter(report);
        lemma_resolve_spends_nothing(
            e,
            report.key,
            report.outputs,
            report.diagnostics,
            report.status,
            report.finished_at_ms,
        );
    }
}

/// An answer reaches every node whose identity it carries, however many substitutions lie
/// between: the node that was asked for it has exactly the outputs of the node that found it.
pub proof fn law_answer_reaches_every_delegator(
    m: RunModel,
    report: ReportModel,
    p: Seq<char>,
    n: nat,
)
    requires
        m.delegated.dom().finite(),
        !m.settled.contains(report.key),
        carries(m.delegated, report.key, p, n),
    ensures
        m.settle(report).outputs.contains_key(p),
        m.settle(report).outputs[p] == report.outputs,
{
    let e = m.enter(report);
    if n > 0 {
        lemma_resolve_reaches(
            e,
            report.key,
            report.outputs,
            report.diagnostics,
            report.status,
            report.finished_at_ms,
            p,
            n,
        );
    } else {
        lemma_resolve_keeps(
            e,
            report.key,
            report.outputs,
            report.diagnostics,
            report.status,
            report.finished_at_ms,
            p,
        );
    }
}

/// A failure does not fail the task: exactly what waits on the failed node is skipped, and every
/// other node keeps its report, its outputs and its place.
pub proof fn law_failure_skips_exactly_its_dependents(m: RunModel, report: ReportModel)
    requires
        report.status is Failed,
        !m.settled.contains(report.key),
        !m.delegated.contains_key(report.key),
        m.delegated.dom().finite(),
    ensures
        ({
            let a = m.settle(report);
            let e = m.enter(report);
            &&& forall|x: Seq<char>| #[trigger]
                a.settled.contains(x) <==> m.settled.contains(x) || x == report.key || e.cut_off(
                    report.key,
                    x,
                )
            &&& forall|x: Seq<char>|
                e.cut_off(report.key, x) ==> (#[trigger] a.reports[x]).status is Skipped
            &&& forall|x: Seq<char>|
                #![trigger a.reports.contains_key(x)]
                x != report.key && !e.cut_off(report.key, x) ==> (a.reports.contains_key(x)
                    <==> m.reports.contains_key(x)) && (m.reports.contains_key(x) ==> a.reports[x]
                    == m.reports[x])
            &&& a.pending == m.pending
            &&& a.ready == m.ready
        }),
{
    let e = m.enter(report);
    assert(e.delegated == m.delegated);
    assert(e.resolve(
        report.key,
        report.outputs,
        report.diagnostics,
        report.status,
        report.finished_at_ms,
    ) == e);
    let a = m.settle(report);
    assert(a == e.skip_from(report.key, report.finished_at_ms));
}

proof fn lemma_release_effect(
    children: Seq<Seq<char>>,
    pending: Map<Seq<char>, nat>,
    ready: Seq<Seq<char>>,
    settled: Set<Seq<char>>,
)
    requires
        children.no_duplicates(),
    ensures
        ({
            let (p, r) = release(children, pending, ready, settled);
            &&& p.dom() == pending.dom()
            &&& forall|c: Seq<char>|
                #![trigger p[c]]
                pending.contains_key(c) ==> p[c] == if children.contains(c) && pending[c] > 0 {
                    (pending[c] - 1) as nat
                } else {
                    pending[c]
                }
            &&& forall|c: Seq<char>| #[trigger]
                r.contains(c) <==> ready.contains(c) || (children.contains(c)
                    && pending.contains_key(c) && pending[c] <= 1 && !settled.contains(c))
        }),
    decreases children.len(),
{
    if children.len() > 0 {
        let init = children.drop_last();
        let c0 = children.last();
        lemma_release_effect(init, pending, ready, settled);
        let (p0, r0) = release(init, pending, ready, settled);
        let (p, r) = release(children, pending, ready, settled);
        assert(children =~= init.push(c0));
        lemma_push_contains(init, c0);
        assert(!init.contains(c0)) by {
            if init.contains(c0) {
                let i = choose|i: int| 0 <= i < init.len() && init[i] == c0;
                assert(children[i] == children[children.len() - 1]);
            }
        }
        assert(p.dom() =~= pending.dom());
        lemma_push_contains(r0, c0);
        assert forall|c: Seq<char>| #[trigger] r.contains(c) <==> ready.contains(c) || (
        children.contains(c) && pending.contains_key(c) && pending[c] <= 1 && !settled.contains(c)) by {
            assert(r0.contains(c) <==> ready.contains(c) || (init.contains(c)
                && pending.contains_key(c) && pending[c] <= 1 && !settled.contains(c)));
            if pending.contains_key(c0) {
                assert(p0[c0] == pending[c0]);
            }
        }
    }
}

/// A usable result releases exactly its dependents: each waits for one node less, those that
/// waited for nothing else become ready, and nothing is skipped.
pub proof fn law_success_releases_its_dependents(m: RunModel, report: ReportModel)
    requires
        !gave_nothing(report.status),
        !m.settled.contains(report.key),
        !m.delegated.contains_key(report.key),
        m.delegated.dom().finite(),
        m.children(report.key).no_duplicates(),
    ensures
        ({
            let a = m.settle(report);
            let cs = m.children(report.key);
            &&& a.settled == m.settled.insert(report.key)
            &&& a.reports == m.reports.insert(report.key, report)
            &&& a.outputs == m.outputs.insert(report.key, report.outputs)
            &&& forall|c: Seq<char>|
                #![trigger a.pending[c]]
                m.pending.contains_key(c) ==> a.pending[c] == if cs.contains(c) && m.pending[c]
                    > 0 {
                    (m.pending[c] - 1) as nat
                } else {
                    m.pending[c]
                }
            &&& forall|c: Seq<char>| #[trigger]
                a.ready.contains(c) <==> m.ready.contains(c) || (cs.contains(c)
                    && m.pending.contains_key(c) && m.pending[c] <= 1 && !m.settled.contains(c)
                    && c != report.key)
        }),
{
    let e = m.enter(report);
    assert(e.delegated == m.delegated);
    assert(e.resolve(
        report.key,
        report.outputs,
        report.diagnostics,
        report.status,
        report.finished_at_ms,
    ) == e);
    assert(e.children(report.key) == m.children(report.key));
    lemma_release_effect(e.children(report.key), e.pending, e.ready, e.settled);
}

pub(crate) proof fn lemma_gather_same(
    deps: Seq<Seq<char>>,
    a: Map<Seq<char>, Seq<Digest>>,
    b: Map<Seq<char>, Seq<Digest>>,
)
    requires
        forall|d: Seq<char>| #[trigger]
            deps.contains(d) ==> (a.contains_key(d) <==> b.contains_key(d)) && (a.contains_key(d)
                ==> a[d] == b[d]),
    ensures
        gather(deps, a) == gather(deps, b),
    decreases deps.len(),
{
    if deps.len() > 0 {
        let init = deps.drop_last();
        assert(deps =~= init.push(deps.last()));
        lemma_push_contains(init, deps.last());
        assert forall|d: Seq<char>| #[trigger] init.contains(d) implies (a.contains_key(d)
            <==> b.contains_key(d)) && (a.contains_key(d) ==> a[d] == b[d]) by {
            assert(deps.contains(d));
        }
        lemma_gather_same(init, a, b);
        assert(deps.contains(deps.last()));
    }
}

/// Early cutoff: a step whose dependencies produced the same content as before runs under the same
/// key as before, whatever else happened upstream.
pub proof fn law_same_content_same_action(
    a: NodeSpec,
    b: NodeSpec,
    before: Map<Seq<char>, Seq<Digest>>,
    after: Map<Seq<char>, Seq<Digest>>,
)
    requires
        same_step(a, b),
        forall|d: Seq<char>| #[trigger]
            a.dep_names().contains(d) ==> (before.contains_key(d) <==> after.contains_key(d)) && (
            before.contains_key(d) ==> before[d] == after[d]),
    ensures
        action_digest(a, before) == action_digest(b, after),
{
    lemma_gather_same(a.dep_names(), before, after);
}

/// Are these the outputs of a run in which every step's outputs are decided by the key it ran
/// under?
pub open spec fn produced(
    g: Steps,
    outputs: Map<Seq<char>, Seq<Digest>>,
    f: spec_fn(Seq<u8>) -> Seq<Digest>,
) -> bool {
    &&& outputs.dom() == g.dom()
    &&& forall|k: Seq<char>| #[trigger]
        g.contains_key(k) ==> outputs[k] == f(action_digest(g[k], outputs))
}

/// Only the dirty closure moves: when some steps of a task change and the rest stay as they were,
/// every step that is not downstream of a change runs under the key it ran under before, so the
/// memo store serves it, and its outputs are what they were.
pub proof fn law_only_the_dirty_closure_moves(
    g1: Steps,
    g2: Steps,
    t: Seq<Seq<char>>,
    changed: Seq<Seq<char>>,
    o1: Map<Seq<char>, Seq<Digest>>,
    o2: Map<Seq<char>, Seq<Digest>>,
    f: spec_fn(Seq<u8>) -> Seq<Digest>,
    k: Seq<char>,
)
    requires
        in_dependency_order(g1, t),
        g1.dom() == g2.dom(),
        forall|x: Seq<char>| #[trigger]
            g1.contains_key(x) && !changed.contains(x) ==> same_step(g1[x], g2[x]),
        produced(g1, o1, f),
        produced(g2, o2, f),
        g1.contains_key(k),
        !reachable(downstream(g1), changed, k),
    ensures
        action_digest(g1[k], o1) == action_digest(g2[k], o2),
        o1[k] == o2[k],
{
    assert(t.contains(k));
    let j = choose|j: int| 0 <= j < t.len() && t[j] == k;
    lemma_clean_prefix(g1, g2, t, changed, o1, o2, f, j);
}

proof fn lemma_clean_prefix(
    g1: Steps,
    g2: Steps,
    t: Seq<Seq<char>>,
    changed: Seq<Seq<char>>,
    o1: Map<Seq<char>, Seq<Digest>>,
    o2: Map<Seq<char>, Seq<Digest>>,
    f: spec_fn(Seq<u8>) -> Seq<Digest>,
    j: int,
)
    requires
        in_dependency_order(g1, t),
        g1.dom() == g2.dom(),
        forall|x: Seq<char>| #[trigger]
            g1.contains_key(x) && !changed.contains(x) ==> same_step(g1[x], g2[x]),
        produced(g1, o1, f),
        produced(g2, o2, f),
        0 <= j < t.len(),
        !reachable(downstream(g1), changed, t[j]),
    ensures
        action_digest(g1[t[j]], o1) == action_digest(g2[t[j]], o2),
        o1[t[j]] == o2[t[j]],
    decreases j,
{
    let k = t[j];
    assert(t.contains(k));
    assert(g1.contains_key(k));
    assert(!changed.contains(k)) by {
        if changed.contains(k) {
            let i = choose|i: int| 0 <= i < changed.len() && changed[i] == k;
            lemma_reach_root(downstream(g1), changed, i);
        }
    }
    assert(ready(g1, t[j], t.take(j)));
    let ds = g1[k].dep_names();
    assert forall|d: Seq<char>| #[trigger] ds.contains(d) implies (o1.contains_key(d)
        <==> o2.contains_key(d)) && (o1.contains_key(d) ==> o1[d] == o2[d]) by {
        let i = choose|i: int| 0 <= i < j && t.take(j)[i] == d;
        assert(t[i] == d);
        if reachable(downstream(g1), changed, d) {
            assert(downstream(g1)(d, k));
            lemma_reach_step(downstream(g1), changed, d, k);
        }
        lemma_clean_prefix(g1, g2, t, changed, o1, o2, f, i);
    }
    law_same_content_same_action(g1[k], g2[k], o1, o2);
    assert(g2.contains_key(k));
}

} // verus!
