//! Whole runs in which every node passes and comes to what its action decides: what is served, what
//! is run, and what it costs to run again.

use crate::engine::exec::Expansion;
use crate::engine::graph::batch_order;
use crate::engine::graph::depends;
use crate::engine::graph::downstream;
use crate::engine::graph::key_names;
use crate::engine::graph::law_batch_order_loses_no_step;
use crate::engine::graph::may_all_join;
use crate::engine::graph::may_join;
use crate::engine::graph::plans;
use crate::engine::graph::put_all;
use crate::engine::graph::same_step;
use crate::engine::graph::step_names;
use crate::engine::graph::NodeSpec;
use crate::engine::graph::Plan;
use crate::engine::graph::Steps;
use crate::engine::order::all_answered;
use crate::engine::order::answered;
use crate::engine::order::handed_on;
use crate::engine::order::in_turn;
use crate::engine::order::law_a_hit_keeps_order;
use crate::engine::order::law_a_node_runs_after_what_it_depends_on;
use crate::engine::order::law_a_run_starts_in_order;
use crate::engine::order::law_a_turn_keeps_order;
use crate::engine::order::law_an_end_keeps_order;
use crate::engine::order::law_starting_keeps_order;
use crate::engine::order::lemma_distinct_kept;
use crate::engine::order::lemma_put_one;
use crate::engine::progress::keeps_up;
use crate::engine::progress::law_a_hit_keeps_up;
use crate::engine::progress::law_a_run_starts_caught_up;
use crate::engine::progress::law_a_turn_keeps_up;
use crate::engine::progress::law_an_end_keeps_up;
use crate::engine::progress::law_no_node_waits_for_nothing;
use crate::engine::progress::law_starting_keeps_up;
use crate::engine::progress::lemma_put_all;
use crate::engine::progress::was_skipped;
use crate::engine::report::NodeStatus;
use crate::engine::report::ReportModel;
use crate::engine::run::turns;
use crate::engine::run::Turn;
use crate::engine::scheduler::action_digest;
use crate::engine::scheduler::all_spliced;
use crate::engine::scheduler::carries;
use crate::engine::scheduler::completes;
use crate::engine::scheduler::expanded;
use crate::engine::scheduler::expanded_as;
use crate::engine::scheduler::fell_through;
use crate::engine::scheduler::gather;
use crate::engine::scheduler::gave_nothing;
use crate::engine::scheduler::hits;
use crate::engine::scheduler::law_answer_reaches_every_delegator;
use crate::engine::scheduler::law_expansion_keeps_results;
use crate::engine::scheduler::law_only_the_dirty_closure_moves;
use crate::engine::scheduler::lemma_gather_same;
use crate::engine::scheduler::lemma_join_keeps;
use crate::engine::scheduler::name_lists;
use crate::engine::scheduler::owes;
use crate::engine::scheduler::produced;
use crate::engine::scheduler::qualified;
use crate::engine::scheduler::result_report;
use crate::engine::scheduler::skipped_report;
use crate::engine::scheduler::splice_prefix;
use crate::engine::scheduler::spliced;
use crate::engine::scheduler::takes;
use crate::engine::scheduler::Dispatch;
use crate::engine::scheduler::Effect;
use crate::engine::scheduler::EngineError;
use crate::engine::scheduler::RunModel;
use crate::identity::action_fields;
use crate::identity::ActionKey;
use crate::identity::Digest;
use crate::identity::Env;
use crate::identity::NodeOutput;
use crate::reach::lemma_reach_root;
use crate::reach::lemma_reach_step;
use crate::reach::reachable;
use crate::store::journal::JournalEntry;
use vstd::prelude::*;

verus! {

/// What an execution comes to: what it puts out, and the subgraph it computes, where it computes
/// one.
pub ghost struct Made {
    pub outputs: Seq<Digest>,
    pub expansion: Option<Expansion>,
}

/// What each action comes to.
pub type Results = spec_fn(Seq<u8>) -> Made;

/// A run under way: its state, the actions whose results the memo store has, and the action under
/// which each running node was started.
pub ghost struct Course {
    pub m: RunModel,
    pub memo: Set<Seq<u8>>,
    pub started: Map<Seq<char>, Seq<u8>>,
}

/// Is the next node of the run one whose result the memo store has, and is it served?
pub open spec fn serves(
    c: Course,
    f: Results,
    d: Dispatch,
    mid: RunModel,
    took_ms: u64,
    now: u64,
    r: Result<Effect, EngineError>,
    a: Course,
) -> bool {
    let made = f(d.action.0@);
    &&& takes(c.m, d, mid)
    &&& c.memo.contains(d.action.0@)
    &&& hits(mid, d.spec, d.action, made.outputs, took_ms, made.expansion, now, r, a.m)
    &&& r is Ok
    &&& a.memo == c.memo
    &&& a.started == c.started
}

/// Is the next node of the run one whose result the memo store does not have, and is it started?
pub open spec fn starts(c: Course, d: Dispatch, mid: RunModel, a: Course) -> bool {
    let k = d.spec.key@;
    &&& takes(c.m, d, mid)
    &&& !c.memo.contains(d.action.0@)
    &&& a.m == (RunModel { running: mid.running.insert(k), ..mid })
    &&& a.memo == c.memo
    &&& a.started == c.started.insert(k, d.action.0@)
}

/// Does a node that was started end, having come to what its action comes to?
pub open spec fn ends(
    c: Course,
    f: Results,
    spec: NodeSpec,
    action: ActionKey,
    output: NodeOutput,
    took: (u64, u64, bool, u64),
    r: Result<Effect, EngineError>,
    a: Course,
) -> bool {
    let k = spec.key@;
    let made = f(action.0@);
    &&& c.started.contains_pair(k, action.0@)
    &&& output.verdict is Pass
    &&& output.outputs@ == made.outputs
    &&& completes(
        c.m,
        spec,
        action,
        output,
        made.expansion,
        took.0,
        took.1,
        took.2,
        took.3,
        r,
        a.m,
    )
    &&& r is Ok
    &&& a.memo == c.memo.insert(action.0@)
    &&& a.started == c.started.remove(k)
}

/// Is `a` what comes next in a run?
pub open spec fn goes_on(c: Course, f: Results, a: Course) -> bool {
    ||| exists|d: Dispatch, mid: RunModel, took_ms: u64, now: u64, r: Result<Effect, EngineError>|
     #[trigger] serves(c, f, d, mid, took_ms, now, r, a)
    ||| exists|d: Dispatch, mid: RunModel| #[trigger] starts(c, d, mid, a)
    ||| exists|
        spec: NodeSpec,
        action: ActionKey,
        output: NodeOutput,
        took: (u64, u64, bool, u64),
        r: Result<Effect, EngineError>,
    | #[trigger] ends(c, f, spec, action, output, took, r, a)
}

/// A run before anything has been done.
pub open spec fn outset(p: Plan, g: Steps, max_depth: nat, memo: Set<Seq<u8>>) -> Course {
    Course {
        m: RunModel {
            dependents: name_lists(p.dependents@),
            ..RunModel::start(g, key_names(p.topo@), max_depth)
        },
        memo,
        started: Map::empty(),
    }
}

/// Does a run that set out with this get here in so many moves?
pub open spec fn gets_to(first: Course, f: Results, c: Course, n: nat) -> bool
    decreases n,
{
    if n == 0 {
        c == first
    } else {
        exists|b: Course| gets_to(first, f, b, (n - 1) as nat) && #[trigger] goes_on(b, f, c)
    }
}

/// Has everything that a step depends on given its result?
pub open spec fn fed(m: RunModel, k: Seq<char>) -> bool {
    forall|d: Seq<char>| #[trigger] m.steps[k].dep_names().contains(d) ==> !owes(m, d)
}

/// Are the steps of an expansion of `k` in the graph?
pub open spec fn spliced_in(m: RunModel, k: Seq<char>, exp: Expansion) -> bool {
    let prefix = splice_prefix(k);
    let siblings = step_names(exp.nodes@);
    &&& siblings.contains(exp.substitute@)
    &&& forall|i: int|
        0 <= i < exp.nodes@.len() ==> {
            let q = prefix + (#[trigger] exp.nodes@[i]).key@;
            m.steps.contains_key(q) && spliced(prefix, siblings, exp.nodes@[i], m.steps[q])
        }
}

/// The node that stands in for `k` in an expansion.
pub open spec fn stand_in(k: Seq<char>, exp: Expansion) -> Seq<char> {
    splice_prefix(k) + exp.substitute@
}

/// Did a node that is settled come to what its action comes to? What it put out is its result,
/// or the result of the node that stands in for it is, once it is there.
pub open spec fn as_made(m: RunModel, f: Results, k: Seq<char>) -> bool {
    let made = f(m.action_of(k));
    match made.expansion {
        None => !owes(m, k) && m.outputs[k] == made.outputs,
        Some(exp) => {
            let s = stand_in(k, exp);
            &&& spliced_in(m, k, exp)
            &&& if owes(m, k) {
                m.delegated.contains_pair(s, k)
            } else {
                !owes(m, s) && m.outputs[k] == m.outputs[s]
            }
        },
    }
}

/// The status of a node that is run: expanded if it computes a subgraph, and computed if not.
pub open spec fn status_of_run(made: Made) -> NodeStatus {
    if made.expansion is Some {
        NodeStatus::Expanded
    } else {
        NodeStatus::Computed
    }
}

/// How a node that is settled was come by: it was run only if the memo store did not have its
/// result at the outset, and it was served otherwise.
pub open spec fn come_by(m: RunModel, f: Results, had: Set<Seq<u8>>, k: Seq<char>) -> bool {
    let status = m.reports[k].status;
    ||| status is Hit
    ||| status == status_of_run(f(m.action_of(k))) && !had.contains(m.action_of(k))
}

/// Was this action run?
pub open spec fn was_run(m: RunModel, a: Seq<u8>) -> bool {
    exists|k: Seq<char>| #[trigger]
        m.settled.contains(k) && m.action_of(k) == a && (m.reports[k].status is Computed
            || m.reports[k].status is Expanded)
}

/// Have the nodes of a run come to what their actions come to? `in_hand` are the nodes that were
/// taken from the queue and not yet started or settled.
pub open spec fn faithful(
    c: Course,
    f: Results,
    had: Set<Seq<u8>>,
    in_hand: Set<Seq<char>>,
) -> bool {
    let m = c.m;
    &&& had.subset_of(c.memo)
    &&& forall|k: Seq<char>| !#[trigger] fell_through(m, k)
    &&& forall|k: Seq<char>| #[trigger] m.steps.contains_key(k) ==> m.steps[k].key@ == k
    &&& forall|k: Seq<char>|
        #![trigger fed(m, k)]
        m.settled.contains(k) || m.running.contains(k) || in_hand.contains(k) ==> fed(m, k)
    &&& forall|k: Seq<char>|
        (m.settled.contains(k) || m.running.contains(k) || in_hand.contains(k))
            ==> #[trigger] m.steps.contains_key(k)
    &&& forall|k: Seq<char>| #[trigger]
        m.settled.contains(k) ==> c.memo.contains(m.action_of(k)) && as_made(m, f, k) && come_by(m, f, had, k)
    &&& forall|a: Seq<u8>| #[trigger] c.memo.contains(a) ==> had.contains(a) || was_run(m, a)
    &&& forall|k: Seq<char>| #[trigger] c.started.contains_key(k) <==> m.running.contains(k)
    &&& forall|k: Seq<char>| #[trigger]
        c.started.contains_key(k) ==> c.started[k] == m.action_of(k) && !had.contains(c.started[k])
}

/// Are these the same model, prompt and adapter?
pub open spec fn same_env(a: Env, b: Env) -> bool {
    &&& a.model_id@ == b.model_id@
    &&& a.prompt_version@ == b.prompt_version@
    &&& a.adapter_version@ == b.adapter_version@
}

/// Where two states agree on what has been given, a step that is fed has the same action in both.
proof fn lemma_same_action(a: NodeSpec, b: NodeSpec, m: RunModel, n: RunModel)
    requires
        a.kind == b.kind,
        a.op@ == b.op@,
        same_env(a.env, b.env),
        a.dep_names() == b.dep_names(),
        forall|d: Seq<char>| #[trigger]
            a.dep_names().contains(d) ==> m.outputs.contains_key(d) && n.outputs.contains_key(d)
                && m.outputs[d] == n.outputs[d],
    ensures
        action_digest(a, m.outputs) == action_digest(b, n.outputs),
{
    lemma_gather_same(a.dep_names(), m.outputs, n.outputs);
    let inputs = gather(a.dep_names(), m.outputs);
    assert(action_fields(a.kind, a.op@, a.env, inputs) =~= action_fields(
        b.kind,
        b.op@,
        b.env,
        inputs,
    ));
}

/// What passing a usable answer on does not touch, and which nodes it reaches.
proof fn lemma_resolve_calm(
    m: RunModel,
    k: Seq<char>,
    outputs: Seq<Digest>,
    diagnostics: Seq<Seq<char>>,
    status: NodeStatus,
    now: u64,
)
    requires
        m.delegated.dom().finite(),
        !gave_nothing(status),
    ensures
        ({
            let r = m.resolve(k, outputs, diagnostics, status, now);
            &&& r.steps == m.steps
            &&& r.settled == m.settled
            &&& r.running == m.running
            &&& forall|s: Seq<char>| #[trigger]
                r.delegated.contains_key(s) ==> m.delegated.contains_pair(s, r.delegated[s])
            &&& forall|x: Seq<char>| #[trigger]
                r.reports.contains_key(x) <==> m.reports.contains_key(x)
            &&& forall|x: Seq<char>| #[trigger]
                r.reports.contains_key(x) ==> r.reports[x].status == m.reports[x].status
            &&& forall|x: Seq<char>| #[trigger]
                m.outputs.contains_key(x) ==> r.outputs.contains_key(x)
            &&& forall|x: Seq<char>|
                !m.delegated.contains_value(x) ==> #[trigger] r.outputs[x] == m.outputs[x]
            &&& forall|x: Seq<char>|
                #![trigger r.delegated.contains_value(x)]
                m.delegated.contains_value(x) && !r.delegated.contains_value(x) ==> exists|n: nat|
                    n > 0 && #[trigger] carries(m.delegated, k, x, n)
        }),
    decreases m.delegated.dom().len(),
{
    if m.delegated.contains_key(k) {
        let parent = m.delegated[k];
        let handed = m.pass_on(parent, outputs, diagnostics, status);
        let b = RunModel { delegated: m.delegated.remove(k), ..handed };
        let c = b.follow(parent, status, now);
        let r = m.resolve(k, outputs, diagnostics, status, now);
        assert(c.delegated == m.delegated.remove(k));
        lemma_resolve_calm(c, parent, outputs, diagnostics, status, now);
        assert forall|x: Seq<char>| #[trigger]
            m.outputs.contains_key(x) implies r.outputs.contains_key(x) by {
            assert(c.outputs.contains_key(x));
        }
        assert forall|x: Seq<char>| #[trigger]
            r.reports.contains_key(x) <==> m.reports.contains_key(x) by {
            assert(c.reports.contains_key(x) <==> m.reports.contains_key(x));
        }
        assert forall|x: Seq<char>| #[trigger]
            r.reports.contains_key(x) implies r.reports[x].status == m.reports[x].status by {
            assert(c.reports.contains_key(x));
            assert(c.reports[x].status == m.reports[x].status);
        }
        assert forall|s: Seq<char>| #[trigger]
            r.delegated.contains_key(s) implies m.delegated.contains_pair(s, r.delegated[s]) by {
            assert(c.delegated.contains_pair(s, r.delegated[s]));
        }
        assert forall|x: Seq<char>| !m.delegated.contains_value(x) implies #[trigger] r.outputs[x]
            == m.outputs[x] by {
            if c.delegated.contains_value(x) {
                let s = choose|s: Seq<char>| #[trigger]
                    c.delegated.contains_key(s) && c.delegated[s] == x;
                assert(m.delegated.contains_key(s) && m.delegated[s] == x);
            }
            assert(m.delegated.contains_value(parent));
        }
        assert forall|x: Seq<char>|
            #![trigger r.delegated.contains_value(x)]
            m.delegated.contains_value(x) && !r.delegated.contains_value(x) implies exists|n: nat|
            n > 0 && #[trigger] carries(m.delegated, k, x, n) by {
            if x == parent {
                assert(carries(c.delegated, parent, parent, 0));
                assert(carries(m.delegated, k, parent, 1));
            } else {
                let s = choose|s: Seq<char>| #[trigger]
                    m.delegated.contains_key(s) && m.delegated[s] == x;
                assert(c.delegated.contains_key(s) && c.delegated[s] == x);
                assert(c.delegated.contains_value(x));
                let n = choose|n: nat| n > 0 && #[trigger] carries(c.delegated, parent, x, n);
                assert(carries(m.delegated, k, x, n + 1));
            }
        }
    }
}

/// A node whose identity an answer carries is no longer waited for once the answer is passed on.
proof fn lemma_resolve_frees(
    m: RunModel,
    k: Seq<char>,
    outputs: Seq<Digest>,
    diagnostics: Seq<Seq<char>>,
    status: NodeStatus,
    now: u64,
    x: Seq<char>,
    n: nat,
)
    requires
        m.delegated.dom().finite(),
        !gave_nothing(status),
        forall|s: Seq<char>, t: Seq<char>| #[trigger]
            m.delegated.contains_key(s) && #[trigger] m.delegated.contains_key(t) && m.delegated[s]
                == m.delegated[t] ==> s == t,
        n > 0,
        carries(m.delegated, k, x, n),
    ensures
        !m.resolve(k, outputs, diagnostics, status, now).delegated.contains_value(x),
    decreases m.delegated.dom().len(),
{
    let parent = m.delegated[k];
    let handed = m.pass_on(parent, outputs, diagnostics, status);
    let b = RunModel { delegated: m.delegated.remove(k), ..handed };
    let c = b.follow(parent, status, now);
    let r = m.resolve(k, outputs, diagnostics, status, now);
    assert(c.delegated == m.delegated.remove(k));
    assert forall|s: Seq<char>, t: Seq<char>| #[trigger]
        c.delegated.contains_key(s) && #[trigger] c.delegated.contains_key(t) && c.delegated[s]
            == c.delegated[t] implies s == t by {
        assert(m.delegated.contains_key(s) && m.delegated.contains_key(t));
    }
    if n == 1 {
        assert(carries(m.delegated.remove(k), parent, x, 0));
        lemma_resolve_calm(c, parent, outputs, diagnostics, status, now);
        if r.delegated.contains_value(x) {
            let s = choose|s: Seq<char>| #[trigger]
                r.delegated.contains_key(s) && r.delegated[s] == x;
            assert(c.delegated.contains_pair(s, x));
            assert(m.delegated.contains_key(s) && m.delegated.contains_key(k));
            assert(m.delegated[s] == m.delegated[k]);
        }
    } else {
        lemma_resolve_frees(c, parent, outputs, diagnostics, status, now, x, (n - 1) as nat);
    }
}

/// The last of the substitutions between a node and one whose identity it carries.
proof fn lemma_last_link(
    delegated: Map<Seq<char>, Seq<char>>,
    k: Seq<char>,
    p: Seq<char>,
    n: nat,
) -> (s: Seq<char>)
    requires
        n > 0,
        carries(delegated, k, p, n),
    ensures
        carries(delegated, k, s, (n - 1) as nat),
        delegated.contains_pair(s, p),
    decreases n,
{
    if n == 1 {
        assert(carries(delegated.remove(k), delegated[k], p, 0));
        assert(carries(delegated, k, k, 0));
        k
    } else {
        let s = lemma_last_link(delegated.remove(k), delegated[k], p, (n - 1) as nat);
        s
    }
}

/// What settling a node with a usable result does: it gives its result to the node and to those
/// whose identity it carries, and leaves everything that was given alone.
proof fn lemma_settle_calm(m: RunModel, report: ReportModel)
    requires
        handed_on(m),
        forall|k: Seq<char>| !#[trigger] fell_through(m, k),
        !m.settled.contains(report.key),
        !gave_nothing(report.status),
    ensures
        ({
            let a = m.settle(report);
            let key = report.key;
            &&& a.steps == m.steps
            &&& a.settled == m.settled.insert(key)
            &&& a.running == m.running
            &&& forall|s: Seq<char>| #[trigger]
                a.delegated.contains_key(s) ==> m.delegated.contains_pair(s, a.delegated[s])
            &&& forall|x: Seq<char>| !#[trigger] fell_through(a, x)
            &&& forall|x: Seq<char>|
                m.settled.contains(x) && m.reports.contains_key(x) ==> #[trigger] a.reports[x].status
                    == m.reports[x].status
            &&& a.reports[key].status == report.status
            &&& forall|x: Seq<char>| #[trigger]
                m.outputs.contains_key(x) ==> a.outputs.contains_key(x)
            &&& a.outputs.contains_key(key)
            &&& forall|x: Seq<char>|
                #![trigger owes(a, x)]
                !owes(m, x) ==> !owes(a, x) && a.outputs[x] == m.outputs[x]
            &&& forall|x: Seq<char>|
                #![trigger owes(a, x)]
                owes(m, x) && !owes(a, x) ==> exists|n: nat| #[trigger]
                    carries(m.delegated, key, x, n)
            &&& forall|x: Seq<char>, n: nat| #[trigger]
                carries(m.delegated, key, x, n) ==> !owes(a, x) && a.outputs[x] == report.outputs
        }),
{
    let a = m.settle(report);
    let key = report.key;
    let now = report.finished_at_ms;
    let e = m.enter(report);
    let r = e.resolve(key, report.outputs, report.diagnostics, report.status, now);
    lemma_resolve_calm(e, key, report.outputs, report.diagnostics, report.status, now);
    assert(a == r.unlock(key));
    assert(!m.delegated.contains_value(key)) by {
        if m.delegated.contains_value(key) {
            let s = choose|s: Seq<char>| #[trigger]
                m.delegated.contains_key(s) && m.delegated[s] == key;
            assert(m.settled.contains(m.delegated[s]));
        }
    }
    assert forall|x: Seq<char>| !#[trigger] fell_through(a, x) by {
        assert(!fell_through(m, x));
        if a.reports.contains_key(x) {
            assert(r.reports.contains_key(x));
            assert(e.reports.contains_key(x));
        }
    }
    assert forall|x: Seq<char>| m.settled.contains(x) && m.reports.contains_key(
        x,
    ) implies #[trigger] a.reports[x].status == m.reports[x].status by {
        assert(e.reports.contains_key(x));
        assert(r.reports.contains_key(x));
    }
    assert forall|x: Seq<char>| #[trigger]
        m.outputs.contains_key(x) implies a.outputs.contains_key(x) by {
        assert(e.outputs.contains_key(x));
    }
    assert(e.outputs.contains_key(key));
    assert(a.reports[key].status == report.status) by {
        assert(e.reports.contains_key(key));
        assert(r.reports.contains_key(key));
    }
    assert forall|x: Seq<char>|
        #![trigger owes(a, x)]
        !owes(m, x) implies !owes(a, x) && a.outputs[x] == m.outputs[x] by {
        assert(!fell_through(a, x));
        if a.delegated.contains_value(x) {
            let s = choose|s: Seq<char>| #[trigger]
                a.delegated.contains_key(s) && a.delegated[s] == x;
            assert(m.delegated.contains_key(s) && m.delegated[s] == x);
        }
        assert(r.outputs[x] == e.outputs[x]);
    }
    assert forall|x: Seq<char>|
        #![trigger owes(a, x)]
        owes(m, x) && !owes(a, x) implies exists|n: nat| #[trigger]
        carries(m.delegated, key, x, n) by {
        if x == key {
            assert(carries(m.delegated, key, key, 0));
        } else {
            assert(!fell_through(m, x));
            assert(m.settled.contains(x));
            assert(m.delegated.contains_value(x));
            assert(!r.delegated.contains_value(x));
            let n = choose|n: nat| n > 0 && #[trigger] carries(m.delegated, key, x, n);
        }
    }
    assert forall|x: Seq<char>, n: nat| #[trigger]
        carries(m.delegated, key, x, n) implies !owes(a, x) && a.outputs[x] == report.outputs by {
        law_answer_reaches_every_delegator(m, report, x, n);
        assert(!fell_through(a, x));
        if n > 0 {
            lemma_resolve_frees(
                e,
                key,
                report.outputs,
                report.diagnostics,
                report.status,
                now,
                x,
                n,
            );
            let s = lemma_last_link(m.delegated, key, x, n);
            assert(m.delegated.contains_key(s));
            assert(m.settled.contains(x));
        } else {
            if a.delegated.contains_value(x) {
                let s = choose|s: Seq<char>| #[trigger]
                    a.delegated.contains_key(s) && a.delegated[s] == x;
                assert(m.delegated.contains_key(s) && m.delegated[s] == x);
            }
        }
    }
}

/// A node that is settled with what its action comes to leaves the run faithful.
proof fn lemma_settle_faithful(
    c: Course,
    f: Results,
    had: Set<Seq<u8>>,
    report: ReportModel,
    memo: Set<Seq<u8>>,
)
    requires
        faithful(c, f, had, set![report.key]),
        handed_on(c.m),
        all_answered(c.m, Set::empty()),
        !c.m.settled.contains(report.key),
        !c.m.running.contains(report.key),
        f(c.m.action_of(report.key)).expansion is None,
        report.outputs == f(c.m.action_of(report.key)).outputs,
        memo == c.memo.insert(c.m.action_of(report.key)),
        ({
            ||| report.status is Hit && c.memo.contains(c.m.action_of(report.key))
            ||| report.status is Computed && !had.contains(c.m.action_of(report.key))
        }),
    ensures
        faithful(
            (Course { m: c.m.settle(report), memo, started: c.started }),
            f,
            had,
            Set::empty(),
        ),
{
    let m = c.m;
    let key = report.key;
    let a = m.settle(report);
    let n = Course { m: a, memo, started: c.started };
    let none = Set::<Seq<char>>::empty();
    assert(set![key].contains(key));
    lemma_settle_calm(m, report);
    assert(carries(m.delegated, key, key, 0));
    assert forall|k: Seq<char>|
        #![trigger fed(a, k)]
        fed(m, k) implies fed(a, k) && a.action_of(k) == m.action_of(k) by {
        let s = m.steps[k];
        assert forall|d: Seq<char>| #[trigger] s.dep_names().contains(d) implies !owes(m, d)
            && !owes(a, d) && m.outputs.contains_key(d) && a.outputs.contains_key(d)
            && m.outputs[d] == a.outputs[d] by {
            assert(!owes(m, d));
            assert(answered(m, d));
            assert(!owes(a, d));
        }
        lemma_same_action(s, s, m, a);
    }
    assert forall|k: Seq<char>|
        #![trigger fed(a, k)]
        a.settled.contains(k) || a.running.contains(k) || none.contains(k) implies fed(a, k) by {
        assert(fed(m, k));
    }
    assert forall|k: Seq<char>|
        (a.settled.contains(k) || a.running.contains(k) || none.contains(
            k,
        )) implies #[trigger] a.steps.contains_key(k) by {
        assert(m.settled.contains(k) || m.running.contains(k) || set![key].contains(k));
        assert(m.steps.contains_key(k));
    }
    assert forall|k: Seq<char>| #[trigger] a.settled.contains(k) implies memo.contains(
        a.action_of(k),
    ) && as_made(a, f, k) && come_by(a, f, had, k) by {
        assert(fed(m, k));
        assert(fed(a, k));
        assert(a.action_of(k) == m.action_of(k));
        if k != key {
            assert(m.settled.contains(k));
            assert(as_made(m, f, k) && come_by(m, f, had, k));
            lemma_settled_reports(m, k);
            assert(a.reports[k].status == m.reports[k].status);
            assert(!fell_through(a, k) && !fell_through(m, k));
            match f(m.action_of(k)).expansion {
                None => {
                    assert(!owes(a, k));
                },
                Some(exp) => {
                    let s = stand_in(k, exp);
                    assert(spliced_in(a, k, exp));
                    if !owes(m, k) {
                        assert(!owes(a, k) && !owes(a, s));
                    } else if owes(a, k) {
                        let t = choose|t: Seq<char>| #[trigger]
                            a.delegated.contains_key(t) && a.delegated[t] == k;
                        assert(m.delegated.contains_pair(t, k));
                        assert(m.delegated.contains_key(t) && m.delegated.contains_key(s));
                    } else {
                        let j = choose|j: nat| #[trigger] carries(m.delegated, key, k, j);
                        assert(j > 0);
                        let t = lemma_last_link(m.delegated, key, k, j);
                        assert(m.delegated.contains_key(t) && m.delegated.contains_key(s));
                        assert(carries(m.delegated, key, s, (j - 1) as nat));
                    }
                },
            }
        }
    }
    assert forall|x: Seq<u8>| #[trigger] memo.contains(x) implies had.contains(x) || was_run(
        a,
        x,
    ) by {
        lemma_still_run(c, f, had, set![key], a, x);
        if !c.memo.contains(x) {
            assert(fed(m, key));
            assert(fed(a, key));
            assert(a.settled.contains(key) && a.action_of(key) == x);
        }
    }
    assert forall|k: Seq<char>| #[trigger] n.started.contains_key(k) implies n.started[k]
        == a.action_of(k) && !had.contains(n.started[k]) by {
        assert(m.running.contains(k));
        assert(fed(m, k));
        assert(fed(a, k));
    }
}

/// What was run stays run.
proof fn lemma_still_run(
    c: Course,
    f: Results,
    had: Set<Seq<u8>>,
    in_hand: Set<Seq<char>>,
    a: RunModel,
    x: Seq<u8>,
)
    requires
        faithful(c, f, had, in_hand),
        forall|k: Seq<char>|
            #![trigger fed(a, k)]
            fed(c.m, k) && c.m.settled.contains(k) ==> fed(a, k) && a.action_of(k)
                == c.m.action_of(k),
        forall|k: Seq<char>|
            c.m.settled.contains(k) && c.m.reports.contains_key(k)
                ==> #[trigger] a.reports[k].status == c.m.reports[k].status,
        c.m.settled.subset_of(a.settled),
        handed_on(c.m),
        all_answered(c.m, Set::empty()),
    ensures
        c.memo.contains(x) ==> had.contains(x) || was_run(a, x),
{
    let m = c.m;
    if c.memo.contains(x) && !had.contains(x) {
        assert(was_run(m, x));
        let k = choose|k: Seq<char>| #[trigger]
            m.settled.contains(k) && m.action_of(k) == x && (m.reports[k].status is Computed
                || m.reports[k].status is Expanded);
        assert(fed(m, k));
        assert(fed(a, k));
        assert(a.settled.contains(k));
        lemma_settled_reports(m, k);
        assert(a.reports[k].status == m.reports[k].status);
    }
}

/// There is a report on every node that is settled.
proof fn lemma_settled_reports(m: RunModel, k: Seq<char>)
    requires
        handed_on(m),
        all_answered(m, Set::empty()),
        !fell_through(m, k),
        m.settled.contains(k),
    ensures
        m.reports.contains_key(k),
{
    if m.delegated.contains_value(k) {
        let s = choose|s: Seq<char>| #[trigger]
            m.delegated.contains_key(s) && m.delegated[s] == k;
        assert(m.reports.contains_key(m.delegated[s]));
    } else {
        assert(!owes(m, k));
        assert(answered(m, k));
    }
}

/// What an expansion does to the graph: the steps that were there stay as they were, and those of
/// the expansion are spliced in.
proof fn lemma_expanded_steps(
    m: RunModel,
    mid: RunModel,
    parent: Seq<char>,
    exp: Expansion,
    added: Seq<Seq<char>>,
)
    requires
        expanded(m, mid, parent, exp.nodes@, exp.substitute@, added),
        forall|k: Seq<char>| #[trigger] m.steps.contains_key(k) ==> m.steps[k].key@ == k,
    ensures
        forall|k: Seq<char>| #[trigger]
            m.steps.contains_key(k) ==> mid.steps.contains_key(k) && mid.steps[k] == m.steps[k],
        forall|k: Seq<char>| #[trigger] mid.steps.contains_key(k) ==> mid.steps[k].key@ == k,
        spliced_in(mid, parent, exp),
        !m.steps.contains_key(stand_in(parent, exp)),
        mid.delegated == m.delegated.insert(stand_in(parent, exp), parent),
        forall|k: Seq<char>| #[trigger]
            mid.steps.contains_key(k) ==> m.steps.contains_key(k) || exists|i: int|
                0 <= i < exp.nodes@.len() && k == splice_prefix(parent) + (
                #[trigger] exp.nodes@[i]).key@,
{
    broadcast use vstd::seq_lib::group_to_multiset_ensures;

    let nodes = exp.nodes@;
    let prefix = splice_prefix(parent);
    let siblings = step_names(nodes);
    let qs = choose|qs: Seq<NodeSpec>|
        {
            &&& #[trigger] all_spliced(prefix, siblings, nodes, qs)
            &&& ({
                let (order, stuck) = batch_order(qs, step_names(qs).to_set(), Set::empty());
                let grown = RunModel { steps: put_all(m.steps, order), ..m };
                let joined = grown.join(step_names(order), m.depth_of(parent) + 1);
                &&& stuck.len() == 0
                &&& may_all_join(m.steps, qs)
                &&& added == step_names(order)
                &&& mid == RunModel {
                    delegated: joined.delegated.insert(
                        qualified(prefix, siblings, exp.substitute@),
                        parent,
                    ),
                    ..joined
                }
            })
        };
    let (order, stuck) = batch_order(qs, step_names(qs).to_set(), Set::empty());
    let grown = RunModel { steps: put_all(m.steps, order), ..m };
    lemma_join_keeps(grown, step_names(order), m.depth_of(parent) + 1);
    lemma_put_all(m.steps, order);
    law_batch_order_loses_no_step(qs, step_names(qs).to_set(), Set::empty());
    assert(stuck =~= Seq::empty());
    assert(order.to_multiset() =~= qs.to_multiset());
    assert(mid.steps == put_all(m.steps, order));
    assert forall|i: int, j: int|
        0 <= i < qs.len() && 0 <= j < qs.len() && i != j implies (#[trigger] qs[i]).key@ != (
    #[trigger] qs[j]).key@ by {
        assert(step_names(qs)[i] != step_names(qs)[j]);
    }
    lemma_distinct_kept(qs, order);
    assert forall|i: int| 0 <= i < order.len() implies exists|j: int|
        0 <= j < qs.len() && #[trigger] qs[j] == #[trigger] order[i] by {
        assert(order.contains(order[i]));
        assert(order.to_multiset().count(order[i]) > 0);
        assert(qs.contains(order[i]));
    }
    assert forall|k: Seq<char>| step_names(order).contains(k) implies !#[trigger] m.steps.contains_key(
        k,
    ) by {
        let i = choose|i: int| 0 <= i < order.len() && step_names(order)[i] == k;
        let j = choose|j: int| 0 <= j < qs.len() && #[trigger] qs[j] == order[i];
        assert(may_join(m.steps, step_names(qs), qs[j]));
    }
    assert forall|j: int| 0 <= j < qs.len() implies mid.steps.contains_key((#[trigger] qs[j]).key@)
        && mid.steps[qs[j].key@] == qs[j] && step_names(order).contains(qs[j].key@) by {
        assert(qs.contains(qs[j]));
        assert(qs.to_multiset().count(qs[j]) > 0);
        assert(order.contains(qs[j]));
        let i = choose|i: int| 0 <= i < order.len() && order[i] == qs[j];
        lemma_put_one(m.steps, order, i);
        assert(step_names(order)[i] == qs[j].key@);
    }
    assert(spliced_in(mid, parent, exp)) by {
        assert forall|i: int| 0 <= i < nodes.len() implies {
            let q = prefix + (#[trigger] nodes[i]).key@;
            mid.steps.contains_key(q) && spliced(prefix, siblings, nodes[i], mid.steps[q])
        } by {
            assert(spliced(prefix, siblings, nodes[i], qs[i]));
            assert(mid.steps.contains_key(qs[i].key@));
        }
    }
    let j = choose|j: int| 0 <= j < nodes.len() && siblings[j] == exp.substitute@;
    assert(spliced(prefix, siblings, nodes[j], qs[j]));
    assert(step_names(order).contains(qs[j].key@));
    assert forall|k: Seq<char>| #[trigger] mid.steps.contains_key(k) implies mid.steps[k].key@ == k
        && (m.steps.contains_key(k) || exists|i: int|
        0 <= i < nodes.len() && k == prefix + (#[trigger] nodes[i]).key@) by {
        if step_names(order).contains(k) {
            let i = choose|i: int| 0 <= i < order.len() && step_names(order)[i] == k;
            let j = choose|j: int| 0 <= j < qs.len() && #[trigger] qs[j] == order[i];
            assert(mid.steps[qs[j].key@] == qs[j]);
            assert(spliced(prefix, siblings, nodes[j], qs[j]));
            assert(k == prefix + nodes[j].key@);
        } else {
            assert(m.steps.contains_key(k));
            assert(mid.steps[k] == m.steps[k]);
        }
    }
}

/// A node that is expanded as its action comes to leaves the run faithful.
proof fn lemma_expand_faithful(
    c: Course,
    f: Results,
    had: Set<Seq<u8>>,
    exp: Expansion,
    added: Seq<Seq<char>>,
    report: ReportModel,
    a: RunModel,
    memo: Set<Seq<u8>>,
)
    requires
        faithful(c, f, had, set![report.key]),
        handed_on(c.m),
        all_answered(c.m, Set::empty()),
        !c.m.settled.contains(report.key),
        !c.m.running.contains(report.key),
        f(c.m.action_of(report.key)).expansion == Some(exp),
        expanded_as(c.m, a, exp, added, report),
        memo == c.memo.insert(c.m.action_of(report.key)),
        ({
            ||| report.status is Hit && c.memo.contains(c.m.action_of(report.key))
            ||| report.status is Expanded && !had.contains(c.m.action_of(report.key))
        }),
    ensures
        faithful((Course { m: a, memo, started: c.started }), f, had, Set::empty()),
{
    let m = c.m;
    let key = report.key;
    let n = Course { m: a, memo, started: c.started };
    let none = Set::<Seq<char>>::empty();
    assert(set![key].contains(key));
    let mid = choose|mid: RunModel|
        {
            &&& #[trigger] expanded(m, mid, key, exp.nodes@, exp.substitute@, added)
            &&& a == mid.delegate(report)
        };
    law_expansion_keeps_results(m, mid, key, exp.nodes@, exp.substitute@, added);
    lemma_expanded_steps(m, mid, key, exp, added);
    let sub = stand_in(key, exp);
    assert(!m.delegated.contains_key(sub)) by {
        if m.delegated.contains_key(sub) {
            assert(m.steps.contains_key(sub));
        }
    }
    assert(a.delegated.contains_pair(sub, key));
    assert forall|x: Seq<char>| !#[trigger] fell_through(a, x) by {
        assert(!fell_through(m, x));
    }
    assert forall|x: Seq<char>| #[trigger] owes(a, x) == owes(m, x) by {
        assert(!fell_through(a, x) && !fell_through(m, x));
        if x == key {
            assert(a.delegated.contains_key(sub) && a.delegated[sub] == key);
        } else {
            if m.delegated.contains_value(x) {
                let s = choose|s: Seq<char>| #[trigger]
                    m.delegated.contains_key(s) && m.delegated[s] == x;
                assert(a.delegated.contains_key(s) && a.delegated[s] == x);
            }
            if a.delegated.contains_value(x) {
                let s = choose|s: Seq<char>| #[trigger]
                    a.delegated.contains_key(s) && a.delegated[s] == x;
                assert(m.delegated.contains_key(s) && m.delegated[s] == x);
            }
        }
    }
    assert forall|k: Seq<char>|
        #![trigger fed(a, k)]
        fed(m, k) && m.steps.contains_key(k) implies fed(a, k) && a.action_of(k)
        == m.action_of(k) by {
        assert(a.steps[k] == m.steps[k]);
        assert forall|d: Seq<char>| #[trigger] a.steps[k].dep_names().contains(d) implies !owes(
            a,
            d,
        ) by {
            assert(!owes(m, d));
            assert(owes(a, d) == owes(m, d));
        }
    }
    assert forall|k: Seq<char>|
        #![trigger fed(a, k)]
        a.settled.contains(k) || a.running.contains(k) || none.contains(k) implies fed(a, k) by {
        assert(fed(m, k));
        assert(m.steps.contains_key(k));
    }
    assert forall|k: Seq<char>|
        (a.settled.contains(k) || a.running.contains(k) || none.contains(
            k,
        )) implies #[trigger] a.steps.contains_key(k) by {
        assert(m.settled.contains(k) || m.running.contains(k) || set![key].contains(k));
        assert(m.steps.contains_key(k));
    }
    assert forall|k: Seq<char>| #[trigger] a.settled.contains(k) implies memo.contains(
        a.action_of(k),
    ) && as_made(a, f, k) && come_by(a, f, had, k) by {
        assert(m.settled.contains(k) || set![key].contains(k));
        assert(m.steps.contains_key(k));
        assert(fed(m, k));
        assert(fed(a, k));
        assert(owes(a, k) == owes(m, k));
        if k != key {
            assert(m.settled.contains(k));
            assert(as_made(m, f, k) && come_by(m, f, had, k));
            match f(m.action_of(k)).expansion {
                None => {},
                Some(e2) => {
                    let s = stand_in(k, e2);
                    assert(owes(a, s) == owes(m, s));
                    assert(spliced_in(a, k, e2)) by {
                        assert forall|i: int| 0 <= i < e2.nodes@.len() implies {
                            let q = splice_prefix(k) + (#[trigger] e2.nodes@[i]).key@;
                            a.steps.contains_key(q) && spliced(
                                splice_prefix(k),
                                step_names(e2.nodes@),
                                e2.nodes@[i],
                                a.steps[q],
                            )
                        } by {
                            let q = splice_prefix(k) + e2.nodes@[i].key@;
                            assert(m.steps.contains_key(q));
                        }
                    }
                },
            }
        } else {
            assert(spliced_in(a, k, exp)) by {
                assert(spliced_in(mid, k, exp));
            }
        }
    }
    assert forall|k: Seq<char>|
        #![trigger fed(a, k)]
        fed(m, k) && m.settled.contains(k) implies fed(a, k) && a.action_of(k)
        == m.action_of(k) by {
        assert(m.steps.contains_key(k));
    }
    assert forall|x: Seq<u8>| #[trigger] memo.contains(x) implies had.contains(x) || was_run(
        a,
        x,
    ) by {
        lemma_still_run(c, f, had, set![key], a, x);
        if !c.memo.contains(x) {
            assert(fed(m, key));
            assert(m.steps.contains_key(key));
            assert(fed(a, key));
            assert(a.settled.contains(key) && a.action_of(key) == x);
        }
    }
    assert forall|k: Seq<char>| #[trigger] n.started.contains_key(k) implies n.started[k]
        == a.action_of(k) && !had.contains(n.started[k]) by {
        assert(m.running.contains(k));
        assert(fed(m, k));
        assert(m.steps.contains_key(k));
        assert(fed(a, k));
    }
}

/// What only changes the queue, what runs and what is in hand leaves a run faithful.
proof fn lemma_still_faithful(
    c: Course,
    f: Results,
    had: Set<Seq<u8>>,
    in_hand: Set<Seq<char>>,
    a: Course,
    now_in_hand: Set<Seq<char>>,
)
    requires
        faithful(c, f, had, in_hand),
        a.m.steps == c.m.steps,
        a.m.settled == c.m.settled,
        a.m.delegated == c.m.delegated,
        a.m.outputs == c.m.outputs,
        a.m.reports == c.m.reports,
        a.memo == c.memo,
        forall|k: Seq<char>|
            #![trigger a.m.steps.contains_key(k)]
            a.m.running.contains(k) || now_in_hand.contains(k) ==> a.m.steps.contains_key(k),
        forall|k: Seq<char>|
            #![trigger fed(c.m, k)]
            a.m.running.contains(k) || now_in_hand.contains(k) ==> fed(c.m, k),
        forall|k: Seq<char>| #[trigger] a.started.contains_key(k) <==> a.m.running.contains(k),
        forall|k: Seq<char>| #[trigger]
            a.started.contains_key(k) ==> a.started[k] == a.m.action_of(k) && !had.contains(
                a.started[k],
            ),
    ensures
        faithful(a, f, had, now_in_hand),
{
    let m = c.m;
    let n = a.m;
    assert forall|x: Seq<char>| #[trigger] owes(n, x) == owes(m, x) by {
        assert(fell_through(n, x) == fell_through(m, x));
    }
    assert forall|k: Seq<char>| #[trigger] fed(n, k) == fed(m, k) by {
        if fed(m, k) {
            assert forall|d: Seq<char>| #[trigger] n.steps[k].dep_names().contains(d) implies !owes(
                n,
                d,
            ) by {
                assert(!owes(m, d));
                assert(owes(n, d) == owes(m, d));
            }
        }
        if fed(n, k) {
            assert forall|d: Seq<char>| #[trigger] m.steps[k].dep_names().contains(d) implies !owes(
                m,
                d,
            ) by {
                assert(!owes(n, d));
                assert(owes(n, d) == owes(m, d));
            }
        }
    }
    assert forall|k: Seq<char>| !#[trigger] fell_through(n, k) by {
        assert(!fell_through(m, k));
    }
    assert forall|k: Seq<char>|
        #![trigger fed(n, k)]
        n.settled.contains(k) || n.running.contains(k) || now_in_hand.contains(k) implies fed(
        n,
        k,
    ) by {
        assert(fed(m, k));
    }
    assert forall|k: Seq<char>| #[trigger] n.settled.contains(k) implies a.memo.contains(
        n.action_of(k),
    ) && as_made(n, f, k) && come_by(n, f, had, k) by {
        assert(m.settled.contains(k));
        assert(as_made(m, f, k) && come_by(m, f, had, k));
        assert(owes(n, k) == owes(m, k));
        match f(m.action_of(k)).expansion {
            None => {},
            Some(exp) => {
                assert(spliced_in(n, k, exp) == spliced_in(m, k, exp));
                assert(owes(n, stand_in(k, exp)) == owes(m, stand_in(k, exp)));
            },
        }
    }
    assert forall|x: Seq<u8>| #[trigger] a.memo.contains(x) implies had.contains(x) || was_run(
        n,
        x,
    ) by {
        if !had.contains(x) {
            assert(was_run(m, x));
            let k = choose|k: Seq<char>| #[trigger]
                m.settled.contains(k) && m.action_of(k) == x && (m.reports[k].status is Computed
                    || m.reports[k].status is Expanded);
            assert(n.settled.contains(k));
        }
    }
}

/// The node that is taken next is fed, and the rest stays as it was.
proof fn lemma_taken_faithful(c: Course, f: Results, had: Set<Seq<u8>>, d: Dispatch, mid: RunModel)
    requires
        faithful(c, f, had, Set::empty()),
        in_turn(c.m, Set::empty()),
        takes(c.m, d, mid),
    ensures
        faithful((Course { m: mid, ..c }), f, had, set![d.spec.key@]),
        in_turn(mid, set![d.spec.key@]),
        d.action.0@ == mid.action_of(d.spec.key@),
        fed(c.m, d.spec.key@),
{
    let k = d.spec.key@;
    let none = Map::<Seq<char>, JournalEntry>::empty();
    assert(turns(c.m, none, Turn::Look(d), mid));
    law_a_node_runs_after_what_it_depends_on(c.m, none, d, mid);
    law_a_turn_keeps_order(c.m, none, Turn::Look(d), mid);
    let ds = c.m.steps[k].dep_names();
    assert forall|x: Seq<char>| #[trigger] ds.contains(x) implies !owes(c.m, x) by {
        let i = choose|i: int| 0 <= i < ds.len() && ds[i] == x;
        assert(!owes(c.m, ds[i]));
    }
    assert forall|x: Seq<char>|
        #![trigger fed(c.m, x)]
        mid.running.contains(x) || set![k].contains(x) implies fed(c.m, x) by {}
    assert forall|x: Seq<char>|
        #![trigger mid.steps.contains_key(x)]
        mid.running.contains(x) || set![k].contains(x) implies mid.steps.contains_key(x) by {
        if x != k {
            assert(c.m.running.contains(x));
        }
    }
    lemma_still_faithful(c, f, had, Set::empty(), Course { m: mid, ..c }, set![k]);
}

/// A node that is taken next is in hand when it is served.
proof fn lemma_in_hand(
    c: Course,
    f: Results,
    had: Set<Seq<u8>>,
    d: Dispatch,
    mid: RunModel,
    took_ms: u64,
)
    requires
        faithful(c, f, had, Set::empty()),
        in_turn(c.m, Set::empty()),
        takes(c.m, d, mid),
    ensures
        ({
            let m = RunModel { saved_ms: (mid.saved_ms + took_ms) as u64, ..mid };
            let k = d.spec.key@;
            &&& faithful((Course { m, ..c }), f, had, set![k])
            &&& handed_on(m)
            &&& all_answered(m, Set::empty())
            &&& fed(m, k)
            &&& m.steps.contains_key(k)
            &&& d.action.0@ == m.action_of(k)
            &&& !m.settled.contains(k)
            &&& !m.running.contains(k)
            &&& forall|x: Seq<char>| #[trigger] owes(m, x) == owes(c.m, x)
        }),
{
    let k = d.spec.key@;
    assert(set![k].contains(k));
    lemma_taken_faithful(c, f, had, d, mid);
    let m = RunModel { saved_ms: (mid.saved_ms + took_ms) as u64, ..mid };
    let b = Course { m, ..c };
    assert forall|x: Seq<char>|
        #![trigger m.steps.contains_key(x)]
        m.running.contains(x) || set![k].contains(x) implies m.steps.contains_key(x) by {
        assert(mid.steps.contains_key(x) == m.steps.contains_key(x));
    }
    assert forall|x: Seq<char>|
        #![trigger fed(mid, x)]
        m.running.contains(x) || set![k].contains(x) implies fed(mid, x) by {}
    lemma_still_faithful(Course { m: mid, ..c }, f, had, set![k], b, set![k]);
    assert forall|x: Seq<char>| #[trigger] owes(m, x) == owes(c.m, x) by {
        assert(fell_through(m, x) == fell_through(c.m, x));
    }
    assert(all_answered(m, Set::empty())) by {
        assert forall|x: Seq<char>| !#[trigger] owes(m, x) implies answered(m, x) by {
            assert(!owes(mid, x));
            assert(answered(mid, x));
        }
    }
    assert(handed_on(m)) by {
        assert(handed_on(mid));
    }
    assert(fed(m, k));
}

proof fn lemma_serve(
    c: Course,
    f: Results,
    had: Set<Seq<u8>>,
    d: Dispatch,
    mid: RunModel,
    took_ms: u64,
    now: u64,
    r: Result<Effect, EngineError>,
    a: Course,
)
    requires
        faithful(c, f, had, Set::empty()),
        in_turn(c.m, Set::empty()),
        serves(c, f, d, mid, took_ms, now, r, a),
    ensures
        faithful(a, f, had, Set::empty()),
        in_turn(a.m, Set::empty()),
{
    let k = d.spec.key@;
    let made = f(d.action.0@);
    assert(set![k].contains(k));
    lemma_taken_faithful(c, f, had, d, mid);
    law_a_hit_keeps_order(
        mid,
        d.spec,
        d.action,
        made.outputs,
        took_ms,
        made.expansion,
        now,
        r,
        a.m,
    );
    lemma_in_hand(c, f, had, d, mid, took_ms);
    let m = RunModel { saved_ms: (mid.saved_ms + took_ms) as u64, ..mid };
    let b = Course { m, ..c };
    assert(a.memo =~= c.memo.insert(m.action_of(k)));
    let report = ReportModel {
        action: Some(d.action),
        status: NodeStatus::Hit,
        ..skipped_report(k, d.spec.kind, now)
    };
    match made.expansion {
        None => {
            lemma_settle_faithful(
                b,
                f,
                had,
                ReportModel { outputs: made.outputs, ..report },
                a.memo,
            );
        },
        Some(exp) => {
            let added = key_names(r->Ok_0->Expanded_0@);
            lemma_expand_faithful(b, f, had, exp, added, report, a.m, a.memo);
        },
    }
}

proof fn lemma_start(
    c: Course,
    f: Results,
    had: Set<Seq<u8>>,
    d: Dispatch,
    mid: RunModel,
    a: Course,
)
    requires
        faithful(c, f, had, Set::empty()),
        in_turn(c.m, Set::empty()),
        starts(c, d, mid, a),
    ensures
        faithful(a, f, had, Set::empty()),
        in_turn(a.m, Set::empty()),
{
    let k = d.spec.key@;
    let none = Set::<Seq<char>>::empty();
    assert(set![k].contains(k));
    lemma_taken_faithful(c, f, had, d, mid);
    law_starting_keeps_order(mid, k);
    let b = Course { m: mid, ..c };
    assert forall|x: Seq<char>| #[trigger]
        a.started.contains_key(x) implies a.started[x] == a.m.action_of(x) && !had.contains(
        a.started[x],
    ) by {
        if x != k {
            assert(c.started.contains_key(x));
        }
    }
    assert forall|x: Seq<char>|
        #![trigger a.m.steps.contains_key(x)]
        a.m.running.contains(x) || none.contains(x) implies a.m.steps.contains_key(x) by {
        assert(mid.running.contains(x) || set![k].contains(x));
        assert(mid.steps.contains_key(x));
    }
    assert forall|x: Seq<char>|
        #![trigger fed(mid, x)]
        a.m.running.contains(x) || none.contains(x) implies fed(mid, x) by {
        assert(mid.running.contains(x) || set![k].contains(x));
    }
    assert forall|x: Seq<char>| #[trigger]
        a.started.contains_key(x) <==> a.m.running.contains(x) by {
        assert(c.started.contains_key(x) <==> mid.running.contains(x));
    }
    lemma_still_faithful(b, f, had, set![k], a, none);
}

proof fn lemma_end(
    c: Course,
    f: Results,
    had: Set<Seq<u8>>,
    spec: NodeSpec,
    action: ActionKey,
    output: NodeOutput,
    took: (u64, u64, bool, u64),
    r: Result<Effect, EngineError>,
    a: Course,
)
    requires
        faithful(c, f, had, Set::empty()),
        in_turn(c.m, Set::empty()),
        ends(c, f, spec, action, output, took, r, a),
    ensures
        faithful(a, f, had, Set::empty()),
        in_turn(a.m, Set::empty()),
{
    let k = spec.key@;
    let none = Set::<Seq<char>>::empty();
    let made = f(action.0@);
    assert(set![k].contains(k));
    assert(c.started.contains_key(k));
    assert(c.m.running.contains(k));
    law_an_end_keeps_order(
        c.m,
        spec,
        action,
        output,
        made.expansion,
        took.0,
        took.1,
        took.2,
        took.3,
        r,
        a.m,
    );
    lemma_ending(c, f, had, k);
    let m = RunModel { running: c.m.running.remove(k), ..c.m };
    let b = Course { m, memo: c.memo, started: c.started.remove(k) };
    let report = |status: NodeStatus|
        result_report(
            k,
            spec.kind,
            action,
            status,
            output,
            took.0,
            took.1,
            took.2,
            took.3,
        );
    match made.expansion {
        None => {
            lemma_settle_faithful(b, f, had, report(NodeStatus::Computed), a.memo);
        },
        Some(exp) => {
            let added = key_names(r->Ok_0->Expanded_0@);
            let same = RunModel { attribution: m.attribution, ..a.m };
            let rep = ReportModel {
                outputs: Seq::empty(),
                diagnostics: Seq::empty(),
                ..report(NodeStatus::Expanded)
            };
            lemma_expand_faithful(b, f, had, exp, added, rep, same, a.memo);
            let s = Course { m: same, memo: a.memo, started: a.started };
            assert forall|x: Seq<char>|
                #![trigger a.m.steps.contains_key(x)]
                a.m.running.contains(x) || none.contains(x) implies a.m.steps.contains_key(x) by {
                assert(same.running.contains(x));
                assert(same.steps.contains_key(x));
            }
            assert forall|x: Seq<char>|
                #![trigger fed(same, x)]
                a.m.running.contains(x) || none.contains(x) implies fed(same, x) by {
                assert(same.running.contains(x));
            }
            assert forall|x: Seq<char>| #[trigger]
                a.started.contains_key(x) <==> a.m.running.contains(x) by {
                assert(s.started.contains_key(x) <==> same.running.contains(x));
            }
            assert forall|x: Seq<char>| #[trigger]
                a.started.contains_key(x) implies a.started[x] == a.m.action_of(x) && !had.contains(
                a.started[x],
            ) by {
                assert(s.started.contains_key(x));
            }
            lemma_still_faithful(s, f, had, none, a, none);
        },
    }
}

/// A run is true to what its actions come to, from its beginning to its end: whatever has a result
/// has the one that its action comes to, or that of the node which stands in for it, and a node is
/// run only if the memo store did not have its result at the outset.
pub proof fn law_a_run_is_true_to_its_actions(
    p: Plan,
    g: Steps,
    max_depth: nat,
    had: Set<Seq<u8>>,
    f: Results,
    c: Course,
    n: nat,
)
    requires
        plans(p, g),
        forall|k: Seq<char>| #[trigger] g.contains_key(k) ==> g[k].key@ == k,
        gets_to(outset(p, g, max_depth, had), f, c, n),
    ensures
        faithful(c, f, had, Set::empty()),
        in_turn(c.m, Set::empty()),
    decreases n,
{
    let none = Set::<Seq<char>>::empty();
    if n == 0 {
        law_a_run_starts_in_order(p, g, max_depth);
    } else {
        let b = choose|b: Course|
            gets_to(outset(p, g, max_depth, had), f, b, (n - 1) as nat) && #[trigger] goes_on(
                b,
                f,
                c,
            );
        law_a_run_is_true_to_its_actions(p, g, max_depth, had, f, b, (n - 1) as nat);
        if exists|d: Dispatch, mid: RunModel, ms: u64, now: u64, r: Result<Effect, EngineError>|
         #[trigger] serves(b, f, d, mid, ms, now, r, c) {
            let (d, mid, ms, now, r) = choose|
                d: Dispatch,
                mid: RunModel,
                ms: u64,
                now: u64,
                r: Result<Effect, EngineError>,
            | #[trigger] serves(b, f, d, mid, ms, now, r, c);
            lemma_serve(b, f, had, d, mid, ms, now, r, c);
        } else if exists|d: Dispatch, mid: RunModel| #[trigger] starts(b, d, mid, c) {
            let (d, mid) = choose|d: Dispatch, mid: RunModel| #[trigger] starts(b, d, mid, c);
            lemma_start(b, f, had, d, mid, c);
        } else {
            let (spec, action, output, took, r) = choose|
                spec: NodeSpec,
                action: ActionKey,
                output: NodeOutput,
                took: (u64, u64, bool, u64),
                r: Result<Effect, EngineError>,
            | #[trigger] ends(b, f, spec, action, output, took, r, c);
            lemma_end(b, f, had, spec, action, output, took, r, c);
        }
    }
}

/// Has every node of a run given its result?
pub open spec fn finished(m: RunModel) -> bool {
    forall|k: Seq<char>| #[trigger]
        m.steps.contains_key(k) ==> m.settled.contains(k) && !owes(m, k)
}

/// Do these steps read the same nodes in the same way?
pub open spec fn alike(a: NodeSpec, b: NodeSpec) -> bool {
    &&& a.key@ == b.key@
    &&& a.kind == b.kind
    &&& a.op@ == b.op@
    &&& same_env(a.env, b.env)
    &&& a.dep_names() == b.dep_names()
}

/// Does a run consist of steps of a run before it, with the same results as far as it has any?
pub open spec fn retraces(m: RunModel, w: RunModel) -> bool {
    &&& forall|k: Seq<char>| #[trigger]
        m.steps.contains_key(k) ==> w.steps.contains_key(k) && alike(m.steps[k], w.steps[k])
    &&& forall|k: Seq<char>| !#[trigger] owes(m, k) ==> m.outputs[k] == w.outputs[k]
}

/// Where a run retraces one that was finished, a step that is fed has the action that it had
/// there.
proof fn lemma_retraced_action(
    c: Course,
    f: Results,
    had: Set<Seq<u8>>,
    in_hand: Set<Seq<char>>,
    w: Course,
    had_w: Set<Seq<u8>>,
    k: Seq<char>,
)
    requires
        faithful(c, f, had, in_hand),
        all_answered(c.m, Set::empty()),
        faithful(w, f, had_w, Set::empty()),
        all_answered(w.m, Set::empty()),
        finished(w.m),
        retraces(c.m, w.m),
        c.m.steps.contains_key(k),
        fed(c.m, k),
    ensures
        w.m.settled.contains(k),
        !owes(w.m, k),
        c.m.action_of(k) == w.m.action_of(k),
        w.memo.contains(c.m.action_of(k)),
        as_made(w.m, f, k),
{
    let s = c.m.steps[k];
    let t = w.m.steps[k];
    assert(w.m.steps.contains_key(k));
    assert(alike(s, t));
    assert(fed(w.m, k));
    assert forall|d: Seq<char>| #[trigger] s.dep_names().contains(d) implies
        c.m.outputs.contains_key(d) && w.m.outputs.contains_key(d) && c.m.outputs[d]
        == w.m.outputs[d] by {
        assert(!owes(c.m, d));
        assert(answered(c.m, d));
        assert(!owes(w.m, d));
        assert(answered(w.m, d));
    }
    lemma_same_action(s, t, c.m, w.m);
    assert(w.m.settled.contains(k));
}

/// The nodes whose identity a node carries had the same result as the node in a run that is
/// retraced.
proof fn lemma_retraced_chain(
    c: Course,
    f: Results,
    had: Set<Seq<u8>>,
    key: Seq<char>,
    w: Course,
    had_w: Set<Seq<u8>>,
    x: Seq<char>,
    n: nat,
)
    requires
        faithful(c, f, had, set![key]),
        handed_on(c.m),
        all_answered(c.m, Set::empty()),
        faithful(w, f, had_w, Set::empty()),
        all_answered(w.m, Set::empty()),
        finished(w.m),
        retraces(c.m, w.m),
        carries(c.m.delegated, key, x, n),
    ensures
        w.m.outputs[x] == w.m.outputs[key],
    decreases n,
{
    let m = c.m;
    if n > 0 {
        let s = lemma_last_link(m.delegated, key, x, n);
        assert(m.delegated.contains_key(s) && m.delegated[s] == x);
        assert(m.delegated.contains_value(x));
        assert(m.settled.contains(x));
        assert(m.steps.contains_key(x));
        assert(fed(m, x));
        lemma_retraced_action(c, f, had, set![key], w, had_w, x);
        assert(as_made(m, f, x));
        assert(owes(m, x));
        let exp = f(m.action_of(x)).expansion->0;
        let t = stand_in(x, exp);
        assert(m.delegated.contains_pair(t, x));
        assert(m.delegated.contains_key(t));
        assert(s == t);
        lemma_retraced_chain(c, f, had, key, w, had_w, s, (n - 1) as nat);
    }
}

proof fn lemma_retrace_settle(
    c: Course,
    f: Results,
    had: Set<Seq<u8>>,
    report: ReportModel,
    w: Course,
    had_w: Set<Seq<u8>>,
)
    requires
        faithful(c, f, had, set![report.key]),
        handed_on(c.m),
        all_answered(c.m, Set::empty()),
        !c.m.settled.contains(report.key),
        f(c.m.action_of(report.key)).expansion is None,
        report.outputs == f(c.m.action_of(report.key)).outputs,
        !gave_nothing(report.status),
        faithful(w, f, had_w, Set::empty()),
        all_answered(w.m, Set::empty()),
        finished(w.m),
        retraces(c.m, w.m),
    ensures
        retraces(c.m.settle(report), w.m),
{
    let m = c.m;
    let key = report.key;
    let a = m.settle(report);
    assert(set![key].contains(key));
    assert(m.steps.contains_key(key));
    assert(fed(m, key));
    lemma_settle_calm(m, report);
    lemma_retraced_action(c, f, had, set![key], w, had_w, key);
    assert(w.m.outputs[key] == report.outputs);
    assert forall|k: Seq<char>| #[trigger]
        a.steps.contains_key(k) implies w.m.steps.contains_key(k) && alike(
        a.steps[k],
        w.m.steps[k],
    ) by {
        assert(m.steps.contains_key(k));
    }
    assert forall|x: Seq<char>| !#[trigger] owes(a, x) implies a.outputs[x] == w.m.outputs[x] by {
        if owes(m, x) {
            let n = choose|n: nat| #[trigger] carries(m.delegated, key, x, n);
            lemma_retraced_chain(c, f, had, key, w, had_w, x, n);
            assert(a.outputs[x] == report.outputs);
        } else {
            assert(a.outputs[x] == m.outputs[x]);
        }
    }
}

proof fn lemma_retrace_expand(
    c: Course,
    f: Results,
    had: Set<Seq<u8>>,
    exp: Expansion,
    added: Seq<Seq<char>>,
    report: ReportModel,
    a: RunModel,
    w: Course,
    had_w: Set<Seq<u8>>,
)
    requires
        faithful(c, f, had, set![report.key]),
        handed_on(c.m),
        all_answered(c.m, Set::empty()),
        !c.m.settled.contains(report.key),
        f(c.m.action_of(report.key)).expansion == Some(exp),
        expanded_as(c.m, a, exp, added, report),
        faithful(w, f, had_w, Set::empty()),
        all_answered(w.m, Set::empty()),
        finished(w.m),
        retraces(c.m, w.m),
    ensures
        retraces(a, w.m),
{
    let m = c.m;
    let key = report.key;
    let prefix = splice_prefix(key);
    let siblings = step_names(exp.nodes@);
    assert(set![key].contains(key));
    assert(m.steps.contains_key(key));
    assert(fed(m, key));
    let mid = choose|mid: RunModel|
        {
            &&& #[trigger] expanded(m, mid, key, exp.nodes@, exp.substitute@, added)
            &&& a == mid.delegate(report)
        };
    law_expansion_keeps_results(m, mid, key, exp.nodes@, exp.substitute@, added);
    lemma_expanded_steps(m, mid, key, exp, added);
    lemma_retraced_action(c, f, had, set![key], w, had_w, key);
    assert(spliced_in(w.m, key, exp));
    assert forall|k: Seq<char>| #[trigger]
        a.steps.contains_key(k) implies w.m.steps.contains_key(k) && alike(
        a.steps[k],
        w.m.steps[k],
    ) by {
        assert(mid.steps.contains_key(k));
        if m.steps.contains_key(k) {
            assert(a.steps[k] == m.steps[k]);
        } else {
            let i = choose|i: int|
                0 <= i < exp.nodes@.len() && k == prefix + (#[trigger] exp.nodes@[i]).key@;
            assert(spliced_in(mid, key, exp));
            assert(spliced(prefix, siblings, exp.nodes@[i], mid.steps[k]));
            assert(spliced(prefix, siblings, exp.nodes@[i], w.m.steps[k]));
        }
    }
    let sub = stand_in(key, exp);
    assert forall|x: Seq<char>| !#[trigger] owes(a, x) implies a.outputs[x] == w.m.outputs[x] by {
        assert(a.delegated.contains_key(sub) && a.delegated[sub] == key);
        assert(x != key);
        if m.delegated.contains_value(x) {
            let s = choose|s: Seq<char>| #[trigger]
                m.delegated.contains_key(s) && m.delegated[s] == x;
            assert(m.steps.contains_key(s));
            assert(a.delegated.contains_key(s) && a.delegated[s] == x);
        }
        assert(!fell_through(m, x));
        assert(!owes(m, x));
    }
}

/// Is there nothing left to do in a run? No node is running, and none in the queue can be
/// dispatched.
pub open spec fn at_rest(m: RunModel) -> bool {
    &&& m.running.is_empty()
    &&& forall|i: int| 0 <= i < m.ready.len() ==> !m.dispatchable(#[trigger] m.ready[i])
}

/// A run leaves no node waiting for nothing.
proof fn lemma_course_keeps_up(
    p: Plan,
    g: Steps,
    max_depth: nat,
    had: Set<Seq<u8>>,
    f: Results,
    c: Course,
    n: nat,
)
    requires
        plans(p, g),
        forall|k: Seq<char>| #[trigger] g.contains_key(k) ==> g[k].key@ == k,
        gets_to(outset(p, g, max_depth, had), f, c, n),
    ensures
        keeps_up(c.m, Set::empty()),
    decreases n,
{
    if n == 0 {
        law_a_run_starts_caught_up(p, g, max_depth);
    } else {
        let b = choose|b: Course|
            gets_to(outset(p, g, max_depth, had), f, b, (n - 1) as nat) && #[trigger] goes_on(
                b,
                f,
                c,
            );
        let none = Map::<Seq<char>, JournalEntry>::empty();
        lemma_course_keeps_up(p, g, max_depth, had, f, b, (n - 1) as nat);
        law_a_run_is_true_to_its_actions(p, g, max_depth, had, f, b, (n - 1) as nat);
        if exists|d: Dispatch, mid: RunModel, ms: u64, now: u64, r: Result<Effect, EngineError>|
         #[trigger] serves(b, f, d, mid, ms, now, r, c) {
            let (d, mid, ms, now, r) = choose|
                d: Dispatch,
                mid: RunModel,
                ms: u64,
                now: u64,
                r: Result<Effect, EngineError>,
            | #[trigger] serves(b, f, d, mid, ms, now, r, c);
            let made = f(d.action.0@);
            assert(turns(b.m, none, Turn::Look(d), mid));
            law_a_turn_keeps_up(b.m, none, Turn::Look(d), mid);
            law_a_hit_keeps_up(
                mid,
                d.spec,
                d.action,
                made.outputs,
                ms,
                made.expansion,
                now,
                r,
                c.m,
            );
        } else if exists|d: Dispatch, mid: RunModel| #[trigger] starts(b, d, mid, c) {
            let (d, mid) = choose|d: Dispatch, mid: RunModel| #[trigger] starts(b, d, mid, c);
            assert(turns(b.m, none, Turn::Look(d), mid));
            law_a_turn_keeps_up(b.m, none, Turn::Look(d), mid);
            law_starting_keeps_up(mid, d.spec.key@);
        } else {
            let (spec, action, output, took, r) = choose|
                spec: NodeSpec,
                action: ActionKey,
                output: NodeOutput,
                took: (u64, u64, bool, u64),
                r: Result<Effect, EngineError>,
            | #[trigger] ends(b, f, spec, action, output, took, r, c);
            assert(b.started.contains_key(spec.key@));
            assert(b.m.running.contains(spec.key@));
            law_an_end_keeps_up(
                b.m,
                spec,
                action,
                output,
                f(action.0@).expansion,
                took.0,
                took.1,
                took.2,
                took.3,
                r,
                c.m,
            );
        }
    }
}

/// When nothing is left to do, a step whose dependencies have given their results is settled.
proof fn lemma_fed_is_settled(m: RunModel, k: Seq<char>)
    requires
        keeps_up(m, Set::empty()),
        at_rest(m),
        m.steps.contains_key(k),
        fed(m, k),
    ensures
        m.settled.contains(k),
{
    if !m.settled.contains(k) {
        let none = Map::<Seq<char>, JournalEntry>::empty();
        let after = RunModel { ready: Seq::empty(), ..m };
        assert(turns(m, none, Turn::Over, after));
        law_no_node_waits_for_nothing(m, none, after, k);
        let ds = m.steps[k].dep_names();
        let i = choose|i: int| 0 <= i < ds.len() && owes(m, #[trigger] ds[i]);
        assert(ds.contains(ds[i]));
    }
}

/// Does a run that is at rest have everything that another had at some moment, and has it given
/// what was given there?
spec fn catches_up(m: RunModel, w: RunModel) -> bool {
    &&& forall|k: Seq<char>| #[trigger] w.steps.contains_key(k) ==> m.steps.contains_key(k)
    &&& forall|k: Seq<char>| !#[trigger] owes(w, k) ==> !owes(m, k)
}

/// A node that a run at rest has in common with another, and that was fed there, is settled, and
/// has the action that it had there.
proof fn lemma_caught_up(
    c: Course,
    f: Results,
    had: Set<Seq<u8>>,
    w: Course,
    had_w: Set<Seq<u8>>,
    in_hand: Set<Seq<char>>,
    last: RunModel,
    k: Seq<char>,
)
    requires
        faithful(c, f, had, Set::empty()),
        in_turn(c.m, Set::empty()),
        keeps_up(c.m, Set::empty()),
        at_rest(c.m),
        faithful(w, f, had_w, in_hand),
        all_answered(w.m, Set::empty()),
        retraces(c.m, last),
        catches_up(c.m, w.m),
        forall|x: Seq<char>| #[trigger]
            w.m.steps.contains_key(x) ==> last.steps.contains_key(x) && last.steps[x]
                == w.m.steps[x],
        forall|x: Seq<char>| !#[trigger] owes(w.m, x) ==> last.outputs[x] == w.m.outputs[x],
        w.m.steps.contains_key(k),
        fed(w.m, k),
    ensures
        c.m.settled.contains(k),
        c.m.action_of(k) == w.m.action_of(k),
        as_made(c.m, f, k),
{
    let (m, v) = (c.m, w.m);
    assert(m.steps.contains_key(k));
    assert(alike(m.steps[k], last.steps[k]));
    assert(fed(m, k)) by {
        assert forall|d: Seq<char>| #[trigger] m.steps[k].dep_names().contains(d) implies !owes(
            m,
            d,
        ) by {
            assert(v.steps[k].dep_names().contains(d));
            assert(!owes(v, d));
        }
    }
    lemma_fed_is_settled(m, k);
    assert forall|d: Seq<char>| #[trigger] m.steps[k].dep_names().contains(d) implies
        m.outputs.contains_key(d) && v.outputs.contains_key(d) && m.outputs[d]
        == v.outputs[d] by {
        assert(v.steps[k].dep_names().contains(d));
        assert(!owes(v, d));
        assert(!owes(m, d));
        assert(answered(v, d));
        assert(answered(m, d));
    }
    lemma_same_action(m.steps[k], v.steps[k], m, v);
}

/// A node whose stand-in has given its result has given its own.
proof fn lemma_answered_for(c: Course, f: Results, had: Set<Seq<u8>>, k: Seq<char>, exp: Expansion)
    requires
        faithful(c, f, had, Set::empty()),
        keeps_up(c.m, Set::empty()),
        c.m.settled.contains(k),
        f(c.m.action_of(k)).expansion == Some(exp),
        !owes(c.m, stand_in(k, exp)),
    ensures
        !owes(c.m, k),
{
    let m = c.m;
    let s = stand_in(k, exp);
    assert(as_made(m, f, k));
    if owes(m, k) {
        assert(m.delegated.contains_key(s));
        assert(!fell_through(m, s));
        assert(m.settled.contains(s));
        assert(!Set::<Seq<char>>::empty().contains(s));
        assert(was_skipped(m, s) || m.delegated.contains_value(s));
        assert(was_skipped(m, s) ==> fell_through(m, s));
    }
}

/// What was given along a chain of substitutions is given in a run at rest.
proof fn lemma_chain_caught_up(
    c: Course,
    f: Results,
    had: Set<Seq<u8>>,
    w: Course,
    had_w: Set<Seq<u8>>,
    key: Seq<char>,
    last: RunModel,
    x: Seq<char>,
    n: nat,
)
    requires
        faithful(c, f, had, Set::empty()),
        in_turn(c.m, Set::empty()),
        keeps_up(c.m, Set::empty()),
        at_rest(c.m),
        faithful(w, f, had_w, set![key]),
        handed_on(w.m),
        all_answered(w.m, Set::empty()),
        retraces(c.m, last),
        catches_up(c.m, w.m),
        forall|x: Seq<char>| #[trigger]
            w.m.steps.contains_key(x) ==> last.steps.contains_key(x) && last.steps[x]
                == w.m.steps[x],
        forall|x: Seq<char>| !#[trigger] owes(w.m, x) ==> last.outputs[x] == w.m.outputs[x],
        !owes(c.m, key),
        carries(w.m.delegated, key, x, n),
    ensures
        !owes(c.m, x),
    decreases n,
{
    let v = w.m;
    if n > 0 {
        let s = lemma_last_link(v.delegated, key, x, n);
        lemma_chain_caught_up(c, f, had, w, had_w, key, last, s, (n - 1) as nat);
        assert(v.delegated.contains_key(s) && v.delegated[s] == x);
        assert(v.delegated.contains_value(x));
        assert(v.settled.contains(x));
        assert(v.steps.contains_key(x));
        assert(fed(v, x));
        lemma_caught_up(c, f, had, w, had_w, set![key], last, x);
        assert(as_made(v, f, x));
        let exp = f(v.action_of(x)).expansion->0;
        let t = stand_in(x, exp);
        assert(v.delegated.contains_pair(t, x));
        assert(v.delegated.contains_key(t));
        assert(s == t);
        lemma_answered_for(c, f, had, x, exp);
    }
}

/// A settled node's results are caught up with.
proof fn lemma_catch_up_settle(
    c: Course,
    f: Results,
    had: Set<Seq<u8>>,
    w: Course,
    had_w: Set<Seq<u8>>,
    report: ReportModel,
    last: RunModel,
)
    requires
        faithful(c, f, had, Set::empty()),
        in_turn(c.m, Set::empty()),
        keeps_up(c.m, Set::empty()),
        at_rest(c.m),
        faithful(w, f, had_w, set![report.key]),
        handed_on(w.m),
        all_answered(w.m, Set::empty()),
        retraces(c.m, last),
        catches_up(c.m, w.m),
        forall|x: Seq<char>| #[trigger]
            w.m.steps.contains_key(x) ==> last.steps.contains_key(x) && last.steps[x]
                == w.m.steps[x],
        forall|x: Seq<char>| !#[trigger] owes(w.m, x) ==> last.outputs[x] == w.m.outputs[x],
        !w.m.settled.contains(report.key),
        !gave_nothing(report.status),
        f(w.m.action_of(report.key)).expansion is None,
    ensures
        catches_up(c.m, w.m.settle(report)),
{
    let key = report.key;
    let v = w.m;
    let a = v.settle(report);
    assert(set![key].contains(key));
    assert(v.steps.contains_key(key));
    assert(fed(v, key));
    lemma_settle_calm(v, report);
    lemma_caught_up(c, f, had, w, had_w, set![key], last, key);
    assert(!owes(c.m, key));
    assert forall|x: Seq<char>| !#[trigger] owes(a, x) implies !owes(c.m, x) by {
        if owes(v, x) {
            let n = choose|n: nat| #[trigger] carries(v.delegated, key, x, n);
            lemma_chain_caught_up(c, f, had, w, had_w, key, last, x, n);
        }
    }
    assert forall|k: Seq<char>| #[trigger] a.steps.contains_key(k) implies c.m.steps.contains_key(
        k,
    ) by {
        assert(v.steps.contains_key(k));
    }
}

/// An expansion is caught up with.
proof fn lemma_catch_up_expand(
    c: Course,
    f: Results,
    had: Set<Seq<u8>>,
    w: Course,
    had_w: Set<Seq<u8>>,
    exp: Expansion,
    added: Seq<Seq<char>>,
    report: ReportModel,
    a: RunModel,
    last: RunModel,
)
    requires
        faithful(c, f, had, Set::empty()),
        in_turn(c.m, Set::empty()),
        keeps_up(c.m, Set::empty()),
        at_rest(c.m),
        faithful(w, f, had_w, set![report.key]),
        handed_on(w.m),
        all_answered(w.m, Set::empty()),
        retraces(c.m, last),
        catches_up(c.m, w.m),
        forall|x: Seq<char>| #[trigger]
            w.m.steps.contains_key(x) ==> last.steps.contains_key(x) && last.steps[x]
                == w.m.steps[x],
        forall|x: Seq<char>| !#[trigger] owes(w.m, x) ==> last.outputs[x] == w.m.outputs[x],
        !w.m.settled.contains(report.key),
        f(w.m.action_of(report.key)).expansion == Some(exp),
        expanded_as(w.m, a, exp, added, report),
    ensures
        catches_up(c.m, a),
{
    let key = report.key;
    let v = w.m;
    let prefix = splice_prefix(key);
    assert(set![key].contains(key));
    assert(v.steps.contains_key(key));
    assert(fed(v, key));
    lemma_caught_up(c, f, had, w, had_w, set![key], last, key);
    assert(spliced_in(c.m, key, exp));
    let mid = choose|mid: RunModel|
        {
            &&& #[trigger] expanded(v, mid, key, exp.nodes@, exp.substitute@, added)
            &&& a == mid.delegate(report)
        };
    law_expansion_keeps_results(v, mid, key, exp.nodes@, exp.substitute@, added);
    lemma_expanded_steps(v, mid, key, exp, added);
    assert forall|k: Seq<char>| #[trigger] a.steps.contains_key(k) implies c.m.steps.contains_key(
        k,
    ) by {
        assert(mid.steps.contains_key(k));
        if !v.steps.contains_key(k) {
            let i = choose|i: int|
                0 <= i < exp.nodes@.len() && k == prefix + (#[trigger] exp.nodes@[i]).key@;
            assert(c.m.steps.contains_key(prefix + exp.nodes@[i].key@));
        }
    }
    let sub = stand_in(key, exp);
    assert forall|x: Seq<char>| !#[trigger] owes(a, x) implies !owes(c.m, x) by {
        assert(a.delegated.contains_key(sub) && a.delegated[sub] == key);
        assert(x != key);
        if v.delegated.contains_value(x) {
            let s = choose|s: Seq<char>| #[trigger]
                v.delegated.contains_key(s) && v.delegated[s] == x;
            assert(v.steps.contains_key(s));
            assert(a.delegated.contains_key(s) && a.delegated[s] == x);
        }
        assert(!fell_through(v, x));
        assert(!owes(v, x));
    }
}

proof fn lemma_given_serve(
    b: Course,
    f: Results,
    had: Set<Seq<u8>>,
    d: Dispatch,
    mid: RunModel,
    ms: u64,
    now: u64,
    r: Result<Effect, EngineError>,
    a: Course,
    x: Seq<char>,
)
    requires
        faithful(b, f, had, Set::empty()),
        in_turn(b.m, Set::empty()),
        serves(b, f, d, mid, ms, now, r, a),
        !owes(b.m, x),
    ensures
        !owes(a.m, x),
        a.m.outputs[x] == b.m.outputs[x],
{
    let k = d.spec.key@;
    let made = f(d.action.0@);
    lemma_in_hand(b, f, had, d, mid, ms);
    let m = RunModel { saved_ms: (mid.saved_ms + ms) as u64, ..mid };
    let report = ReportModel {
        action: Some(d.action),
        status: NodeStatus::Hit,
        ..skipped_report(k, d.spec.kind, now)
    };
    assert(owes(m, x) == owes(b.m, x));
    match made.expansion {
        None => {
            lemma_settle_calm(m, ReportModel { outputs: made.outputs, ..report });
            assert(!owes(a.m, x));
        },
        Some(exp) => {
            let added = key_names(r->Ok_0->Expanded_0@);
            lemma_expanding_gives_nothing(m, a.m, exp, added, report);
        },
    }
}

proof fn lemma_given_end(
    b: Course,
    f: Results,
    had: Set<Seq<u8>>,
    spec: NodeSpec,
    action: ActionKey,
    output: NodeOutput,
    took: (u64, u64, bool, u64),
    r: Result<Effect, EngineError>,
    a: Course,
    x: Seq<char>,
)
    requires
        faithful(b, f, had, Set::empty()),
        in_turn(b.m, Set::empty()),
        ends(b, f, spec, action, output, took, r, a),
        !owes(b.m, x),
    ensures
        !owes(a.m, x),
        a.m.outputs[x] == b.m.outputs[x],
{
    let k = spec.key@;
    let made = f(action.0@);
    lemma_ending(b, f, had, k);
    let m = RunModel { running: b.m.running.remove(k), ..b.m };
    let report = |status: NodeStatus|
        result_report(
            k,
            spec.kind,
            action,
            status,
            output,
            took.0,
            took.1,
            took.2,
            took.3,
        );
    assert(owes(m, x) == owes(b.m, x));
    match made.expansion {
        None => {
            lemma_settle_calm(m, report(NodeStatus::Computed));
            assert(!owes(a.m, x));
        },
        Some(exp) => {
            let added = key_names(r->Ok_0->Expanded_0@);
            let same = RunModel { attribution: m.attribution, ..a.m };
            let rep = ReportModel {
                outputs: Seq::empty(),
                diagnostics: Seq::empty(),
                ..report(NodeStatus::Expanded)
            };
            lemma_expanding_gives_nothing(m, same, exp, added, rep);
            assert(fell_through(same, x) == fell_through(a.m, x));
        },
    }
}

/// What a run has come to, it does not take back.
proof fn lemma_given_is_kept(b: Course, f: Results, had: Set<Seq<u8>>, a: Course, x: Seq<char>)
    requires
        faithful(b, f, had, Set::empty()),
        in_turn(b.m, Set::empty()),
        goes_on(b, f, a),
        !owes(b.m, x),
    ensures
        !owes(a.m, x),
        a.m.outputs[x] == b.m.outputs[x],
{
    if exists|d: Dispatch, mid: RunModel, ms: u64, now: u64, r: Result<Effect, EngineError>|
     #[trigger] serves(b, f, d, mid, ms, now, r, a) {
        let (d, mid, ms, now, r) = choose|
            d: Dispatch,
            mid: RunModel,
            ms: u64,
            now: u64,
            r: Result<Effect, EngineError>,
        | #[trigger] serves(b, f, d, mid, ms, now, r, a);
        lemma_given_serve(b, f, had, d, mid, ms, now, r, a, x);
    } else if exists|d: Dispatch, mid: RunModel| #[trigger] starts(b, d, mid, a) {
        let (d, mid) = choose|d: Dispatch, mid: RunModel| #[trigger] starts(b, d, mid, a);
        assert(fell_through(a.m, x) == fell_through(b.m, x));
    } else {
        let (spec, action, output, took, r) = choose|
            spec: NodeSpec,
            action: ActionKey,
            output: NodeOutput,
            took: (u64, u64, bool, u64),
            r: Result<Effect, EngineError>,
        | #[trigger] ends(b, f, spec, action, output, took, r, a);
        lemma_given_end(b, f, had, spec, action, output, took, r, a, x);
    }
}

/// A node that is about to end is in hand.
proof fn lemma_ending(b: Course, f: Results, had: Set<Seq<u8>>, k: Seq<char>)
    requires
        faithful(b, f, had, Set::empty()),
        in_turn(b.m, Set::empty()),
        b.started.contains_key(k),
    ensures
        ({
            let m = RunModel { running: b.m.running.remove(k), ..b.m };
            let c = Course { m, memo: b.memo, started: b.started.remove(k) };
            &&& faithful(c, f, had, set![k])
            &&& handed_on(m)
            &&& all_answered(m, Set::empty())
            &&& !m.settled.contains(k)
            &&& !m.running.contains(k)
            &&& m.action_of(k) == b.started[k]
            &&& forall|x: Seq<char>| #[trigger] owes(m, x) == owes(b.m, x)
        }),
{
    let none = Set::<Seq<char>>::empty();
    let m = RunModel { running: b.m.running.remove(k), ..b.m };
    let c = Course { m, memo: b.memo, started: b.started.remove(k) };
    assert(set![k].contains(k));
    assert(b.m.running.contains(k));
    assert(fed(b.m, k));
    assert forall|x: Seq<char>|
        #![trigger m.steps.contains_key(x)]
        m.running.contains(x) || set![k].contains(x) implies m.steps.contains_key(x) by {
        assert(b.m.running.contains(x));
        assert(b.m.steps.contains_key(x));
    }
    assert forall|x: Seq<char>|
        #![trigger fed(b.m, x)]
        m.running.contains(x) || set![k].contains(x) implies fed(b.m, x) by {
        assert(b.m.running.contains(x));
    }
    assert forall|x: Seq<char>| #[trigger]
        c.started.contains_key(x) <==> m.running.contains(x) by {
        assert(b.started.contains_key(x) <==> b.m.running.contains(x));
    }
    assert forall|x: Seq<char>| #[trigger]
        c.started.contains_key(x) implies c.started[x] == m.action_of(x) && !had.contains(
        c.started[x],
    ) by {
        assert(b.started.contains_key(x));
    }
    lemma_still_faithful(b, f, had, none, c, set![k]);
    assert forall|x: Seq<char>| #[trigger] owes(m, x) == owes(b.m, x) by {
        assert(fell_through(m, x) == fell_through(b.m, x));
    }
    assert(all_answered(m, Set::empty())) by {
        assert forall|x: Seq<char>| !#[trigger] owes(m, x) implies answered(m, x) by {
            assert(!owes(b.m, x));
            assert(answered(b.m, x));
        }
    }
    assert(handed_on(m)) by {
        assert(handed_on(b.m));
    }
}

proof fn lemma_expanding_gives_nothing(
    m: RunModel,
    a: RunModel,
    exp: Expansion,
    added: Seq<Seq<char>>,
    report: ReportModel,
)
    requires
        expanded_as(m, a, exp, added, report),
        forall|k: Seq<char>| #[trigger] m.steps.contains_key(k) ==> m.steps[k].key@ == k,
        handed_on(m),
        !m.settled.contains(report.key),
    ensures
        a.outputs == m.outputs,
        forall|x: Seq<char>| !#[trigger] owes(m, x) ==> !owes(a, x),
{
    let key = report.key;
    let mid = choose|mid: RunModel|
        {
            &&& #[trigger] expanded(m, mid, key, exp.nodes@, exp.substitute@, added)
            &&& a == mid.delegate(report)
        };
    law_expansion_keeps_results(m, mid, key, exp.nodes@, exp.substitute@, added);
    lemma_expanded_steps(m, mid, key, exp, added);
    assert forall|x: Seq<char>| !#[trigger] owes(m, x) implies !owes(a, x) by {
        assert(x != key);
        if a.delegated.contains_value(x) {
            let s = choose|s: Seq<char>| #[trigger]
                a.delegated.contains_key(s) && a.delegated[s] == x;
            assert(m.delegated.contains_key(s) && m.delegated[s] == x);
        }
    }
}

/// A run at rest that retraces one which was finished catches up with it at every moment of it.
proof fn lemma_catches_up(
    p: Plan,
    g: Steps,
    max_depth: nat,
    had_w: Set<Seq<u8>>,
    f: Results,
    w: Course,
    n: nat,
    last: RunModel,
    c: Course,
    had: Set<Seq<u8>>,
)
    requires
        plans(p, g),
        forall|k: Seq<char>| #[trigger] g.contains_key(k) ==> g[k].key@ == k,
        gets_to(outset(p, g, max_depth, had_w), f, w, n),
        faithful(c, f, had, Set::empty()),
        in_turn(c.m, Set::empty()),
        keeps_up(c.m, Set::empty()),
        at_rest(c.m),
        retraces(c.m, last),
        forall|k: Seq<char>| #[trigger] g.contains_key(k) ==> c.m.steps.contains_key(k),
        forall|x: Seq<char>| #[trigger]
            w.m.steps.contains_key(x) ==> last.steps.contains_key(x) && last.steps[x]
                == w.m.steps[x],
        forall|x: Seq<char>| !#[trigger] owes(w.m, x) ==> last.outputs[x] == w.m.outputs[x],
    ensures
        catches_up(c.m, w.m),
    decreases n,
{
    if n > 0 {
        let b = choose|b: Course|
            gets_to(outset(p, g, max_depth, had_w), f, b, (n - 1) as nat) && #[trigger] goes_on(
                b,
                f,
                w,
            );
        law_a_run_is_true_to_its_actions(p, g, max_depth, had_w, f, b, (n - 1) as nat);
        lemma_steps_are_kept(b, f, had_w, w);
        assert forall|x: Seq<char>| #[trigger] b.m.steps.contains_key(x) implies
            last.steps.contains_key(x) && last.steps[x] == b.m.steps[x] by {
            assert(w.m.steps.contains_key(x));
        }
        assert forall|x: Seq<char>| !#[trigger] owes(b.m, x) implies last.outputs[x]
            == b.m.outputs[x] by {
            lemma_given_is_kept(b, f, had_w, w, x);
        }
        lemma_catches_up(
            p,
            g,
            max_depth,
            had_w,
            f,
            b,
            (n - 1) as nat,
            last,
            c,
            had,
        );
        if exists|d: Dispatch, mid: RunModel, ms: u64, now: u64, r: Result<Effect, EngineError>|
         #[trigger] serves(b, f, d, mid, ms, now, r, w) {
            let (d, mid, ms, now, r) = choose|
                d: Dispatch,
                mid: RunModel,
                ms: u64,
                now: u64,
                r: Result<Effect, EngineError>,
            | #[trigger] serves(b, f, d, mid, ms, now, r, w);
            let k = d.spec.key@;
            let made = f(d.action.0@);
            lemma_in_hand(b, f, had_w, d, mid, ms);
            let m = RunModel { saved_ms: (mid.saved_ms + ms) as u64, ..mid };
            let e = Course { m, ..b };
            lemma_same_so_far(c.m, b.m, m, last);
            let report = ReportModel {
                action: Some(d.action),
                status: NodeStatus::Hit,
                ..skipped_report(k, d.spec.kind, now)
            };
            match made.expansion {
                None => {
                    let rep = ReportModel { outputs: made.outputs, ..report };
                    lemma_catch_up_settle(c, f, had, e, had_w, rep, last);
                },
                Some(exp) => {
                    let added = key_names(r->Ok_0->Expanded_0@);
                    lemma_catch_up_expand(
                        c,
                        f,
                        had,
                        e,
                        had_w,
                        exp,
                        added,
                        report,
                        w.m,
                        last,
                    );
                },
            }
        } else if exists|d: Dispatch, mid: RunModel| #[trigger] starts(b, d, mid, w) {
            let (d, mid) = choose|d: Dispatch, mid: RunModel| #[trigger] starts(b, d, mid, w);
            assert forall|x: Seq<char>| #[trigger] owes(w.m, x) == owes(b.m, x) by {
                assert(fell_through(w.m, x) == fell_through(b.m, x));
            }
            lemma_same_so_far(c.m, b.m, w.m, last);
        } else {
            let (spec, action, output, took, r) = choose|
                spec: NodeSpec,
                action: ActionKey,
                output: NodeOutput,
                took: (u64, u64, bool, u64),
                r: Result<Effect, EngineError>,
            | #[trigger] ends(b, f, spec, action, output, took, r, w);
            let k = spec.key@;
            let made = f(action.0@);
            lemma_ending(b, f, had_w, k);
            let m = RunModel { running: b.m.running.remove(k), ..b.m };
            let e = Course { m, memo: b.memo, started: b.started.remove(k) };
            lemma_same_so_far(c.m, b.m, m, last);
            let report = |status: NodeStatus|
                result_report(
                    k,
                    spec.kind,
                    action,
                    status,
                    output,
                    took.0,
                    took.1,
                    took.2,
                    took.3,
                );
            match made.expansion {
                None => {
                    let rep = report(NodeStatus::Computed);
                    lemma_catch_up_settle(c, f, had, e, had_w, rep, last);
                },
                Some(exp) => {
                    let added = key_names(r->Ok_0->Expanded_0@);
                    let same = RunModel { attribution: m.attribution, ..w.m };
                    let rep = ReportModel {
                        outputs: Seq::empty(),
                        diagnostics: Seq::empty(),
                        ..report(NodeStatus::Expanded)
                    };
                    lemma_catch_up_expand(
                        c,
                        f,
                        had,
                        e,
                        had_w,
                        exp,
                        added,
                        rep,
                        same,
                        last,
                    );
                    assert forall|x: Seq<char>| #[trigger] owes(w.m, x) == owes(same, x) by {
                        assert(fell_through(w.m, x) == fell_through(same, x));
                    }
                    assert forall|x: Seq<char>| #[trigger]
                        w.m.steps.contains_key(x) implies c.m.steps.contains_key(x) by {
                        assert(same.steps.contains_key(x));
                    }
                },
            }
        }
    }
}

proof fn lemma_same_so_far(m: RunModel, b: RunModel, a: RunModel, last: RunModel)
    requires
        catches_up(m, b),
        a.steps == b.steps,
        a.outputs == b.outputs,
        forall|x: Seq<char>| #[trigger] owes(a, x) == owes(b, x),
        forall|x: Seq<char>| #[trigger]
            b.steps.contains_key(x) ==> last.steps.contains_key(x) && last.steps[x] == b.steps[x],
        forall|x: Seq<char>| !#[trigger] owes(b, x) ==> last.outputs[x] == b.outputs[x],
    ensures
        catches_up(m, a),
        forall|x: Seq<char>| #[trigger]
            a.steps.contains_key(x) ==> last.steps.contains_key(x) && last.steps[x] == a.steps[x],
        forall|x: Seq<char>| !#[trigger] owes(a, x) ==> last.outputs[x] == a.outputs[x],
{
    assert forall|x: Seq<char>| #[trigger] a.steps.contains_key(x) implies m.steps.contains_key(x)
        && last.steps.contains_key(x) && last.steps[x] == a.steps[x] by {
        assert(b.steps.contains_key(x));
    }
    assert forall|x: Seq<char>| !#[trigger] owes(a, x) implies !owes(m, x) && last.outputs[x]
        == a.outputs[x] by {
        assert(owes(a, x) == owes(b, x));
    }
}

/// Identical inputs cost nothing: when a run of a graph has been finished, and the memo store has
/// what it had then, another run of the graph runs nothing. Planners, repairs and whatever they
/// were expanded into are served like everything else; every node is one of the first run, and has
/// the result that it had there. When nothing is left to do, the second run has every node of the
/// first, and is finished.
pub proof fn law_a_second_run_costs_nothing(
    p: Plan,
    g: Steps,
    max_depth: nat,
    had: Set<Seq<u8>>,
    f: Results,
    first: Course,
    n: nat,
    again: Plan,
    limit: nat,
    memo: Set<Seq<u8>>,
    c: Course,
    j: nat,
)
    requires
        plans(p, g),
        plans(again, g),
        forall|k: Seq<char>| #[trigger] g.contains_key(k) ==> g[k].key@ == k,
        gets_to(outset(p, g, max_depth, had), f, first, n),
        finished(first.m),
        first.memo.subset_of(memo),
        gets_to(outset(again, g, limit, memo), f, c, j),
    ensures
        c.m.running.is_empty(),
        c.memo == memo,
        forall|k: Seq<char>| #[trigger]
            c.m.settled.contains(k) ==> c.m.reports[k].status is Hit,
        retraces(c.m, first.m),
        at_rest(c.m) ==> finished(c.m) && c.m.steps.dom() == first.m.steps.dom(),
    decreases j,
{
    let none = Set::<Seq<char>>::empty();
    law_a_run_is_true_to_its_actions(p, g, max_depth, had, f, first, n);
    law_a_run_is_true_to_its_actions(again, g, limit, memo, f, c, j);
    if j == 0 {
        assert(c.m.running =~= none);
        lemma_start_is_kept(p, g, max_depth, had, f, first, n);
    } else {
        let b = choose|b: Course|
            gets_to(outset(again, g, limit, memo), f, b, (j - 1) as nat) && #[trigger] goes_on(
                b,
                f,
                c,
            );
        law_a_second_run_costs_nothing(
            p,
            g,
            max_depth,
            had,
            f,
            first,
            n,
            again,
            limit,
            memo,
            b,
            (j - 1) as nat,
        );
        law_a_run_is_true_to_its_actions(again, g, limit, memo, f, b, (j - 1) as nat);
        if exists|d: Dispatch, mid: RunModel, ms: u64, now: u64, r: Result<Effect, EngineError>|
         #[trigger] serves(b, f, d, mid, ms, now, r, c) {
            let (d, mid, ms, now, r) = choose|
                d: Dispatch,
                mid: RunModel,
                ms: u64,
                now: u64,
                r: Result<Effect, EngineError>,
            | #[trigger] serves(b, f, d, mid, ms, now, r, c);
            lemma_retrace_serve(b, f, memo, d, mid, ms, now, r, c, first, had);
        } else if exists|d: Dispatch, mid: RunModel| #[trigger] starts(b, d, mid, c) {
            let (d, mid) = choose|d: Dispatch, mid: RunModel| #[trigger] starts(b, d, mid, c);
            let k = d.spec.key@;
            lemma_taken_faithful(b, f, memo, d, mid);
            lemma_retraced_action(b, f, memo, none, first, had, k);
            assert(false);
        } else {
            let (spec, action, output, took, r) = choose|
                spec: NodeSpec,
                action: ActionKey,
                output: NodeOutput,
                took: (u64, u64, bool, u64),
                r: Result<Effect, EngineError>,
            | #[trigger] ends(b, f, spec, action, output, took, r, c);
            assert(b.started.contains_key(spec.key@));
            assert(b.m.running.contains(spec.key@));
            assert(false);
        }
        assert(c.m.running =~= none);
    }
    assert forall|k: Seq<char>| #[trigger] c.m.settled.contains(k) implies
        c.m.reports[k].status is Hit by {
        assert(c.m.steps.contains_key(k));
        assert(fed(c.m, k));
        lemma_retraced_action(c, f, memo, none, first, had, k);
        assert(come_by(c.m, f, memo, k));
    }
    if at_rest(c.m) {
        lemma_course_keeps_up(again, g, limit, memo, f, c, j);
        lemma_start_is_kept(again, g, limit, memo, f, c, j);
        lemma_catches_up(p, g, max_depth, had, f, first, n, first.m, c, memo);
        assert forall|k: Seq<char>| #[trigger] c.m.steps.contains_key(k) implies
            c.m.settled.contains(k) && !owes(c.m, k) by {
            assert(first.m.steps.contains_key(k));
            assert(!owes(first.m, k));
        }
        assert(c.m.steps.dom() =~= first.m.steps.dom());
    }
}

proof fn lemma_retrace_serve(
    b: Course,
    f: Results,
    had: Set<Seq<u8>>,
    d: Dispatch,
    mid: RunModel,
    ms: u64,
    now: u64,
    r: Result<Effect, EngineError>,
    c: Course,
    w: Course,
    had_w: Set<Seq<u8>>,
)
    requires
        faithful(b, f, had, Set::empty()),
        in_turn(b.m, Set::empty()),
        serves(b, f, d, mid, ms, now, r, c),
        faithful(w, f, had_w, Set::empty()),
        in_turn(w.m, Set::empty()),
        finished(w.m),
        retraces(b.m, w.m),
    ensures
        retraces(c.m, w.m),
        c.m.running == b.m.running,
{
    let k = d.spec.key@;
    let made = f(d.action.0@);
    lemma_in_hand(b, f, had, d, mid, ms);
    let m = RunModel { saved_ms: (mid.saved_ms + ms) as u64, ..mid };
    let e = Course { m, ..b };
    assert(retraces(m, w.m)) by {
        assert forall|x: Seq<char>| #[trigger]
            m.steps.contains_key(x) implies w.m.steps.contains_key(x) && alike(
            m.steps[x],
            w.m.steps[x],
        ) by {
            assert(b.m.steps.contains_key(x));
        }
        assert forall|x: Seq<char>| !#[trigger] owes(m, x) implies m.outputs[x]
            == w.m.outputs[x] by {
            assert(owes(m, x) == owes(b.m, x));
        }
    }
    let report = ReportModel {
        action: Some(d.action),
        status: NodeStatus::Hit,
        ..skipped_report(k, d.spec.kind, now)
    };
    match made.expansion {
        None => {
            let rep = ReportModel { outputs: made.outputs, ..report };
            lemma_settle_calm(m, rep);
            lemma_retrace_settle(e, f, had, rep, w, had_w);
        },
        Some(exp) => {
            let added = key_names(r->Ok_0->Expanded_0@);
            lemma_retrace_expand(e, f, had, exp, added, report, c.m, w, had_w);
            let after = choose|after: RunModel|
                {
                    &&& #[trigger] expanded(m, after, k, exp.nodes@, exp.substitute@, added)
                    &&& c.m == after.delegate(report)
                };
            law_expansion_keeps_results(m, after, k, exp.nodes@, exp.substitute@, added);
        },
    }
}

/// The steps that a run set out with stay in it as they were.
pub(crate) proof fn lemma_start_is_kept(
    p: Plan,
    g: Steps,
    max_depth: nat,
    had: Set<Seq<u8>>,
    f: Results,
    c: Course,
    n: nat,
)
    requires
        plans(p, g),
        forall|k: Seq<char>| #[trigger] g.contains_key(k) ==> g[k].key@ == k,
        gets_to(outset(p, g, max_depth, had), f, c, n),
    ensures
        forall|k: Seq<char>| #[trigger]
            g.contains_key(k) ==> c.m.steps.contains_key(k) && c.m.steps[k] == g[k],
    decreases n,
{
    if n > 0 {
        let b = choose|b: Course|
            gets_to(outset(p, g, max_depth, had), f, b, (n - 1) as nat) && #[trigger] goes_on(
                b,
                f,
                c,
            );
        lemma_start_is_kept(p, g, max_depth, had, f, b, (n - 1) as nat);
        law_a_run_is_true_to_its_actions(p, g, max_depth, had, f, b, (n - 1) as nat);
        lemma_steps_are_kept(b, f, had, c);
        assert forall|k: Seq<char>| #[trigger] g.contains_key(k) implies c.m.steps.contains_key(k)
            && c.m.steps[k] == g[k] by {
            assert(b.m.steps.contains_key(k));
        }
    }
}

/// No move takes a step out of the graph, or changes one.
proof fn lemma_steps_are_kept(b: Course, f: Results, had: Set<Seq<u8>>, c: Course)
    requires
        faithful(b, f, had, Set::empty()),
        in_turn(b.m, Set::empty()),
        goes_on(b, f, c),
    ensures
        forall|k: Seq<char>| #[trigger]
            b.m.steps.contains_key(k) ==> c.m.steps.contains_key(k) && c.m.steps[k]
                == b.m.steps[k],
        (forall|a: Seq<u8>| (#[trigger] f(a)).expansion is None) ==> c.m.steps == b.m.steps,
{
    if exists|d: Dispatch, mid: RunModel, ms: u64, now: u64, r: Result<Effect, EngineError>|
     #[trigger] serves(b, f, d, mid, ms, now, r, c) {
        let (d, mid, ms, now, r) = choose|
            d: Dispatch,
            mid: RunModel,
            ms: u64,
            now: u64,
            r: Result<Effect, EngineError>,
        | #[trigger] serves(b, f, d, mid, ms, now, r, c);
        let k = d.spec.key@;
        let made = f(d.action.0@);
        lemma_in_hand(b, f, had, d, mid, ms);
        let m = RunModel { saved_ms: (mid.saved_ms + ms) as u64, ..mid };
        let report = ReportModel {
            action: Some(d.action),
            status: NodeStatus::Hit,
            ..skipped_report(k, d.spec.kind, now)
        };
        match made.expansion {
            None => {
                lemma_settle_calm(m, ReportModel { outputs: made.outputs, ..report });
            },
            Some(exp) => {
                let added = key_names(r->Ok_0->Expanded_0@);
                lemma_expanding_keeps(m, c.m, exp, added, report);
            },
        }
    } else if exists|d: Dispatch, mid: RunModel| #[trigger] starts(b, d, mid, c) {
        let (d, mid) = choose|d: Dispatch, mid: RunModel| #[trigger] starts(b, d, mid, c);
    } else {
        let (spec, action, output, took, r) = choose|
            spec: NodeSpec,
            action: ActionKey,
            output: NodeOutput,
            took: (u64, u64, bool, u64),
            r: Result<Effect, EngineError>,
        | #[trigger] ends(b, f, spec, action, output, took, r, c);
        let k = spec.key@;
        let made = f(action.0@);
        assert(b.started.contains_key(k));
        assert(b.m.running.contains(k));
        let m = RunModel { running: b.m.running.remove(k), ..b.m };
        assert forall|x: Seq<char>| !#[trigger] fell_through(m, x) by {
            assert(!fell_through(b.m, x));
        }
        assert(handed_on(m)) by {
            assert(handed_on(b.m));
        }
        assert(!m.settled.contains(k));
        let report = |status: NodeStatus|
            result_report(
                k,
                spec.kind,
                action,
                status,
                output,
                took.0,
                took.1,
                took.2,
                took.3,
            );
        match made.expansion {
            None => {
                lemma_settle_calm(m, report(NodeStatus::Computed));
            },
            Some(exp) => {
                let added = key_names(r->Ok_0->Expanded_0@);
                let same = RunModel { attribution: m.attribution, ..c.m };
                let rep = ReportModel {
                    outputs: Seq::empty(),
                    diagnostics: Seq::empty(),
                    ..report(NodeStatus::Expanded)
                };
                lemma_expanding_keeps(m, same, exp, added, rep);
            },
        }
    }
}

proof fn lemma_expanding_keeps(
    m: RunModel,
    a: RunModel,
    exp: Expansion,
    added: Seq<Seq<char>>,
    report: ReportModel,
)
    requires
        expanded_as(m, a, exp, added, report),
        forall|k: Seq<char>| #[trigger] m.steps.contains_key(k) ==> m.steps[k].key@ == k,
    ensures
        forall|k: Seq<char>| #[trigger]
            m.steps.contains_key(k) ==> a.steps.contains_key(k) && a.steps[k] == m.steps[k],
{
    let mid = choose|mid: RunModel|
        {
            &&& #[trigger] expanded(m, mid, report.key, exp.nodes@, exp.substitute@, added)
            &&& a == mid.delegate(report)
        };
    lemma_expanded_steps(m, mid, report.key, exp, added);
}

/// Is a step not as it was, or does it read something that is not as it was?
pub open spec fn moved(w: RunModel, m: RunModel, k: Seq<char>) -> bool {
    !(w.steps.contains_key(k) && alike(w.steps[k], m.steps[k]) && forall|d: Seq<char>| #[trigger]
        m.steps[k].dep_names().contains(d) ==> w.outputs[d] == m.outputs[d])
}

/// Does no other node that is settled have this node's action?
pub open spec fn alone(m: RunModel, k: Seq<char>) -> bool {
    forall|j: Seq<char>| #[trigger]
        m.settled.contains(j) && j != k ==> m.action_of(j) != m.action_of(k)
}

/// A rerun costs what moved, and nothing else: with the memo store that a finished run left, a node
/// is served if neither it nor what it reads has moved since, even where something further up was
/// run again and came to the same. A node that did move is run, unless its action has been seen
/// before.
pub proof fn law_a_rerun_runs_exactly_what_moved(
    p: Plan,
    g: Steps,
    max_depth: nat,
    had: Set<Seq<u8>>,
    f: Results,
    first: Course,
    n: nat,
    again: Plan,
    h: Steps,
    limit: nat,
    c: Course,
    j: nat,
    k: Seq<char>,
)
    requires
        plans(p, g),
        plans(again, h),
        forall|k: Seq<char>| #[trigger] g.contains_key(k) ==> g[k].key@ == k,
        forall|k: Seq<char>| #[trigger] h.contains_key(k) ==> h[k].key@ == k,
        gets_to(outset(p, g, max_depth, had), f, first, n),
        finished(first.m),
        gets_to(outset(again, h, limit, first.memo), f, c, j),
        c.m.settled.contains(k),
    ensures
        !moved(first.m, c.m, k) ==> c.m.reports[k].status is Hit,
        moved(first.m, c.m, k) && !first.memo.contains(c.m.action_of(k)) && alone(c.m, k)
            ==> c.m.reports[k].status == status_of_run(f(c.m.action_of(k))),
{
    let w = first.m;
    let m = c.m;
    law_a_run_is_true_to_its_actions(p, g, max_depth, had, f, first, n);
    law_a_run_is_true_to_its_actions(again, h, limit, first.memo, f, c, j);
    assert(come_by(m, f, first.memo, k));
    assert(fed(m, k));
    if !moved(w, m, k) {
        lemma_unmoved_action(first, f, had, c, first.memo, k);
    } else if !first.memo.contains(m.action_of(k)) && alone(m, k) {
        assert(c.memo.contains(m.action_of(k)));
        assert(was_run(m, m.action_of(k)));
        let i = choose|i: Seq<char>| #[trigger]
            m.settled.contains(i) && m.action_of(i) == m.action_of(k) && (
            m.reports[i].status is Computed || m.reports[i].status is Expanded);
        assert(i == k);
    }
}

/// Early cutoff: a node that has not moved comes out as it did, however much was run again above
/// it. So what moves is what was changed, and what reads something that moved and came out
/// otherwise.
pub proof fn law_what_has_not_moved_comes_out_the_same(
    p: Plan,
    g: Steps,
    max_depth: nat,
    had: Set<Seq<u8>>,
    f: Results,
    first: Course,
    n: nat,
    again: Plan,
    h: Steps,
    limit: nat,
    memo: Set<Seq<u8>>,
    c: Course,
    j: nat,
    k: Seq<char>,
)
    requires
        plans(p, g),
        plans(again, h),
        forall|k: Seq<char>| #[trigger] g.contains_key(k) ==> g[k].key@ == k,
        forall|k: Seq<char>| #[trigger] h.contains_key(k) ==> h[k].key@ == k,
        gets_to(outset(p, g, max_depth, had), f, first, n),
        finished(first.m),
        gets_to(outset(again, h, limit, memo), f, c, j),
        !owes(c.m, k),
        f(c.m.action_of(k)).expansion is None,
        !moved(first.m, c.m, k),
    ensures
        c.m.outputs[k] == first.m.outputs[k],
{
    let (w, m) = (first.m, c.m);
    law_a_run_is_true_to_its_actions(p, g, max_depth, had, f, first, n);
    law_a_run_is_true_to_its_actions(again, h, limit, memo, f, c, j);
    lemma_unmoved_action(first, f, had, c, memo, k);
    assert(as_made(m, f, k));
    assert(as_made(w, f, k));
}

/// A node that has not moved has the action that it had.
proof fn lemma_unmoved_action(
    first: Course,
    f: Results,
    had: Set<Seq<u8>>,
    c: Course,
    memo: Set<Seq<u8>>,
    k: Seq<char>,
)
    requires
        faithful(first, f, had, Set::empty()),
        in_turn(first.m, Set::empty()),
        finished(first.m),
        faithful(c, f, memo, Set::empty()),
        in_turn(c.m, Set::empty()),
        c.m.settled.contains(k),
        !moved(first.m, c.m, k),
    ensures
        first.m.settled.contains(k),
        first.m.action_of(k) == c.m.action_of(k),
        first.memo.contains(c.m.action_of(k)),
{
    let (w, m) = (first.m, c.m);
    assert(fed(m, k));
    assert(w.settled.contains(k));
    assert(fed(w, k));
    assert forall|d: Seq<char>| #[trigger] w.steps[k].dep_names().contains(d) implies
        w.outputs.contains_key(d) && m.outputs.contains_key(d) && w.outputs[d]
        == m.outputs[d] by {
        assert(m.steps[k].dep_names().contains(d));
        assert(!owes(w, d));
        assert(answered(w, d));
        assert(!owes(m, d));
        assert(answered(m, d));
    }
    lemma_same_action(w.steps[k], m.steps[k], w, m);
}

/// The steps of a run in which nothing is expanded are those that it set out with.
proof fn lemma_nothing_joins(
    p: Plan,
    g: Steps,
    max_depth: nat,
    had: Set<Seq<u8>>,
    f: Results,
    c: Course,
    n: nat,
)
    requires
        plans(p, g),
        forall|k: Seq<char>| #[trigger] g.contains_key(k) ==> g[k].key@ == k,
        gets_to(outset(p, g, max_depth, had), f, c, n),
        forall|a: Seq<u8>| (#[trigger] f(a)).expansion is None,
    ensures
        c.m.steps == g,
    decreases n,
{
    if n > 0 {
        let b = choose|b: Course|
            gets_to(outset(p, g, max_depth, had), f, b, (n - 1) as nat) && #[trigger] goes_on(
                b,
                f,
                c,
            );
        lemma_nothing_joins(p, g, max_depth, had, f, b, (n - 1) as nat);
        law_a_run_is_true_to_its_actions(p, g, max_depth, had, f, b, (n - 1) as nat);
        lemma_steps_are_kept(b, f, had, c);
    }
}

/// What a finished run in which nothing was expanded has produced.
proof fn lemma_all_produced(c: Course, f: Results, had: Set<Seq<u8>>)
    requires
        faithful(c, f, had, Set::empty()),
        in_turn(c.m, Set::empty()),
        finished(c.m),
        forall|a: Seq<u8>| (#[trigger] f(a)).expansion is None,
    ensures
        produced(
            c.m.steps,
            c.m.outputs.restrict(c.m.steps.dom()),
            |a: Seq<u8>| f(a).outputs,
        ),
{
    let m = c.m;
    let o = m.outputs.restrict(m.steps.dom());
    let values = |a: Seq<u8>| f(a).outputs;
    assert forall|k: Seq<char>| #[trigger] m.steps.contains_key(k) implies m.outputs.contains_key(
        k,
    ) by {
        assert(!owes(m, k));
        assert(answered(m, k));
    }
    assert(o.dom() =~= m.steps.dom());
    assert forall|k: Seq<char>| #[trigger] m.steps.contains_key(k) implies o[k] == values(
        action_digest(m.steps[k], o),
    ) by {
        assert(m.settled.contains(k));
        assert(as_made(m, f, k));
        assert(fed(m, k));
        assert(f(m.action_of(k)).expansion is None);
        let n = RunModel { outputs: o, ..m };
        assert forall|d: Seq<char>| #[trigger] m.steps[k].dep_names().contains(d) implies
            m.outputs.contains_key(d) && n.outputs.contains_key(d) && m.outputs[d]
            == n.outputs[d] by {
            assert(!owes(m, d));
            assert(m.settled.contains(d));
            assert(m.steps.contains_key(d));
        }
        lemma_same_action(m.steps[k], m.steps[k], m, n);
    }
}

/// What moves lies downstream of what was changed: where nothing is expanded, a node of a finished
/// rerun that has moved since a finished run is one of the changed steps, or reads one, directly or
/// through others.
pub proof fn law_what_moves_lies_downstream_of_a_change(
    p: Plan,
    g: Steps,
    max_depth: nat,
    had: Set<Seq<u8>>,
    f: Results,
    first: Course,
    n: nat,
    again: Plan,
    h: Steps,
    limit: nat,
    memo: Set<Seq<u8>>,
    c: Course,
    j: nat,
    changed: Seq<Seq<char>>,
    k: Seq<char>,
)
    requires
        plans(p, g),
        plans(again, h),
        forall|k: Seq<char>| #[trigger] g.contains_key(k) ==> g[k].key@ == k,
        forall|k: Seq<char>| #[trigger] h.contains_key(k) ==> h[k].key@ == k,
        forall|a: Seq<u8>| (#[trigger] f(a)).expansion is None,
        gets_to(outset(p, g, max_depth, had), f, first, n),
        finished(first.m),
        gets_to(outset(again, h, limit, memo), f, c, j),
        finished(c.m),
        g.dom() == h.dom(),
        forall|x: Seq<char>| #[trigger]
            g.contains_key(x) && !changed.contains(x) ==> same_step(g[x], h[x]),
        h.contains_key(k),
        moved(first.m, c.m, k),
    ensures
        reachable(downstream(g), changed, k),
{
    let (w, m) = (first.m, c.m);
    let values = |a: Seq<u8>| f(a).outputs;
    law_a_run_is_true_to_its_actions(p, g, max_depth, had, f, first, n);
    law_a_run_is_true_to_its_actions(again, h, limit, memo, f, c, j);
    lemma_nothing_joins(p, g, max_depth, had, f, first, n);
    lemma_nothing_joins(again, h, limit, memo, f, c, j);
    lemma_all_produced(first, f, had);
    lemma_all_produced(c, f, memo);
    let o1 = w.outputs.restrict(g.dom());
    let o2 = m.outputs.restrict(h.dom());
    let e = downstream(g);
    assert(g.dom().contains(k));
    if !reachable(e, changed, k) {
        assert(!changed.contains(k)) by {
            if changed.contains(k) {
                let i = choose|i: int| 0 <= i < changed.len() && changed[i] == k;
                lemma_reach_root(e, changed, i);
            }
        }
        assert(g.contains_key(k));
        assert(same_step(g[k], h[k]));
        assert(g[k].dep_names() == h[k].dep_names());
        assert(w.steps.contains_key(k) && alike(w.steps[k], m.steps[k]));
        assert(m.settled.contains(k));
        assert(fed(m, k));
        assert forall|d: Seq<char>| #[trigger] m.steps[k].dep_names().contains(d) implies
            w.outputs[d] == m.outputs[d] by {
            assert(!owes(m, d));
            assert(m.settled.contains(d));
            assert(m.steps.contains_key(d));
            assert(h.dom().contains(d));
            assert(g.contains_key(d));
            if reachable(e, changed, d) {
                assert(depends(g, k, d));
                assert(e(d, k));
                lemma_reach_step(e, changed, d, k);
            }
            law_only_the_dirty_closure_moves(
                g,
                h,
                key_names(p.topo@),
                changed,
                o1,
                o2,
                values,
                d,
            );
        }
    }
}

} // verus!
