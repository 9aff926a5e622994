//! No node runs before its turn: a node is looked up, and so run, only when everything that it
//! depends on has given its result.

use crate::engine::exec::Expansion;
use crate::engine::graph::batch_order;
use crate::engine::graph::in_dependency_order;
use crate::engine::graph::key_names;
use crate::engine::graph::law_batch_order_loses_no_step;
use crate::engine::graph::law_batch_order_respects_dependencies;
use crate::engine::graph::lemma_filtered;
use crate::engine::graph::lemma_unrepeated;
use crate::engine::graph::may_all_join;
use crate::engine::graph::may_join;
use crate::engine::graph::plans;
use crate::engine::graph::put_all;
use crate::engine::graph::ready;
use crate::engine::graph::siblings_placed;
use crate::engine::graph::step_names;
use crate::engine::graph::NodeSpec;
use crate::engine::graph::Plan;
use crate::engine::graph::Steps;
use crate::engine::progress::keeps_up;
use crate::engine::progress::law_no_node_waits_for_nothing;
use crate::engine::progress::lemma_all_open;
use crate::engine::progress::lemma_open_is_owed;
use crate::engine::progress::lemma_owed_up_to;
use crate::engine::progress::lemma_put_all;
use crate::engine::progress::lemma_release;
use crate::engine::progress::lemma_times_contains;
use crate::engine::progress::lemma_times_distinct;
use crate::engine::progress::lemma_waiting_on;
use crate::engine::progress::owed;
use crate::engine::progress::times;
use crate::engine::report::NodeStatus;
use crate::engine::report::ReportModel;
use crate::engine::run::turns;
use crate::engine::run::Turn;
use crate::engine::scheduler::all_spliced;
use crate::engine::scheduler::completes;
use crate::engine::scheduler::expanded;
use crate::engine::scheduler::expanded_as;
use crate::engine::scheduler::fell_through;
use crate::engine::scheduler::gave_nothing;
use crate::engine::scheduler::hits;
use crate::engine::scheduler::lemma_join_keeps;
use crate::engine::scheduler::name_lists;
use crate::engine::scheduler::owes;
use crate::engine::scheduler::qualified;
use crate::engine::scheduler::result_report;
use crate::engine::scheduler::resumed_report;
use crate::engine::scheduler::resumes;
use crate::engine::scheduler::skipped_report;
use crate::engine::scheduler::splice_prefix;
use crate::engine::scheduler::takes;
use crate::engine::scheduler::Dispatch;
use crate::engine::scheduler::Effect;
use crate::engine::scheduler::EngineError;
use crate::engine::scheduler::RunModel;
use crate::identity::ActionKey;
use crate::identity::Attribution;
use crate::identity::Digest;
use crate::identity::NodeOutput;
use crate::reach::edge;
use crate::reach::lemma_ascending_distinct;
use crate::reach::walk;
use crate::store::journal::JournalEntry;
use vstd::prelude::*;

verus! {

/// Is there a usable result for this node?
pub open spec fn answered(m: RunModel, d: Seq<char>) -> bool {
    &&& m.outputs.contains_key(d)
    &&& m.reports.contains_key(d)
    &&& !gave_nothing(m.reports[d].status)
}

/// Does a node that is not settled wait for exactly those of its dependencies that still owe their
/// results, counting those of `more` among them? And if it was there from the start, has none of
/// the others failed it?
pub open spec fn waits_exactly(m: RunModel, more: Set<Seq<char>>, c: Seq<char>) -> bool {
    let ds = m.reads(c);
    &&& m.pending.contains_key(c)
    &&& m.pending[c] == owed(m, more, ds)
    &&& !m.depth.contains_key(c) ==> forall|d: Seq<char>| #[trigger]
        ds.contains(d) && !more.contains(d) ==> !fell_through(m, d)
}

/// Is there a usable result for every node that owes none, but for those of `more`?
pub open spec fn all_answered(m: RunModel, more: Set<Seq<char>>) -> bool {
    forall|d: Seq<char>| !#[trigger] owes(m, d) && !more.contains(d) ==> answered(m, d)
}

/// Has each node that handed its identity on one node that answers in its place, and was it not a
/// failure itself?
pub open spec fn handed_on(m: RunModel) -> bool {
    &&& m.delegated.dom().finite()
    &&& forall|s: Seq<char>| #[trigger]
        m.delegated.contains_key(s) ==> {
            let p = m.delegated[s];
            &&& m.steps.contains_key(s)
            &&& m.settled.contains(p)
            &&& m.reports.contains_key(p)
            &&& !gave_nothing(m.reports[p].status)
        }
    &&& forall|s: Seq<char>, t: Seq<char>| #[trigger]
        m.delegated.contains_key(s) && #[trigger] m.delegated.contains_key(t) && m.delegated[s]
            == m.delegated[t] ==> s == t
}

/// Does the state speak of no node but these?
pub open spec fn only_of(m: RunModel, in_hand: Set<Seq<char>>, among: Set<Seq<char>>) -> bool {
    forall|c: Seq<char>|
        !#[trigger] among.contains(c) ==> {
            &&& !m.pending.contains_key(c)
            &&& !m.ready.contains(c)
            &&& !m.running.contains(c)
            &&& !m.settled.contains(c)
            &&& !in_hand.contains(c)
            &&& forall|d: Seq<char>| #[trigger] times(m.children(d), c) == 0
        }
}

/// Is what runs not settled, and what is in hand neither settled nor running?
pub open spec fn under_way(m: RunModel, in_hand: Set<Seq<char>>) -> bool {
    &&& forall|c: Seq<char>| #[trigger] m.running.contains(c) ==> !m.settled.contains(c)
    &&& forall|c: Seq<char>| #[trigger]
        in_hand.contains(c) ==> !m.settled.contains(c) && !m.running.contains(c)
}

/// Is each of these nodes in its turn, where those of `more` are counted as owing?
pub open spec fn ordered(
    m: RunModel,
    more: Set<Seq<char>>,
    in_hand: Set<Seq<char>>,
    among: Set<Seq<char>>,
) -> bool {
    &&& handed_on(m)
    &&& only_of(m, in_hand, among)
    &&& under_way(m, in_hand)
    &&& all_answered(m, more)
    &&& forall|c: Seq<char>, d: Seq<char>|
        among.contains(c) ==> times(m.reads(c), d) == #[trigger] times(
            m.children(d),
            c,
        )
    &&& forall|c: Seq<char>|
        #![trigger waits_exactly(m, more, c)]
        among.contains(c) && !m.settled.contains(c) ==> waits_exactly(m, more, c)
    &&& forall|c: Seq<char>| #[trigger]
        among.contains(c) && !m.settled.contains(c) && (m.ready.contains(c) || m.running.contains(c)
            || in_hand.contains(c)) ==> m.pending[c] == 0
}

/// Is every node in its turn? `in_hand` are the nodes that were taken from the queue and not yet
/// started or settled.
pub open spec fn in_turn(m: RunModel, in_hand: Set<Seq<char>>) -> bool {
    ordered(m, Set::empty(), in_hand, m.steps.dom())
}

proof fn lemma_owed_with(m: RunModel, more: Set<Seq<char>>, k: Seq<char>, ds: Seq<Seq<char>>)
    requires
        !more.contains(k),
        !owes(m, k),
    ensures
        owed(m, more.insert(k), ds) == owed(m, more, ds) + times(ds, k),
    decreases ds.len(),
{
    if ds.len() > 0 {
        lemma_owed_with(m, more, k, ds.drop_last());
    }
}

proof fn lemma_none_owed(m: RunModel, more: Set<Seq<char>>, ds: Seq<Seq<char>>, i: int)
    requires
        owed(m, more, ds) == 0,
        0 <= i < ds.len(),
    ensures
        !more.contains(ds[i]),
        !owes(m, ds[i]),
    decreases ds.len(),
{
    if i < ds.len() - 1 {
        lemma_none_owed(m, more, ds.drop_last(), i);
    }
}

/// Where the same nodes are waited for in two states, as many are.
proof fn lemma_owed_same(
    m: RunModel,
    more: Set<Seq<char>>,
    n: RunModel,
    others: Set<Seq<char>>,
    ds: Seq<Seq<char>>,
)
    requires
        forall|d: Seq<char>| #[trigger]
            ds.contains(d) ==> (more.contains(d) || owes(m, d) <==> others.contains(d) || owes(
                n,
                d,
            )),
    ensures
        owed(m, more, ds) == owed(n, others, ds),
{
    lemma_owed_up_to(m, more, n, others, ds);
    lemma_owed_up_to(n, others, m, more, ds);
}

/// Nodes are in their turn before anything has run.
pub proof fn law_a_run_starts_in_order(p: Plan, g: Steps, max_depth: nat)
    requires
        plans(p, g),
    ensures
        in_turn(
            (RunModel {
                dependents: name_lists(p.dependents@),
                ..RunModel::start(g, key_names(p.topo@), max_depth)
            }),
            Set::empty(),
        ),
{
    let none = Set::<Seq<char>>::empty();
    let t = key_names(p.topo@);
    let m = RunModel { dependents: name_lists(p.dependents@), ..RunModel::start(g, t, max_depth) };
    let first = |k: Seq<char>| g[k].deps@.len() == 0;
    assert forall|d: Seq<char>, c: Seq<char>|
        #![trigger times(m.children(d), c)]
        m.children(d).contains(c) implies g.contains_key(c) && g[c].dep_names().contains(d) by {
        assert(edge(p.dependents@, d, c));
    }
    assert forall|c: Seq<char>, d: Seq<char>| m.steps.dom().contains(c) implies times(
        m.reads(c),
        d,
    ) == #[trigger] times(m.children(d), c) by {
        let ds = m.reads(c);
        lemma_unrepeated(g[c].dep_names());
        lemma_times_distinct(ds, d);
        lemma_times_contains(ds, d);
        lemma_times_contains(m.children(d), c);
        assert(edge(p.dependents@, d, c) <==> ds.contains(d));
        if p.dependents@.contains_key(d) {
            lemma_ascending_distinct(m.children(d));
            lemma_times_distinct(m.children(d), c);
        }
    }
    assert forall|c: Seq<char>|
        #![trigger waits_exactly(m, none, c)]
        m.steps.dom().contains(c) && !m.settled.contains(c) implies waits_exactly(m, none, c) by {
        lemma_all_open(m, m.reads(c));
        lemma_open_is_owed(m, m.reads(c));
    }
    assert forall|c: Seq<char>| m.ready.contains(c) implies t.contains(c) && m.pending[c] == 0 by {
        t.lemma_filter_contains_rev(first, c);
        let i = choose|i: int| 0 <= i < m.ready.len() && m.ready[i] == c;
        lemma_filtered(t, first, i);
        lemma_unrepeated(g[c].dep_names());
    }
    assert forall|c: Seq<char>| !#[trigger] m.steps.dom().contains(c) implies {
        &&& !m.pending.contains_key(c)
        &&& !m.ready.contains(c)
        &&& forall|d: Seq<char>| #[trigger] times(m.children(d), c) == 0
    } by {
        assert(!t.contains(c));
        assert forall|d: Seq<char>| #[trigger] times(m.children(d), c) == 0 by {
            lemma_times_contains(m.children(d), c);
        }
    }
}

/// A node that has its result is followed up: then it need not be counted as owing.
proof fn lemma_follow(
    m: RunModel,
    more: Set<Seq<char>>,
    in_hand: Set<Seq<char>>,
    k: Seq<char>,
    status: NodeStatus,
    now: u64,
)
    requires
        ordered(m, more.insert(k), in_hand, m.steps.dom()),
        !more.contains(k),
        m.settled.contains(k),
        if gave_nothing(status) {
            fell_through(m, k)
        } else {
            !owes(m, k) && answered(m, k)
        },
    ensures
        ({
            let a = m.follow(k, status, now);
            &&& ordered(a, more, in_hand, m.steps.dom())
            &&& a.steps == m.steps
            &&& a.delegated == m.delegated
            &&& a.outputs == m.outputs
            &&& m.settled.subset_of(a.settled)
            &&& forall|x: Seq<char>| #[trigger]
                m.settled.contains(x) ==> (m.reports.contains_key(x) <==> a.reports.contains_key(
                    x,
                )) && (m.reports.contains_key(x) ==> m.reports[x] == a.reports[x])
        }),
{
    let a = m.follow(k, status, now);
    let dom = m.steps.dom();
    let e = m.open_edge();
    assert forall|x: Seq<char>| m.cut_off(k, x) implies !m.settled.contains(x) && dom.contains(
        x,
    ) by {
        let n = choose|n: nat| n > 0 && #[trigger] walk(e, k, x, n);
        let c = choose|c: Seq<char>| walk(e, k, c, (n - 1) as nat) && #[trigger] e(c, x);
        lemma_times_contains(m.children(c), x);
        assert(times(m.children(c), x) > 0);
    }
    assert forall|c: Seq<char>|
        #![trigger m.cut_off(k, c)]
        m.running.contains(c) || in_hand.contains(c) implies !m.cut_off(k, c) by {
        if m.cut_off(k, c) {
            let n = choose|n: nat| n > 0 && #[trigger] walk(e, k, c, n);
            let d = choose|d: Seq<char>| walk(e, k, d, (n - 1) as nat) && #[trigger] e(d, c);
            if n > 1 {
                assert(m.cut_off(k, d));
            }
            let ds = m.reads(c);
            lemma_times_contains(m.children(d), c);
            assert(times(ds, d) == times(m.children(d), c));
            lemma_times_contains(ds, d);
            let i = choose|i: int| 0 <= i < ds.len() && ds[i] == d;
            assert(dom.contains(c));
            assert(!m.settled.contains(c));
            assert(waits_exactly(m, more.insert(k), c));
            assert(m.pending[c] == 0);
            lemma_none_owed(m, more.insert(k), ds, i);
        }
    }
    assert(under_way(a, in_hand)) by {
        assert forall|c: Seq<char>| #[trigger] a.running.contains(c) implies !a.settled.contains(
            c,
        ) by {
            assert(m.running.contains(c));
            assert(!m.settled.contains(c) && !m.cut_off(k, c));
        }
        assert forall|c: Seq<char>| #[trigger] in_hand.contains(c) implies !a.settled.contains(c)
            && !a.running.contains(c) by {
            assert(!m.cut_off(k, c));
        }
    }
    assert(handed_on(a));
    assert forall|d: Seq<char>| #[trigger] a.children(d) == m.children(d) by {}
    assert forall|c: Seq<char>, d: Seq<char>| dom.contains(c) implies times(
        a.reads(c),
        d,
    ) == #[trigger] times(a.children(d), c) by {
        assert(times(m.reads(c), d) == times(m.children(d), c));
    }
    lemma_release(m.children(k), m.pending, m.ready, m.settled);
    assert(only_of(a, in_hand, dom)) by {
        assert forall|c: Seq<char>| !#[trigger] dom.contains(c) implies {
            &&& !a.pending.contains_key(c)
            &&& !a.ready.contains(c)
            &&& !a.running.contains(c)
            &&& !a.settled.contains(c)
            &&& !in_hand.contains(c)
            &&& forall|d: Seq<char>| #[trigger] times(a.children(d), c) == 0
        } by {
            assert(!m.pending.contains_key(c));
            assert forall|d: Seq<char>| #[trigger] times(a.children(d), c) == 0 by {
                assert(times(m.children(d), c) == 0);
            }
        }
    }
    assert(all_answered(a, more)) by {
        assert forall|d: Seq<char>| !#[trigger] owes(a, d) && !more.contains(d) implies answered(
            a,
            d,
        ) by {
            if gave_nothing(status) && m.cut_off(k, d) {
                assert(fell_through(a, d));
            } else if d != k {
                assert(!owes(m, d));
                assert(!more.insert(k).contains(d));
            }
        }
    }
    assert forall|c: Seq<char>|
        #![trigger waits_exactly(a, more, c)]
        dom.contains(c) && !a.settled.contains(c) implies waits_exactly(a, more, c) by {
        let ds = m.reads(c);
        assert(waits_exactly(m, more.insert(k), c));
        assert(times(ds, k) == times(m.children(k), c));
        if gave_nothing(status) {
            assert forall|d: Seq<char>| #[trigger] ds.contains(d) implies d != k && !m.cut_off(
                k,
                d,
            ) by {
                lemma_times_contains(ds, d);
                assert(times(ds, d) == times(m.children(d), c));
                lemma_times_contains(m.children(d), c);
                assert(e(d, c));
                if d == k {
                    assert(walk(e, k, k, 0));
                    assert(walk(e, k, c, 1));
                    assert(m.cut_off(k, c));
                }
                if m.cut_off(k, d) {
                    let n = choose|n: nat| n > 0 && #[trigger] walk(e, k, d, n);
                    assert(walk(e, k, c, n + 1));
                    assert(m.cut_off(k, c));
                }
            }
            lemma_owed_same(m, more.insert(k), a, more, ds);
        } else {
            lemma_owed_with(m, more, k, ds);
            lemma_owed_same(m, more, a, more, ds);
            assert(m.pending.contains_key(c));
        }
    }
    assert forall|c: Seq<char>| #[trigger]
        dom.contains(c) && !a.settled.contains(c) && (a.ready.contains(c) || a.running.contains(c)
            || in_hand.contains(c)) implies a.pending[c] == 0 by {
        assert(waits_exactly(m, more.insert(k), c));
        assert(m.pending.contains_key(c));
    }
}

/// Passing an answer on along the nodes whose identity it carries leaves every node in its turn.
proof fn lemma_resolve(
    m: RunModel,
    more: Set<Seq<char>>,
    in_hand: Set<Seq<char>>,
    k: Seq<char>,
    outputs: Seq<Digest>,
    diagnostics: Seq<Seq<char>>,
    status: NodeStatus,
    now: u64,
)
    requires
        ordered(m, more, in_hand, m.steps.dom()),
        forall|x: Seq<char>| #[trigger]
            more.contains(x) ==> m.settled.contains(x) && !m.delegated.contains_value(x),
    ensures
        ({
            let r = m.resolve(k, outputs, diagnostics, status, now);
            &&& ordered(r, more, in_hand, m.steps.dom())
            &&& r.steps == m.steps
            &&& forall|x: Seq<char>| #[trigger]
                more.contains(x) ==> {
                    &&& r.settled.contains(x)
                    &&& !r.delegated.contains_value(x)
                    &&& answered(m, x) ==> answered(r, x)
                    &&& fell_through(m, x) ==> fell_through(r, x)
                }
        }),
    decreases m.delegated.dom().len(),
{
    if m.delegated.contains_key(k) {
        let parent = m.delegated[k];
        let handed = m.pass_on(parent, outputs, diagnostics, status);
        let b = RunModel { delegated: m.delegated.remove(k), ..handed };
        let dom = m.steps.dom();
        let wide = more.insert(parent);
        assert(m.delegated.contains_value(parent));
        assert(!b.delegated.contains_value(parent)) by {
            if b.delegated.contains_value(parent) {
                let s = choose|s: Seq<char>| #[trigger]
                    b.delegated.contains_key(s) && b.delegated[s] == parent;
                assert(m.delegated.contains_key(s));
            }
        }
        assert forall|d: Seq<char>| #[trigger] owes(m, d) <==> owes(b, d) || d == parent by {
            if m.delegated.contains_value(d) {
                let s = choose|s: Seq<char>| #[trigger]
                    m.delegated.contains_key(s) && m.delegated[s] == d;
                if s != k {
                    assert(b.delegated.contains_key(s) && b.delegated[s] == d);
                }
            }
            if b.delegated.contains_value(d) {
                let s = choose|s: Seq<char>| #[trigger]
                    b.delegated.contains_key(s) && b.delegated[s] == d;
                assert(m.delegated.contains_key(s) && m.delegated[s] == d);
            }
        }
        assert(handed_on(b)) by {
            assert forall|s: Seq<char>| #[trigger] b.delegated.contains_key(s) implies {
                let p = b.delegated[s];
                &&& b.steps.contains_key(s)
                &&& b.settled.contains(p)
                &&& b.reports.contains_key(p)
                &&& !gave_nothing(b.reports[p].status)
            } by {
                assert(m.delegated.contains_key(s));
            }
            assert forall|s: Seq<char>, t: Seq<char>| #[trigger]
                b.delegated.contains_key(s) && #[trigger] b.delegated.contains_key(t)
                    && b.delegated[s] == b.delegated[t] implies s == t by {
                assert(m.delegated.contains_key(s) && m.delegated.contains_key(t));
            }
        }
        assert forall|c: Seq<char>, d: Seq<char>| dom.contains(c) implies times(
            b.reads(c),
            d,
        ) == #[trigger] times(b.children(d), c) by {
            assert(b.children(d) == m.children(d));
            assert(times(m.reads(c), d) == times(m.children(d), c));
        }
        assert(only_of(b, in_hand, dom)) by {
            assert forall|c: Seq<char>| !#[trigger] dom.contains(c) implies forall|d: Seq<char>|
             #[trigger] times(b.children(d), c) == 0 by {
                assert forall|d: Seq<char>| #[trigger] times(b.children(d), c) == 0 by {
                    assert(b.children(d) == m.children(d));
                    assert(times(m.children(d), c) == 0);
                }
            }
        }
        assert forall|c: Seq<char>|
            #![trigger waits_exactly(b, wide, c)]
            dom.contains(c) && !b.settled.contains(c) implies waits_exactly(b, wide, c) by {
            assert(waits_exactly(m, more, c));
            let ds = m.reads(c);
            assert forall|d: Seq<char>| #[trigger] ds.contains(d) implies (more.contains(d)
                || owes(m, d) <==> wide.contains(d) || owes(b, d)) by {
                assert(owes(m, d) <==> owes(b, d) || d == parent);
            }
            lemma_owed_same(m, more, b, wide, ds);
        }
        assert(all_answered(b, wide)) by {
            assert forall|d: Seq<char>| !#[trigger] owes(b, d) && !wide.contains(d) implies answered(
                b,
                d,
            ) by {
                assert(owes(m, d) <==> owes(b, d) || d == parent);
                assert(answered(m, d));
            }
        }
        assert(ordered(b, wide, in_hand, dom));
        assert(m.settled.contains(parent) && m.reports.contains_key(parent));
        lemma_follow(b, more, in_hand, parent, status, now);
        let c = b.follow(parent, status, now);
        assert forall|x: Seq<char>| #[trigger] more.contains(x) implies c.settled.contains(x)
            && !c.delegated.contains_value(x) && (answered(m, x) ==> answered(c, x)) && (
        fell_through(m, x) ==> fell_through(c, x)) by {
            assert(b.settled.contains(x));
            assert(x != parent);
            if c.delegated.contains_value(x) {
                let s = choose|s: Seq<char>| #[trigger]
                    c.delegated.contains_key(s) && c.delegated[s] == x;
                assert(m.delegated.contains_key(s) && m.delegated[s] == x);
            }
        }
        lemma_resolve(c, more, in_hand, parent, outputs, diagnostics, status, now);
    }
}

/// A node that is settled leaves every node in its turn.
pub proof fn law_settling_keeps_order(m: RunModel, report: ReportModel)
    requires
        in_turn(m, set![report.key]),
    ensures
        in_turn(m.settle(report), Set::empty()),
        m.settle(report).steps == m.steps,
{
    let key = report.key;
    let none = Set::<Seq<char>>::empty();
    let one = none.insert(key);
    let dom = m.steps.dom();
    assert(dom.contains(key)) by {
        assert(set![key].contains(key));
    }
    {
        let e = m.enter(report);
        let now = report.finished_at_ms;
        assert(set![key].contains(key));
        assert(!m.settled.contains(key) && !m.running.contains(key));
        assert(under_way(e, none));
        assert(!m.delegated.contains_value(key)) by {
            if m.delegated.contains_value(key) {
                let s = choose|s: Seq<char>| #[trigger]
                    m.delegated.contains_key(s) && m.delegated[s] == key;
                assert(m.settled.contains(key));
            }
        }
        assert(handed_on(e)) by {
            assert forall|s: Seq<char>| #[trigger] e.delegated.contains_key(s) implies {
                let p = e.delegated[s];
                &&& e.steps.contains_key(s)
                &&& e.settled.contains(p)
                &&& e.reports.contains_key(p)
                &&& !gave_nothing(e.reports[p].status)
            } by {
                assert(m.delegated.contains_key(s));
                assert(m.delegated[s] != key);
            }
        }
        assert forall|c: Seq<char>, d: Seq<char>| dom.contains(c) implies times(
            e.reads(c),
            d,
        ) == #[trigger] times(e.children(d), c) by {
            assert(e.children(d) == m.children(d));
            assert(times(m.reads(c), d) == times(m.children(d), c));
        }
        assert(only_of(e, none, dom)) by {
            assert forall|c: Seq<char>| !#[trigger] dom.contains(c) implies forall|d: Seq<char>|
             #[trigger] times(e.children(d), c) == 0 by {
                assert forall|d: Seq<char>| #[trigger] times(e.children(d), c) == 0 by {
                    assert(e.children(d) == m.children(d));
                    assert(times(m.children(d), c) == 0);
                }
            }
        }
        assert forall|c: Seq<char>|
            #![trigger waits_exactly(e, one, c)]
            dom.contains(c) && !e.settled.contains(c) implies waits_exactly(e, one, c) by {
            assert(waits_exactly(m, none, c));
            let ds = m.reads(c);
            lemma_owed_same(m, none, e, one, ds);
        }
        assert(all_answered(e, one)) by {
            assert forall|d: Seq<char>| !#[trigger] owes(e, d) && !one.contains(d) implies answered(
                e,
                d,
            ) by {
                assert(!owes(m, d));
                assert(answered(m, d));
            }
        }
        lemma_resolve(
            e,
            one,
            none,
            key,
            report.outputs,
            report.diagnostics,
            report.status,
            now,
        );
        let r = e.resolve(key, report.outputs, report.diagnostics, report.status, now);
        assert(one.contains(key));
        lemma_follow(r, none, none, key, report.status, now);
    }
}

/// Steps that join a run wait for exactly what has not been answered.
proof fn lemma_join(
    m: RunModel,
    in_hand: Set<Seq<char>>,
    among: Set<Seq<char>>,
    added: Seq<Seq<char>>,
    depth: nat,
)
    requires
        ordered(m, Set::empty(), in_hand, among),
        added.no_duplicates(),
        forall|i: int|
            0 <= i < added.len() ==> m.steps.contains_key(#[trigger] added[i]) && !among.contains(
                added[i],
            ),
    ensures
        ({
            let a = m.join(added, depth);
            &&& ordered(a, Set::empty(), in_hand, among.union(added.to_set()))
            &&& a.steps == m.steps
            &&& a.settled == m.settled
            &&& a.delegated == m.delegated
            &&& a.running == m.running
            &&& a.outputs == m.outputs
            &&& a.reports == m.reports
        }),
    decreases added.len(),
{
    let none = Set::<Seq<char>>::empty();
    if added.len() == 0 {
        assert(among.union(added.to_set()) =~= among);
    } else {
        let w = added.drop_last();
        let k = added.last();
        let last = added.len() - 1;
        assert(added[last] == k);
        assert forall|i: int| 0 <= i < w.len() implies m.steps.contains_key(#[trigger] w[i])
            && !among.contains(w[i]) && w[i] != k by {
            assert(w[i] == added[i]);
        }
        lemma_join(m, in_hand, among, w, depth);
        let b = m.join(w, depth);
        let a = m.join(added, depth);
        let ds = b.reads(k);
        let wide = among.union(w.to_set());
        let whole = wide.insert(k);
        assert(among.union(added.to_set()) =~= whole) by {
            assert(added =~= w.push(k));
            assert forall|x: Seq<char>| #[trigger]
                added.contains(x) <==> w.contains(x) || x == k by {
                if w.contains(x) {
                    let i = choose|i: int| 0 <= i < w.len() && w[i] == x;
                    assert(added[i] == x);
                }
                if added.contains(x) {
                    let i = choose|i: int| 0 <= i < added.len() && added[i] == x;
                    if i < w.len() {
                        assert(w[i] == x);
                    }
                }
            }
        }
        assert(!wide.contains(k));
        lemma_waiting_on(b.dependents, ds, k, b, a);
        assert forall|d: Seq<char>| #[trigger] owes(a, d) <==> owes(b, d) by {}
        assert forall|c: Seq<char>, d: Seq<char>| whole.contains(c) implies times(
            a.reads(c),
            d,
        ) == #[trigger] times(a.children(d), c) by {
            if c == k {
                assert(times(b.children(d), k) == 0);
            } else {
                assert(times(b.reads(c), d) == times(b.children(d), c));
            }
        }
        assert forall|c: Seq<char>| #[trigger] a.ready.contains(c) implies b.ready.contains(c) || (c
            == k && a.pending[k] == 0) by {
            let i = choose|i: int| 0 <= i < a.ready.len() && a.ready[i] == c;
            if i < b.ready.len() {
                assert(b.ready[i] == c);
            }
        }
        assert(only_of(a, in_hand, whole)) by {
            assert forall|c: Seq<char>| !#[trigger] whole.contains(c) implies {
                &&& !a.pending.contains_key(c)
                &&& !a.ready.contains(c)
                &&& !a.running.contains(c)
                &&& !a.settled.contains(c)
                &&& !in_hand.contains(c)
                &&& forall|d: Seq<char>| #[trigger] times(a.children(d), c) == 0
            } by {
                assert(!wide.contains(c));
                assert forall|d: Seq<char>| #[trigger] times(a.children(d), c) == 0 by {
                    assert(times(b.children(d), c) == 0);
                }
            }
        }
        assert forall|c: Seq<char>|
            #![trigger waits_exactly(a, none, c)]
            whole.contains(c) && !a.settled.contains(c) implies waits_exactly(a, none, c) by {
            let cs = a.reads(c);
            lemma_owed_same(b, none, a, none, cs);
            if c == k {
                lemma_open_is_owed(b, ds);
            } else {
                assert(waits_exactly(b, none, c));
                if !a.depth.contains_key(c) {
                    assert(!b.depth.contains_key(c));
                }
            }
        }
        assert(all_answered(a, none)) by {
            assert forall|d: Seq<char>| !#[trigger] owes(a, d) && !none.contains(
                d,
            ) implies answered(a, d) by {
                assert(!owes(b, d));
            }
        }
        assert forall|c: Seq<char>| #[trigger]
            whole.contains(c) && !a.settled.contains(c) && (a.ready.contains(c)
                || a.running.contains(c) || in_hand.contains(c)) implies a.pending[c] == 0 by {
            if c != k {
                assert(wide.contains(c));
            }
        }
    }
}

/// A node that is expanded leaves every node in its turn: its dependents wait for the node that
/// stands in for it, and the new steps for whatever they depend on.
pub proof fn law_expanding_keeps_order(
    m: RunModel,
    mid: RunModel,
    nodes: Seq<NodeSpec>,
    substitute: Seq<char>,
    added: Seq<Seq<char>>,
    report: ReportModel,
)
    requires
        in_turn(m, set![report.key]),
        expanded(m, mid, report.key, nodes, substitute, added),
        !gave_nothing(report.status),
    ensures
        in_turn(mid.delegate(report), Set::empty()),
{
    broadcast use vstd::seq_lib::group_to_multiset_ensures;

    let parent = report.key;
    let none = Set::<Seq<char>>::empty();
    let one = set![parent];
    let prefix = splice_prefix(parent);
    let siblings = step_names(nodes);
    let qs = choose|qs: Seq<NodeSpec>|
        {
            &&& #[trigger] all_spliced(prefix, siblings, nodes, qs)
            &&& ({
                let (order, stuck) = batch_order(qs, step_names(qs).to_set(), Set::empty());
                let grown = RunModel { steps: put_all(m.steps, order), ..m };
                let joined = grown.join(step_names(order), m.depth_of(parent) + 1);
                &&& stuck.len() == 0
                &&& may_all_join(m.steps, qs)
                &&& added == step_names(order)
                &&& mid == RunModel {
                    delegated: joined.delegated.insert(
                        qualified(prefix, siblings, substitute),
                        parent,
                    ),
                    ..joined
                }
            })
        };
    let (order, stuck) = batch_order(qs, step_names(qs).to_set(), Set::empty());
    let grown = RunModel { steps: put_all(m.steps, order), ..m };
    let depth = m.depth_of(parent) + 1;
    let joined = grown.join(added, depth);
    let sub = qualified(prefix, siblings, substitute);
    let a = mid.delegate(report);
    let dom = m.steps.dom();
    assert(one.contains(parent));
    lemma_put_all(m.steps, order);
    law_batch_order_loses_no_step(qs, step_names(qs).to_set(), Set::empty());
    assert(stuck =~= Seq::empty());
    assert(order.to_multiset() =~= qs.to_multiset());
    assert forall|i: int|
        #![trigger order[i]]
        0 <= i < order.len() implies exists|j: int|
        0 <= j < qs.len() && #[trigger] qs[j] == order[i] by {
        assert(order.contains(order[i]));
        assert(order.to_multiset().count(order[i]) > 0);
        assert(qs.contains(order[i]));
    }
    assert forall|i: int, j: int| 0 <= i < qs.len() && 0 <= j < qs.len() && i != j implies qs[i].key@
        != qs[j].key@ by {
        assert(step_names(qs)[i] != step_names(qs)[j]);
    }
    assert(added.no_duplicates()) by {
        lemma_distinct_kept(qs, order);
    }
    assert forall|i: int| 0 <= i < added.len() implies grown.steps.contains_key(
        #[trigger] added[i],
    ) && !dom.contains(added[i]) by {
        assert(added.contains(added[i]));
        let j = choose|j: int| 0 <= j < qs.len() && #[trigger] qs[j] == order[i];
        assert(may_join(m.steps, step_names(qs), qs[j]));
    }
    assert(added.contains(sub)) by {
        let j = choose|j: int| 0 <= j < nodes.len() && siblings[j] == substitute;
        assert(qs[j].key@ == prefix + nodes[j].key@);
        assert(qs.contains(qs[j]));
        assert(qs.to_multiset().count(qs[j]) > 0);
        assert(order.contains(qs[j]));
        let i = choose|i: int| 0 <= i < order.len() && order[i] == qs[j];
        assert(added[i] == sub);
    }
    let at = choose|k: int| 0 <= k < added.len() && added[k] == sub;
    assert(!dom.contains(added[at]));
    assert(!m.delegated.contains_key(sub));
    assert forall|c: Seq<char>| dom.contains(c) implies #[trigger] grown.steps[c]
        == m.steps[c] by {
        if added.contains(c) {
            let i = choose|i: int| 0 <= i < added.len() && added[i] == c;
            assert(!dom.contains(added[i]));
        }
    }
    assert(ordered(grown, none, one, dom)) by {
        assert(all_answered(grown, none)) by {
            assert forall|d: Seq<char>| !#[trigger] owes(grown, d) && !none.contains(
                d,
            ) implies answered(grown, d) by {
                assert(!owes(m, d));
            }
        }
        assert(handed_on(grown)) by {
            assert forall|s: Seq<char>| #[trigger] grown.delegated.contains_key(s) implies
                grown.steps.contains_key(s) by {
                assert(m.delegated.contains_key(s));
                assert(m.steps.contains_key(s));
            }
        }
        assert forall|c: Seq<char>, d: Seq<char>| dom.contains(c) implies times(
            grown.reads(c),
            d,
        ) == #[trigger] times(grown.children(d), c) by {
            assert(grown.children(d) == m.children(d));
            assert(times(m.reads(c), d) == times(m.children(d), c));
        }
        assert forall|c: Seq<char>| !#[trigger] dom.contains(c) implies forall|d: Seq<char>|
         #[trigger] times(grown.children(d), c) == 0 by {
            assert forall|d: Seq<char>| #[trigger] times(grown.children(d), c) == 0 by {
                assert(grown.children(d) == m.children(d));
                assert(times(m.children(d), c) == 0);
            }
        }
        assert forall|c: Seq<char>|
            #![trigger waits_exactly(grown, none, c)]
            dom.contains(c) && !grown.settled.contains(c) implies waits_exactly(
            grown,
            none,
            c,
        ) by {
            assert(waits_exactly(m, none, c));
            let ds = m.reads(c);
            lemma_owed_same(m, none, grown, none, ds);
        }
    }
    lemma_join(grown, one, dom, added, depth);
    let whole = dom.union(added.to_set());
    assert(whole =~= grown.steps.dom());
    assert(dom.contains(parent)) by {
        assert(one.contains(parent));
    }
    assert(handed_on(a)) by {
        assert forall|s: Seq<char>| #[trigger] a.delegated.contains_key(s) implies {
            let p = a.delegated[s];
            &&& a.steps.contains_key(s)
            &&& a.settled.contains(p)
            &&& a.reports.contains_key(p)
            &&& !gave_nothing(a.reports[p].status)
        } by {
            if s == sub {
                assert(whole.contains(sub));
            } else {
                assert(m.delegated.contains_key(s));
            }
        }
        assert forall|s: Seq<char>, t: Seq<char>| #[trigger]
            a.delegated.contains_key(s) && #[trigger] a.delegated.contains_key(t) && a.delegated[s]
                == a.delegated[t] implies s == t by {
            if s != sub {
                assert(m.delegated.contains_key(s));
            }
            if t != sub {
                assert(m.delegated.contains_key(t));
            }
        }
    }
    assert forall|d: Seq<char>| #[trigger] owes(joined, d) <==> owes(a, d) by {
        assert(a.delegated.contains_key(sub) && a.delegated[sub] == parent);
        assert(a.delegated.contains_value(parent));
        if joined.delegated.contains_value(d) {
            let s = choose|s: Seq<char>| #[trigger]
                joined.delegated.contains_key(s) && joined.delegated[s] == d;
            assert(a.delegated.contains_key(s) && a.delegated[s] == d);
        }
        if a.delegated.contains_value(d) && d != parent {
            let s = choose|s: Seq<char>| #[trigger]
                a.delegated.contains_key(s) && a.delegated[s] == d;
            assert(joined.delegated.contains_key(s) && joined.delegated[s] == d);
        }
    }
    assert forall|c: Seq<char>, d: Seq<char>| whole.contains(c) implies times(
        a.reads(c),
        d,
    ) == #[trigger] times(a.children(d), c) by {
        assert(a.children(d) == joined.children(d));
        assert(times(joined.reads(c), d) == times(joined.children(d), c));
    }
    assert(only_of(a, none, whole)) by {
        assert forall|c: Seq<char>| !#[trigger] whole.contains(c) implies forall|d: Seq<char>|
         #[trigger] times(a.children(d), c) == 0 by {
            assert forall|d: Seq<char>| #[trigger] times(a.children(d), c) == 0 by {
                assert(a.children(d) == joined.children(d));
                assert(times(joined.children(d), c) == 0);
            }
        }
    }
    assert forall|c: Seq<char>|
        #![trigger waits_exactly(a, none, c)]
        whole.contains(c) && !a.settled.contains(c) implies waits_exactly(a, none, c) by {
        assert(waits_exactly(joined, none, c));
        let ds = a.reads(c);
        assert forall|d: Seq<char>| #[trigger] ds.contains(d) implies (none.contains(d) || owes(
            joined,
            d,
        ) <==> none.contains(d) || owes(a, d)) by {
            assert(owes(joined, d) <==> owes(a, d));
        }
        lemma_owed_same(joined, none, a, none, ds);
        if !a.depth.contains_key(c) {
            assert forall|d: Seq<char>| #[trigger] ds.contains(d) implies !fell_through(a, d) by {
                assert(!fell_through(joined, d) || none.contains(d));
            }
        }
    }
    assert(all_answered(a, none)) by {
        assert forall|d: Seq<char>| !#[trigger] owes(a, d) && !none.contains(d) implies answered(
            a,
            d,
        ) by {
            assert(owes(joined, d) <==> owes(a, d));
            assert(answered(joined, d));
            assert(a.delegated.contains_key(sub) && a.delegated[sub] == parent);
        }
    }
}

pub(crate) proof fn lemma_distinct_kept(qs: Seq<NodeSpec>, order: Seq<NodeSpec>)
    requires
        order.to_multiset() =~= qs.to_multiset(),
        forall|i: int, j: int|
            0 <= i < qs.len() && 0 <= j < qs.len() && i != j ==> (#[trigger] qs[i]).key@ != (
            #[trigger] qs[j]).key@,
    ensures
        step_names(order).no_duplicates(),
{
    broadcast use vstd::seq_lib::group_to_multiset_ensures;

    assert(qs.no_duplicates());
    qs.lemma_multiset_has_no_duplicates();
    order.lemma_multiset_has_no_duplicates_conv();
    let ks = step_names(order);
    assert forall|i: int, j: int| 0 <= i < ks.len() && 0 <= j < ks.len() && i != j implies ks[i]
        != ks[j] by {
        assert(order[i] != order[j]);
        assert(order.contains(order[i]) && order.contains(order[j]));
        assert(order.to_multiset().count(order[i]) > 0 && order.to_multiset().count(order[j]) > 0);
        assert(qs.contains(order[i]) && qs.contains(order[j]));
        let a = choose|a: int| 0 <= a < qs.len() && qs[a] == order[i];
        let b = choose|b: int| 0 <= b < qs.len() && qs[b] == order[j];
        assert(qs[a].key@ != qs[b].key@);
    }
}

/// What only changes the queue, what runs and what is in hand, without bringing a node into them,
/// leaves every node in its turn.
proof fn lemma_same_nodes(
    m: RunModel,
    in_hand: Set<Seq<char>>,
    a: RunModel,
    now_in_hand: Set<Seq<char>>,
)
    requires
        in_turn(m, in_hand),
        a.steps == m.steps,
        a.dependents == m.dependents,
        a.pending == m.pending,
        a.settled == m.settled,
        a.delegated == m.delegated,
        a.outputs == m.outputs,
        a.reports == m.reports,
        a.depth == m.depth,
        forall|c: Seq<char>|
            (#[trigger] a.ready.contains(c) ==> m.ready.contains(c) || m.running.contains(c)
                || in_hand.contains(c)),
        forall|c: Seq<char>|
            (#[trigger] a.running.contains(c) ==> m.ready.contains(c) || m.running.contains(c)
                || in_hand.contains(c)),
        forall|c: Seq<char>|
            (#[trigger] now_in_hand.contains(c) ==> m.ready.contains(c) || m.running.contains(c)
                || in_hand.contains(c)),
        under_way(a, now_in_hand),
    ensures
        in_turn(a, now_in_hand),
{
    let none = Set::<Seq<char>>::empty();
    let dom = m.steps.dom();
    assert(handed_on(a));
    assert forall|d: Seq<char>| #[trigger] a.children(d) == m.children(d) by {}
    assert forall|c: Seq<char>, d: Seq<char>| dom.contains(c) implies times(
        a.reads(c),
        d,
    ) == #[trigger] times(a.children(d), c) by {
        assert(times(m.reads(c), d) == times(m.children(d), c));
    }
    assert(only_of(a, now_in_hand, dom)) by {
        assert forall|c: Seq<char>| !#[trigger] dom.contains(c) implies forall|d: Seq<char>|
         #[trigger] times(a.children(d), c) == 0 by {
            assert forall|d: Seq<char>| #[trigger] times(a.children(d), c) == 0 by {
                assert(times(m.children(d), c) == 0);
            }
        }
    }
    assert forall|c: Seq<char>|
        #![trigger waits_exactly(a, none, c)]
        dom.contains(c) && !a.settled.contains(c) implies waits_exactly(a, none, c) by {
        assert(waits_exactly(m, none, c));
        let ds = m.reads(c);
        lemma_owed_same(m, none, a, none, ds);
    }
    assert(all_answered(a, none)) by {
        assert forall|d: Seq<char>| !#[trigger] owes(a, d) && !none.contains(d) implies answered(
            a,
            d,
        ) by {
            assert(!owes(m, d));
        }
    }
}

proof fn lemma_taken(m: RunModel, d: Dispatch, a: RunModel)
    requires
        in_turn(m, Set::empty()),
        takes(m, d, a),
    ensures
        in_turn(a, set![d.spec.key@]),
        a.steps == m.steps,
        forall|i: int|
            0 <= i < m.steps[d.spec.key@].dep_names().len() ==> {
                let x = #[trigger] m.steps[d.spec.key@].dep_names()[i];
                !owes(m, x) && answered(m, x)
            },
{
    let none = Set::<Seq<char>>::empty();
    let k = d.spec.key@;
    let i = choose|i: int|
        {
            &&& 0 <= i < m.ready.len() && #[trigger] m.ready[i] == k
            &&& a == RunModel { ready: m.ready.skip(i + 1), ..m }
        };
    assert(m.ready.contains(k));
    assert(m.steps.dom().contains(k));
    assert forall|c: Seq<char>| #[trigger] a.ready.contains(c) implies m.ready.contains(c) by {
        let j = choose|j: int| 0 <= j < a.ready.len() && a.ready[j] == c;
        assert(m.ready[i + 1 + j] == c);
    }
    lemma_same_nodes(m, none, a, set![k]);
    assert(waits_exactly(m, none, k));
    let ds = m.steps[k].dep_names();
    let rs = m.reads(k);
    lemma_unrepeated(ds);
    assert forall|i: int| 0 <= i < ds.len() implies !owes(m, #[trigger] ds[i]) && answered(
        m,
        ds[i],
    ) by {
        assert(ds.contains(ds[i]));
        assert(rs.contains(ds[i]));
        let j = choose|j: int| 0 <= j < rs.len() && rs[j] == ds[i];
        lemma_none_owed(m, none, rs, j);
    }
}

/// A node is looked up, and so run, only when everything that it depends on has given its result,
/// or the node that answers in its place has.
pub proof fn law_a_node_runs_after_what_it_depends_on(
    before: RunModel,
    done: Map<Seq<char>, JournalEntry>,
    d: Dispatch,
    after: RunModel,
)
    requires
        in_turn(before, Set::empty()),
        turns(before, done, Turn::Look(d), after),
    ensures
        forall|i: int|
            0 <= i < before.steps[d.spec.key@].dep_names().len() ==> {
                let x = #[trigger] before.steps[d.spec.key@].dep_names()[i];
                !owes(before, x) && answered(before, x)
            },
{
    lemma_taken(before, d, after);
}

/// No turn of a run puts a node out of its turn; one that is to be looked up, or taken up as it
/// was left, is in hand.
pub proof fn law_a_turn_keeps_order(
    before: RunModel,
    done: Map<Seq<char>, JournalEntry>,
    t: Turn,
    after: RunModel,
)
    requires
        in_turn(before, Set::empty()),
        turns(before, done, t, after),
    ensures
        match t {
            Turn::Look(d) | Turn::Resumed(d) => in_turn(after, set![d.spec.key@]),
            _ => in_turn(after, Set::empty()),
        },
{
    match t {
        Turn::Look(d) => {
            lemma_taken(before, d, after);
        },
        Turn::Resumed(d) => {
            lemma_taken(before, d, after);
        },
        _ => {
            lemma_same_nodes(before, Set::empty(), after, Set::empty());
        },
    }
}

/// A node in hand that is started is in its turn.
pub proof fn law_starting_keeps_order(m: RunModel, k: Seq<char>)
    requires
        in_turn(m, set![k]),
    ensures
        in_turn((RunModel { running: m.running.insert(k), ..m }), Set::empty()),
{
    assert(set![k].contains(k));
    lemma_same_nodes(m, set![k], RunModel { running: m.running.insert(k), ..m }, Set::empty());
}

proof fn lemma_expanded_as(
    m: RunModel,
    after: RunModel,
    exp: Expansion,
    added: Seq<Seq<char>>,
    report: ReportModel,
)
    requires
        in_turn(m, set![report.key]),
        expanded_as(m, after, exp, added, report),
        !gave_nothing(report.status),
    ensures
        in_turn(after, Set::empty()),
{
    let mid = choose|mid: RunModel|
        {
            &&& #[trigger] expanded(m, mid, report.key, exp.nodes@, exp.substitute@, added)
            &&& after == mid.delegate(report)
        };
    law_expanding_keeps_order(m, mid, exp.nodes@, exp.substitute@, added, report);
}

/// A node in hand that is served leaves every node in its turn.
pub proof fn law_a_hit_keeps_order(
    before: RunModel,
    spec: NodeSpec,
    action: ActionKey,
    outputs: Seq<Digest>,
    duration_ms: u64,
    replay: Option<Expansion>,
    now: u64,
    r: Result<Effect, EngineError>,
    after: RunModel,
)
    requires
        in_turn(before, set![spec.key@]),
        hits(before, spec, action, outputs, duration_ms, replay, now, r, after),
        r is Ok,
    ensures
        in_turn(after, Set::empty()),
{
    let k = spec.key@;
    let m = RunModel { saved_ms: (before.saved_ms + duration_ms) as u64, ..before };
    lemma_same_nodes(before, set![k], m, set![k]);
    let report = ReportModel {
        action: Some(action),
        status: NodeStatus::Hit,
        ..skipped_report(k, spec.kind, now)
    };
    match replay {
        None => {
            law_settling_keeps_order(m, ReportModel { outputs, ..report });
        },
        Some(exp) => {
            let added = key_names(r->Ok_0->Expanded_0@);
            lemma_expanded_as(m, after, exp, added, report);
        },
    }
}

/// A node in hand that is taken up as it was left leaves every node in its turn.
pub proof fn law_a_resumption_keeps_order(
    before: RunModel,
    spec: NodeSpec,
    action: ActionKey,
    outputs: Seq<Digest>,
    attribution: Attribution,
    replay: Option<Expansion>,
    now: u64,
    r: Result<Effect, EngineError>,
    after: RunModel,
)
    requires
        in_turn(before, set![spec.key@]),
        resumes(before, spec, action, outputs, attribution, replay, now, r, after),
        r is Ok,
    ensures
        in_turn(after, Set::empty()),
{
    let report = resumed_report(spec, action, outputs, attribution, now);
    match replay {
        None => {
            law_settling_keeps_order(before, report);
        },
        Some(exp) => {
            let added = key_names(r->Ok_0->Expanded_0@);
            lemma_expanded_as(
                before,
                after,
                exp,
                added,
                ReportModel { outputs: Seq::empty(), ..report },
            );
        },
    }
}

/// A running node that an executor is done with leaves every node in its turn.
pub proof fn law_an_end_keeps_order(
    before: RunModel,
    spec: NodeSpec,
    action: ActionKey,
    output: NodeOutput,
    expansion: Option<Expansion>,
    exec_ms: u64,
    queue_ms: u64,
    was_job: bool,
    now: u64,
    r: Result<Effect, EngineError>,
    after: RunModel,
)
    requires
        in_turn(before, Set::empty()),
        before.running.contains(spec.key@),
        completes(
            before,
            spec,
            action,
            output,
            expansion,
            exec_ms,
            queue_ms,
            was_job,
            now,
            r,
            after,
        ),
        r is Ok,
    ensures
        in_turn(after, Set::empty()),
{
    let k = spec.key@;
    let m = RunModel { running: before.running.remove(k), ..before };
    lemma_same_nodes(before, Set::empty(), m, set![k]);
    let passed = output.verdict is Pass;
    let report = |status: NodeStatus|
        result_report(
            k,
            spec.kind,
            action,
            status,
            output,
            exec_ms,
            queue_ms,
            was_job,
            now,
        );
    if passed && expansion is Some {
        let added = key_names(r->Ok_0->Expanded_0@);
        let same = RunModel { attribution: m.attribution, ..after };
        lemma_expanded_as(
            m,
            same,
            expansion->0,
            added,
            ReportModel {
                outputs: Seq::empty(),
                diagnostics: Seq::empty(),
                ..report(NodeStatus::Expanded)
            },
        );
        assert(under_way(same, Set::empty()));
        assert(under_way(after, Set::empty())) by {
            assert forall|c: Seq<char>| #[trigger] after.running.contains(c) implies
                !after.settled.contains(c) by {
                assert(same.running.contains(c));
            }
        }
        lemma_same_nodes(same, Set::empty(), after, Set::empty());
    } else {
        law_settling_keeps_order(
            m,
            report(
                if passed {
                    NodeStatus::Computed
                } else {
                    NodeStatus::Failed
                },
            ),
        );
    }
}

/// Where no node was expanded, a run is over only when every node is settled: nothing is skipped that does not sit behind a failure.
pub proof fn law_a_run_without_expansions_settles_everything(
    m: RunModel,
    done: Map<Seq<char>, JournalEntry>,
    after: RunModel,
)
    requires
        in_turn(m, Set::empty()),
        keeps_up(m, Set::empty()),
        turns(m, done, Turn::Over, after),
        m.delegated == Map::<Seq<char>, Seq<char>>::empty(),
        m.depth == Map::<Seq<char>, nat>::empty(),
        in_dependency_order(m.steps, m.topo),
    ensures
        forall|k: Seq<char>| #[trigger] m.steps.contains_key(k) ==> m.settled.contains(k),
{
    assert forall|k: Seq<char>| #[trigger] m.steps.contains_key(k) implies m.settled.contains(
        k,
    ) by {
        assert(m.topo.contains(k));
        let j = choose|j: int| 0 <= j < m.topo.len() && m.topo[j] == k;
        lemma_settled_up_to(m, done, after, j);
    }
}

proof fn lemma_settled_up_to(
    m: RunModel,
    done: Map<Seq<char>, JournalEntry>,
    after: RunModel,
    j: int,
)
    requires
        in_turn(m, Set::empty()),
        keeps_up(m, Set::empty()),
        turns(m, done, Turn::Over, after),
        m.delegated == Map::<Seq<char>, Seq<char>>::empty(),
        m.depth == Map::<Seq<char>, nat>::empty(),
        in_dependency_order(m.steps, m.topo),
        0 <= j < m.topo.len(),
    ensures
        m.settled.contains(m.topo[j]),
    decreases j,
{
    let c = m.topo[j];
    if !m.settled.contains(c) {
        assert(ready(m.steps, m.topo[j], m.topo.take(j)));
        law_no_node_waits_for_nothing(m, done, after, c);
        let ds = m.steps[c].dep_names();
        let i = choose|i: int| 0 <= i < ds.len() && owes(m, #[trigger] ds[i]);
        assert(ds.contains(ds[i]));
        let k = choose|k: int| 0 <= k < j && m.topo.take(j)[k] == ds[i];
        lemma_unrepeated(ds);
        assert(m.steps.dom().contains(c));
        assert(waits_exactly(m, Set::empty(), c));
        assert(m.reads(c).contains(ds[i]));
        lemma_settled_up_to(m, done, after, k);
    }
}

/// The order that a run holds its steps in stays an order in which each comes after everything that
/// it depends on when a node is expanded, so that what is estimated over it covers every chain.
pub proof fn law_an_expansion_keeps_dependency_order(
    m: RunModel,
    mid: RunModel,
    parent: Seq<char>,
    nodes: Seq<NodeSpec>,
    substitute: Seq<char>,
    added: Seq<Seq<char>>,
)
    requires
        in_dependency_order(m.steps, m.topo),
        expanded(m, mid, parent, nodes, substitute, added),
    ensures
        in_dependency_order(mid.steps, mid.topo),
{
    broadcast use vstd::seq_lib::group_to_multiset_ensures;

    let prefix = splice_prefix(parent);
    let siblings = step_names(nodes);
    let qs = choose|qs: Seq<NodeSpec>|
        {
            &&& #[trigger] all_spliced(prefix, siblings, nodes, qs)
            &&& ({
                let (order, stuck) = batch_order(qs, step_names(qs).to_set(), Set::empty());
                let grown = RunModel { steps: put_all(m.steps, order), ..m };
                let joined = grown.join(step_names(order), m.depth_of(parent) + 1);
                &&& stuck.len() == 0
                &&& may_all_join(m.steps, qs)
                &&& added == step_names(order)
                &&& mid == RunModel {
                    delegated: joined.delegated.insert(
                        qualified(prefix, siblings, substitute),
                        parent,
                    ),
                    ..joined
                }
            })
        };
    let names = step_names(qs);
    let (order, stuck) = batch_order(qs, names.to_set(), Set::empty());
    let grown = RunModel { steps: put_all(m.steps, order), ..m };
    let t = mid.topo;
    let n = m.topo.len() as int;
    lemma_join_keeps(grown, added, m.depth_of(parent) + 1);
    assert(t == m.topo + added);
    assert(mid.steps == put_all(m.steps, order));
    lemma_put_all(m.steps, order);
    law_batch_order_loses_no_step(qs, names.to_set(), Set::empty());
    law_batch_order_respects_dependencies(qs, names.to_set(), Set::empty());
    assert(stuck =~= Seq::empty());
    assert(order.to_multiset() =~= qs.to_multiset());
    assert forall|i: int, j: int| 0 <= i < qs.len() && 0 <= j < qs.len() && i != j implies qs[i].key@
        != qs[j].key@ by {
        assert(names[i] != names[j]);
    }
    lemma_distinct_kept(qs, order);
    assert forall|i: int|
        #![trigger order[i]]
        0 <= i < order.len() implies exists|j: int|
        0 <= j < qs.len() && #[trigger] qs[j] == order[i] by {
        assert(order.contains(order[i]));
        assert(order.to_multiset().count(order[i]) > 0);
        assert(qs.contains(order[i]));
    }
    assert forall|i: int| 0 <= i < added.len() implies !m.steps.contains_key(
        #[trigger] added[i],
    ) by {
        let j = choose|j: int| 0 <= j < qs.len() && #[trigger] qs[j] == order[i];
        assert(may_join(m.steps, names, qs[j]));
    }
    assert forall|k: Seq<char>| #[trigger] t.contains(k) <==> mid.steps.contains_key(k) by {
        if t.contains(k) {
            let i = choose|i: int| 0 <= i < t.len() && t[i] == k;
            if i < n {
                assert(m.topo[i] == k);
                assert(m.topo.contains(k));
            } else {
                assert(added[i - n] == k);
                assert(added.contains(k));
            }
        }
        if m.steps.contains_key(k) {
            assert(m.topo.contains(k));
            let i = choose|i: int| 0 <= i < n && m.topo[i] == k;
            assert(t[i] == k);
        } else if added.contains(k) {
            let i = choose|i: int| 0 <= i < added.len() && added[i] == k;
            assert(t[n + i] == k);
        }
    }
    assert(t.no_duplicates()) by {
        assert forall|i: int, j: int| 0 <= i < t.len() && 0 <= j < t.len() && i != j implies t[i]
            != t[j] by {
            if i < n {
                assert(m.topo.contains(m.topo[i]));
            } else {
                assert(!m.steps.contains_key(added[i - n]));
            }
            if j < n {
                assert(m.topo.contains(m.topo[j]));
            } else {
                assert(!m.steps.contains_key(added[j - n]));
            }
        }
    }
    assert forall|j: int| 0 <= j < t.len() implies ready(mid.steps, #[trigger] t[j], t.take(j)) by {
        let k = t[j];
        assert(t.contains(k));
        if j < n {
            assert(m.topo[j] == k);
            assert(m.topo.contains(k));
            assert(ready(m.steps, m.topo[j], m.topo.take(j)));
            assert(t.take(j) =~= m.topo.take(j));
            assert(!added.contains(k)) by {
                if added.contains(k) {
                    let i = choose|i: int| 0 <= i < added.len() && added[i] == k;
                    assert(!m.steps.contains_key(added[i]));
                }
            }
            assert(mid.steps[k] == m.steps[k]);
        } else {
            let i = j - n;
            lemma_put_one(m.steps, order, i);
            assert(mid.steps[k] == order[i]);
            let h = choose|h: int| 0 <= h < qs.len() && #[trigger] qs[h] == order[i];
            assert(may_join(m.steps, names, qs[h]));
            let done = step_names(order.take(i));
            assert(siblings_placed(
                order[i],
                names.to_set(),
                Set::<Seq<char>>::empty().union(done.to_set()),
            ));
            assert forall|d: Seq<char>| #[trigger] order[i].dep_names().contains(
                d,
            ) implies t.take(j).contains(d) by {
                if m.steps.contains_key(d) {
                    assert(m.topo.contains(d));
                    let a = choose|a: int| 0 <= a < n && m.topo[a] == d;
                    assert(t.take(j)[a] == d);
                } else {
                    assert(names.to_set().contains(d));
                    assert(done.contains(d));
                    let a = choose|a: int| 0 <= a < done.len() && done[a] == d;
                    assert(added[a] == d);
                    assert(t.take(j)[n + a] == d);
                }
            }
        }
    }
}

pub(crate) proof fn lemma_put_one(g: Steps, steps: Seq<NodeSpec>, i: int)
    requires
        0 <= i < steps.len(),
        step_names(steps).no_duplicates(),
    ensures
        put_all(g, steps)[steps[i].key@] == steps[i],
    decreases steps.len(),
{
    if i < steps.len() - 1 {
        let w = steps.drop_last();
        let ks = step_names(steps);
        assert forall|a: int, b: int|
            0 <= a < w.len() && 0 <= b < w.len() && a != b implies step_names(w)[a]
            != step_names(w)[b] by {
            assert(ks[a] != ks[b]);
        }
        lemma_put_one(g, w, i);
        assert(ks[i] != ks[steps.len() - 1]);
    }
}

} // verus!
