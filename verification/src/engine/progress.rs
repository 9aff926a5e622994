//! No node waits for nothing: what every turn of a run keeps, and what follows when it is over.

use crate::engine::exec::Expansion;
use crate::engine::graph::batch_order;
use crate::engine::graph::depends;
use crate::engine::graph::key_names;
use crate::engine::graph::law_batch_order_loses_no_step;
use crate::engine::graph::lemma_unrepeated;
use crate::engine::graph::may_all_join;
use crate::engine::graph::may_join;
use crate::engine::graph::plans;
use crate::engine::graph::put_all;
use crate::engine::graph::ready;
use crate::engine::graph::step_names;
use crate::engine::graph::NodeSpec;
use crate::engine::graph::Plan;
use crate::engine::graph::Steps;
use crate::engine::report::NodeStatus;
use crate::engine::report::ReportModel;
use crate::engine::run::turns;
use crate::engine::run::Turn;
use crate::engine::scheduler::all_spliced;
use crate::engine::scheduler::completes;
use crate::engine::scheduler::drained;
use crate::engine::scheduler::expanded;
use crate::engine::scheduler::expanded_as;
use crate::engine::scheduler::fell_through;
use crate::engine::scheduler::hits;
use crate::engine::scheduler::name_lists;
use crate::engine::scheduler::open_count;
use crate::engine::scheduler::owes;
use crate::engine::scheduler::qualified;
use crate::engine::scheduler::release;
use crate::engine::scheduler::result_report;
use crate::engine::scheduler::resumed_report;
use crate::engine::scheduler::resumes;
use crate::engine::scheduler::skipped_report;
use crate::engine::scheduler::splice_prefix;
use crate::engine::scheduler::takes;
use crate::engine::scheduler::waiting_on;
use crate::engine::scheduler::Dispatch;
use crate::engine::scheduler::Effect;
use crate::engine::scheduler::EngineError;
use crate::engine::scheduler::RunModel;
use crate::identity::ActionKey;
use crate::identity::Attribution;
use crate::identity::Digest;
use crate::identity::NodeOutput;
use crate::reach::edge;
use crate::reach::walk;
use crate::store::journal::JournalEntry;
use vstd::prelude::*;

verus! {

/// How often a name stands in a list.
pub open spec fn times(s: Seq<Seq<char>>, x: Seq<char>) -> nat
    decreases s.len(),
{
    if s.len() == 0 {
        0
    } else {
        times(s.drop_last(), x) + if s.last() == x {
            1nat
        } else {
            0nat
        }
    }
}

/// How many of these nodes are still waited for, counting those of `more` among them.
pub open spec fn owed(m: RunModel, more: Set<Seq<char>>, ds: Seq<Seq<char>>) -> nat
    decreases ds.len(),
{
    if ds.len() == 0 {
        0
    } else {
        owed(m, more, ds.drop_last()) + if more.contains(ds.last()) || owes(m, ds.last()) {
            1nat
        } else {
            0nat
        }
    }
}

/// Is a node that is not settled counted right? It waits for no more than what it depends on
/// still owes, and if it waits for nothing it is queued, running or in hand.
pub open spec fn counted(
    m: RunModel,
    more: Set<Seq<char>>,
    in_hand: Set<Seq<char>>,
    c: Seq<char>,
) -> bool {
    &&& m.pending.contains_key(c)
    &&& m.pending[c] <= owed(m, more, m.reads(c))
    &&& m.pending[c] == 0 ==> m.ready.contains(c) || m.running.contains(c) || in_hand.contains(c)
}

/// Is each of these nodes told of what it depends on, and counted right?
pub open spec fn told(
    m: RunModel,
    more: Set<Seq<char>>,
    in_hand: Set<Seq<char>>,
    among: Set<Seq<char>>,
) -> bool {
    &&& m.delegated.dom().finite()
    &&& forall|s: Seq<char>| #[trigger] m.delegated.contains_key(s) ==> m.steps.contains_key(s)
    &&& forall|c: Seq<char>, d: Seq<char>|
        among.contains(c) ==> times(m.reads(c), d) <= #[trigger] times(
            m.children(d),
            c,
        )
    &&& forall|c: Seq<char>|
        #![trigger counted(m, more, in_hand, c)]
        among.contains(c) && !m.settled.contains(c) ==> counted(m, more, in_hand, c)
}

/// Was this node skipped?
pub open spec fn was_skipped(m: RunModel, s: Seq<char>) -> bool {
    m.settled.contains(s) && m.reports.contains_key(s) && m.reports[s].status is Skipped
}

/// Is a node that is to answer for another, and is settled, one that was skipped or that itself
/// waits for an answer? (`aside` is a node whose answer is just being passed on.)
pub open spec fn excused(m: RunModel, aside: Set<Seq<char>>) -> bool {
    forall|s: Seq<char>| #[trigger]
        m.delegated.contains_key(s) && !aside.contains(s) && m.settled.contains(s) ==> was_skipped(
            m,
            s,
        ) || m.delegated.contains_value(s)
}

/// Does the state speak of steps of the graph only?
pub open spec fn of_steps(m: RunModel, in_hand: Set<Seq<char>>) -> bool {
    &&& m.settled.subset_of(m.steps.dom())
    &&& m.running.subset_of(m.steps.dom())
    &&& in_hand.subset_of(m.steps.dom())
    &&& forall|d: Seq<char>, c: Seq<char>| #[trigger]
        m.children(d).contains(c) ==> m.steps.contains_key(c)
}

/// Does no node wait for nothing? `in_hand` are the nodes that were taken from the queue and not
/// yet started or settled.
pub open spec fn keeps_up(m: RunModel, in_hand: Set<Seq<char>>) -> bool {
    &&& told(m, Set::empty(), in_hand, m.steps.dom())
    &&& excused(m, Set::empty())
    &&& of_steps(m, in_hand)
}

pub(crate) proof fn lemma_times_contains(s: Seq<Seq<char>>, x: Seq<char>)
    ensures
        times(s, x) > 0 <==> s.contains(x),
    decreases s.len(),
{
    if s.len() > 0 {
        let w = s.drop_last();
        lemma_times_contains(w, x);
        if w.contains(x) {
            let i = choose|i: int| 0 <= i < w.len() && w[i] == x;
            assert(s[i] == x);
        }
        if s.contains(x) {
            let i = choose|i: int| 0 <= i < s.len() && s[i] == x;
            if i < w.len() {
                assert(w[i] == x);
            }
        }
    }
}

proof fn lemma_times_push(s: Seq<Seq<char>>, y: Seq<char>, x: Seq<char>)
    ensures
        times(s.push(y), x) == times(s, x) + if y == x {
            1nat
        } else {
            0nat
        },
{
    assert(s.push(y).drop_last() =~= s);
}

pub(crate) proof fn lemma_times_distinct(s: Seq<Seq<char>>, x: Seq<char>)
    requires
        s.no_duplicates(),
    ensures
        times(s, x) <= 1,
    decreases s.len(),
{
    if s.len() > 0 {
        lemma_times_distinct(s.drop_last(), x);
        lemma_times_contains(s.drop_last(), x);
        if s.last() == x && s.drop_last().contains(x) {
            let i = choose|i: int| 0 <= i < s.drop_last().len() && s.drop_last()[i] == x;
            assert(s[i] == s[s.len() - 1]);
        }
    }
}

/// Where every node that is waited for in one state is in the other, no more are.
pub(crate) proof fn lemma_owed_up_to(
    m: RunModel,
    more: Set<Seq<char>>,
    n: RunModel,
    others: Set<Seq<char>>,
    ds: Seq<Seq<char>>,
)
    requires
        forall|d: Seq<char>| #[trigger]
            ds.contains(d) && (more.contains(d) || owes(m, d)) ==> others.contains(d) || owes(n, d),
    ensures
        owed(m, more, ds) <= owed(n, others, ds),
    decreases ds.len(),
{
    if ds.len() > 0 {
        let w = ds.drop_last();
        assert forall|d: Seq<char>| #[trigger]
            w.contains(d) && (more.contains(d) || owes(m, d)) implies others.contains(d) || owes(
            n,
            d,
        ) by {
            let i = choose|i: int| 0 <= i < w.len() && w[i] == d;
            assert(ds[i] == d);
            assert(ds.contains(d));
        }
        lemma_owed_up_to(m, more, n, others, w);
        assert(ds.contains(ds[ds.len() - 1]));
    }
}

proof fn lemma_owed_without(
    m: RunModel,
    more: Set<Seq<char>>,
    k: Seq<char>,
    ds: Seq<Seq<char>>,
)
    ensures
        owed(m, more.insert(k), ds) <= owed(m, more, ds) + times(ds, k),
    decreases ds.len(),
{
    if ds.len() > 0 {
        lemma_owed_without(m, more, k, ds.drop_last());
    }
}

pub(crate) proof fn lemma_open_is_owed(m: RunModel, ds: Seq<Seq<char>>)
    ensures
        open_count(m, ds) == owed(m, Set::empty(), ds),
    decreases ds.len(),
{
    if ds.len() > 0 {
        lemma_open_is_owed(m, ds.drop_last());
    }
}

proof fn lemma_owed_by(m: RunModel, ds: Seq<Seq<char>>) -> (i: int)
    requires
        owed(m, Set::empty(), ds) > 0,
    ensures
        0 <= i < ds.len(),
        owes(m, ds[i]),
    decreases ds.len(),
{
    if owes(m, ds.last()) {
        ds.len() - 1
    } else {
        lemma_owed_by(m, ds.drop_last())
    }
}

/// What telling the dependents of a node does to the counts and to the queue.
pub(crate) proof fn lemma_release(
    children: Seq<Seq<char>>,
    pending: Map<Seq<char>, nat>,
    queue: Seq<Seq<char>>,
    settled: Set<Seq<char>>,
)
    ensures
        ({
            let (p, r) = release(children, pending, queue, settled);
            &&& forall|c: Seq<char>| #[trigger] p.contains_key(c) <==> pending.contains_key(c)
            &&& forall|c: Seq<char>| #[trigger]
                pending.contains_key(c) ==> p[c] == if pending[c] <= times(children, c) {
                    0
                } else {
                    pending[c] - times(children, c)
                }
            &&& forall|c: Seq<char>| #[trigger] queue.contains(c) ==> r.contains(c)
            &&& forall|c: Seq<char>| #[trigger]
                r.contains(c) && !queue.contains(c) ==> pending.contains_key(c) && p[c] == 0
            &&& forall|c: Seq<char>|
                #![trigger r.contains(c)]
                pending.contains_key(c) && times(children, c) > 0 && p[c] == 0
                    && !settled.contains(c) ==> r.contains(c)
        }),
    decreases children.len(),
{
    if children.len() > 0 {
        let (p0, r0) = release(children.drop_last(), pending, queue, settled);
        let (p, r) = release(children, pending, queue, settled);
        let k = children.last();
        lemma_release(children.drop_last(), pending, queue, settled);
        assert forall|c: Seq<char>| r0.contains(c) implies #[trigger] r.contains(c) by {
            let i = choose|i: int| 0 <= i < r0.len() && r0[i] == c;
            assert(r[i] == c);
        }
        assert forall|c: Seq<char>| #[trigger] r.contains(c) && !queue.contains(
            c,
        ) implies pending.contains_key(c) && p[c] == 0 by {
            let i = choose|i: int| 0 <= i < r.len() && r[i] == c;
            if i < r0.len() {
                assert(r0[i] == c);
                assert(r0.contains(c));
            }
        }
        assert forall|c: Seq<char>|
            #![trigger r.contains(c)]
            pending.contains_key(c) && times(children, c) > 0 && p[c] == 0 && !settled.contains(
                c,
            ) implies r.contains(c) by {
            if c == k {
                assert(r == r0.push(k));
                assert(r[r.len() - 1] == k);
            } else {
                assert(r0.contains(c));
            }
        }
    }
}

/// A node that was counted as owing is followed up: then it need not be counted.
proof fn lemma_follow(
    m: RunModel,
    more: Set<Seq<char>>,
    in_hand: Set<Seq<char>>,
    k: Seq<char>,
    status: NodeStatus,
    now: u64,
)
    requires
        told(m, more.insert(k), in_hand, m.steps.dom()),
    ensures
        told(m.follow(k, status, now), more, in_hand, m.steps.dom()),
        m.follow(k, status, now).delegated == m.delegated,
        m.follow(k, status, now).steps == m.steps,
{
    let a = m.follow(k, status, now);
    let dom = m.steps.dom();
    assert forall|c: Seq<char>, d: Seq<char>| dom.contains(c) implies times(
        a.reads(c),
        d,
    ) <= #[trigger] times(a.children(d), c) by {
        assert(a.children(d) == m.children(d));
        assert(times(m.reads(c), d) <= times(m.children(d), c));
    }
    assert forall|c: Seq<char>|
        #![trigger counted(a, more, in_hand, c)]
        dom.contains(c) && !a.settled.contains(c) implies counted(a, more, in_hand, c) by {
        let ds = m.reads(c);
        assert(!m.settled.contains(c));
        assert(counted(m, more.insert(k), in_hand, c));
        assert(times(ds, k) <= times(m.children(k), c));
        if a == m.unlock(k) {
            lemma_release(m.children(k), m.pending, m.ready, m.settled);
            lemma_owed_without(m, more, k, ds);
            assert forall|d: Seq<char>| #[trigger] ds.contains(d) && (more.contains(d) || owes(
                m,
                d,
            )) implies more.contains(d) || owes(a, d) by {}
            lemma_owed_up_to(m, more, a, more, ds);
        } else {
            let e = m.open_edge();
            assert forall|d: Seq<char>| #[trigger] ds.contains(d) && (more.insert(k).contains(d)
                || owes(m, d)) implies more.contains(d) || owes(a, d) by {
                lemma_times_contains(ds, d);
                assert(times(ds, d) <= times(m.children(d), c));
                lemma_times_contains(m.children(d), c);
                assert(e(d, c));
                if d == k {
                    assert(walk(e, k, k, 0));
                    assert(walk(e, k, c, 1));
                    assert(m.cut_off(k, c));
                }
                if m.cut_off(k, d) {
                    let n = choose|n: nat| n > 0 && #[trigger] walk(e, k, d, n);
                    assert(walk(e, k, c, n + 1));
                    assert(m.cut_off(k, c));
                }
            }
            lemma_owed_up_to(m, more.insert(k), a, more, ds);
        }
    }
}

/// Passing an answer on along the nodes whose identity it carries keeps the counts right.
proof fn lemma_resolve(
    m: RunModel,
    more: Set<Seq<char>>,
    in_hand: Set<Seq<char>>,
    k: Seq<char>,
    outputs: Seq<Digest>,
    diagnostics: Seq<Seq<char>>,
    status: NodeStatus,
    now: u64,
)
    requires
        told(m, more, in_hand, m.steps.dom()),
    ensures
        ({
            let r = m.resolve(k, outputs, diagnostics, status, now);
            &&& told(r, more, in_hand, m.steps.dom())
            &&& r.steps == m.steps
        }),
    decreases m.delegated.dom().len(),
{
    if m.delegated.contains_key(k) {
        let parent = m.delegated[k];
        let handed = m.pass_on(parent, outputs, diagnostics, status);
        let b = RunModel { delegated: m.delegated.remove(k), ..handed };
        let dom = m.steps.dom();
        let wide = more.insert(parent);
        assert forall|c: Seq<char>, d: Seq<char>| dom.contains(c) implies times(
            b.reads(c),
            d,
        ) <= #[trigger] times(b.children(d), c) by {
            assert(b.children(d) == m.children(d));
            assert(times(m.reads(c), d) <= times(m.children(d), c));
        }
        assert forall|d: Seq<char>| owes(m, d) implies #[trigger] owes(b, d) || d == parent by {
            if m.delegated.contains_value(d) {
                let s = choose|s: Seq<char>| #[trigger]
                    m.delegated.contains_key(s) && m.delegated[s] == d;
                if s != k {
                    assert(b.delegated.contains_key(s) && b.delegated[s] == d);
                }
            }
        }
        assert forall|c: Seq<char>|
            #![trigger counted(b, wide, in_hand, c)]
            dom.contains(c) && !b.settled.contains(c) implies counted(b, wide, in_hand, c) by {
            assert(counted(m, more, in_hand, c));
            let ds = m.reads(c);
            assert forall|d: Seq<char>| #[trigger] ds.contains(d) && (more.contains(d) || owes(
                m,
                d,
            )) implies wide.contains(d) || owes(b, d) by {
                assert(owes(m, d) ==> owes(b, d) || d == parent);
            }
            lemma_owed_up_to(m, more, b, wide, ds);
        }
        lemma_follow(b, more, in_hand, parent, status, now);
        lemma_resolve(
            b.follow(parent, status, now),
            more,
            in_hand,
            parent,
            outputs,
            diagnostics,
            status,
            now,
        );
    }
}

proof fn lemma_follow_excuses(
    m: RunModel,
    aside: Set<Seq<char>>,
    k: Seq<char>,
    status: NodeStatus,
    now: u64,
)
    requires
        excused(m, aside),
        of_steps(m, Set::empty()),
    ensures
        excused(m.follow(k, status, now), aside),
        of_steps(m.follow(k, status, now), Set::empty()),
        m.follow(k, status, now).steps == m.steps,
{
    let a = m.follow(k, status, now);
    let e = m.open_edge();
    assert forall|x: Seq<char>| #[trigger] m.cut_off(k, x) implies m.steps.contains_key(x) by {
        let n = choose|n: nat| n > 0 && #[trigger] walk(e, k, x, n);
        let c = choose|c: Seq<char>| walk(e, k, c, (n - 1) as nat) && #[trigger] e(c, x);
        assert(m.children(c).contains(x));
    }
    assert(of_steps(a, Set::empty())) by {
        assert forall|x: Seq<char>| #[trigger] a.settled.contains(x) implies a.steps.dom().contains(
            x,
        ) by {
            assert(m.settled.contains(x) || m.cut_off(k, x));
        }
        assert forall|d: Seq<char>, c: Seq<char>| #[trigger]
            a.children(d).contains(c) implies a.steps.contains_key(c) by {
            assert(m.children(d).contains(c));
        }
    }
    assert forall|s: Seq<char>| #[trigger]
        a.delegated.contains_key(s) && !aside.contains(s) && a.settled.contains(s) implies was_skipped(
        a,
        s,
    ) || a.delegated.contains_value(s) by {
        assert(m.delegated.contains_key(s));
        if m.settled.contains(s) && !m.cut_off(k, s) {
            assert(was_skipped(m, s) || m.delegated.contains_value(s));
        }
    }
}

proof fn lemma_resolve_excuses(
    m: RunModel,
    k: Seq<char>,
    outputs: Seq<Digest>,
    diagnostics: Seq<Seq<char>>,
    status: NodeStatus,
    now: u64,
)
    requires
        m.delegated.dom().finite(),
        excused(m, set![k]),
        of_steps(m, Set::empty()),
    ensures
        excused(m.resolve(k, outputs, diagnostics, status, now), Set::empty()),
        of_steps(m.resolve(k, outputs, diagnostics, status, now), Set::empty()),
    decreases m.delegated.dom().len(),
{
    let none = Set::<Seq<char>>::empty();
    if m.delegated.contains_key(k) {
        let parent = m.delegated[k];
        let handed = m.pass_on(parent, outputs, diagnostics, status);
        let b = RunModel { delegated: m.delegated.remove(k), ..handed };
        assert forall|s: Seq<char>| #[trigger]
            b.delegated.contains_key(s) && !set![parent].contains(s) && b.settled.contains(s) implies
            was_skipped(b, s) || b.delegated.contains_value(s) by {
            assert(m.delegated.contains_key(s));
            assert(!set![k].contains(s));
            assert(!was_skipped(m, s) ==> m.delegated.contains_value(s));
            if !was_skipped(m, s) {
                let t = choose|t: Seq<char>| #[trigger]
                    m.delegated.contains_key(t) && m.delegated[t] == s;
                assert(b.delegated.contains_key(t) && b.delegated[t] == s);
            }
        }
        assert(of_steps(b, none)) by {
            assert forall|d: Seq<char>, c: Seq<char>| #[trigger]
                b.children(d).contains(c) implies b.steps.contains_key(c) by {
                assert(m.children(d).contains(c));
            }
        }
        lemma_follow_excuses(b, set![parent], parent, status, now);
        let c = b.follow(parent, status, now);
        assert(c.delegated == m.delegated.remove(k));
        lemma_resolve_excuses(c, parent, outputs, diagnostics, status, now);
    } else {
        assert forall|s: Seq<char>| #[trigger]
            m.delegated.contains_key(s) && !none.contains(s) && m.settled.contains(s) implies
            was_skipped(m, s) || m.delegated.contains_value(s) by {
            assert(!set![k].contains(s));
        }
    }
}

/// A node that is settled leaves no node waiting for nothing.
pub proof fn law_settling_keeps_up(m: RunModel, report: ReportModel)
    requires
        keeps_up(m, set![report.key]),
    ensures
        keeps_up(m.settle(report), Set::empty()),
        m.settle(report).steps == m.steps,
{
    let key = report.key;
    let none = Set::<Seq<char>>::empty();
    let dom = m.steps.dom();
    if m.settled.contains(key) {
        assert forall|c: Seq<char>|
            #![trigger counted(m, none, none, c)]
            dom.contains(c) && !m.settled.contains(c) implies counted(m, none, none, c) by {
            assert(counted(m, none, set![key], c));
        }
    } else {
        let e = m.enter(report);
        let one = none.insert(key);
        assert forall|c: Seq<char>, d: Seq<char>| dom.contains(c) implies times(
            e.reads(c),
            d,
        ) <= #[trigger] times(e.children(d), c) by {
            assert(e.children(d) == m.children(d));
            assert(times(m.reads(c), d) <= times(m.children(d), c));
        }
        assert forall|c: Seq<char>|
            #![trigger counted(e, one, none, c)]
            dom.contains(c) && !e.settled.contains(c) implies counted(e, one, none, c) by {
            assert(counted(m, none, set![key], c));
            let ds = m.reads(c);
            assert forall|d: Seq<char>| #[trigger] ds.contains(d) && (none.contains(d) || owes(
                m,
                d,
            )) implies one.contains(d) || owes(e, d) by {}
            lemma_owed_up_to(m, none, e, one, ds);
        }
        lemma_resolve(
            e,
            one,
            none,
            key,
            report.outputs,
            report.diagnostics,
            report.status,
            report.finished_at_ms,
        );
        let r = e.resolve(
            key,
            report.outputs,
            report.diagnostics,
            report.status,
            report.finished_at_ms,
        );
        lemma_follow(r, none, none, key, report.status, report.finished_at_ms);
        assert(of_steps(e, none)) by {
            assert(set![key].contains(key));
            assert forall|d: Seq<char>, c: Seq<char>| #[trigger]
                e.children(d).contains(c) implies e.steps.contains_key(c) by {
                assert(m.children(d).contains(c));
            }
        }
        assert(excused(e, set![key])) by {
            assert forall|s: Seq<char>| #[trigger]
                e.delegated.contains_key(s) && !set![key].contains(s) && e.settled.contains(
                    s,
                ) implies was_skipped(e, s) || e.delegated.contains_value(s) by {
                assert(m.delegated.contains_key(s));
                assert(s != key);
            }
        }
        lemma_resolve_excuses(
            e,
            key,
            report.outputs,
            report.diagnostics,
            report.status,
            report.finished_at_ms,
        );
        lemma_follow_excuses(r, none, key, report.status, report.finished_at_ms);
    }
}

pub(crate) proof fn lemma_waiting_on(
    dependents: Map<Seq<char>, Seq<Seq<char>>>,
    ds: Seq<Seq<char>>,
    k: Seq<char>,
    m: RunModel,
    a: RunModel,
)
    requires
        m.dependents == dependents,
        a.dependents == waiting_on(dependents, ds, k),
    ensures
        forall|d: Seq<char>, c: Seq<char>| #[trigger]
            times(a.children(d), c) == times(m.children(d), c) + if c == k {
                times(ds, d)
            } else {
                0
            },
    decreases ds.len(),
{
    if ds.len() > 0 {
        let w = ds.drop_last();
        let b = RunModel { dependents: waiting_on(dependents, w, k), ..m };
        lemma_waiting_on(dependents, w, k, m, b);
        let l = ds.last();
        assert forall|d: Seq<char>, c: Seq<char>| #[trigger]
            times(a.children(d), c) == times(m.children(d), c) + if c == k {
                times(ds, d)
            } else {
                0
            } by {
            assert(times(b.children(d), c) == times(m.children(d), c) + if c == k {
                times(w, d)
            } else {
                0
            });
            if d == l {
                assert(a.children(d) =~= b.children(d).push(k));
                lemma_times_push(b.children(d), k, c);
            } else {
                assert(a.children(d) == b.children(d));
            }
        }
    }
}

/// Steps that join a run are counted right.
proof fn lemma_join(
    m: RunModel,
    in_hand: Set<Seq<char>>,
    among: Set<Seq<char>>,
    added: Seq<Seq<char>>,
    depth: nat,
)
    requires
        told(m, Set::empty(), in_hand, among),
        forall|i: int| 0 <= i < added.len() ==> m.steps.contains_key(#[trigger] added[i]),
    ensures
        ({
            let a = m.join(added, depth);
            &&& told(a, Set::empty(), in_hand, among.union(added.to_set()))
            &&& a.steps == m.steps
            &&& a.settled == m.settled
            &&& a.delegated == m.delegated
            &&& a.running == m.running
            &&& a.reports == m.reports
        }),
    decreases added.len(),
{
    let none = Set::<Seq<char>>::empty();
    if added.len() == 0 {
        assert(among.union(added.to_set()) =~= among);
    } else {
        let w = added.drop_last();
        let k = added.last();
        assert forall|i: int| 0 <= i < w.len() implies m.steps.contains_key(#[trigger] w[i]) by {
            assert(w[i] == added[i]);
        }
        assert(added[added.len() - 1] == k);
        lemma_join(m, in_hand, among, w, depth);
        let b = m.join(w, depth);
        let a = m.join(added, depth);
        let ds = b.reads(k);
        let wide = among.union(w.to_set());
        assert(among.union(added.to_set()) =~= wide.insert(k)) by {
            assert(added =~= w.push(k));
            assert forall|x: Seq<char>| added.contains(x) <==> w.contains(x) || x == k by {
                if w.contains(x) {
                    let i = choose|i: int| 0 <= i < w.len() && w[i] == x;
                    assert(added[i] == x);
                }
                if added.contains(x) {
                    let i = choose|i: int| 0 <= i < added.len() && added[i] == x;
                    if i < w.len() {
                        assert(w[i] == x);
                    }
                }
            }
        }
        lemma_waiting_on(b.dependents, ds, k, b, a);
        assert forall|c: Seq<char>, d: Seq<char>| wide.insert(k).contains(c) implies times(
            a.reads(c),
            d,
        ) <= #[trigger] times(a.children(d), c) by {
            if c != k {
                assert(times(b.reads(c), d) <= times(b.children(d), c));
            }
        }
        assert forall|c: Seq<char>|
            #![trigger counted(a, none, in_hand, c)]
            wide.insert(k).contains(c) && !a.settled.contains(c) implies counted(
            a,
            none,
            in_hand,
            c,
        ) by {
            let cs = a.reads(c);
            assert forall|d: Seq<char>| #[trigger] cs.contains(d) && (none.contains(d) || owes(
                b,
                d,
            )) implies none.contains(d) || owes(a, d) by {}
            lemma_owed_up_to(b, none, a, none, cs);
            if c == k {
                lemma_open_is_owed(b, ds);
                if a.pending[k] == 0 {
                    assert(a.ready[a.ready.len() - 1] == k);
                }
            } else {
                assert(counted(b, none, in_hand, c));
                if b.ready.contains(c) {
                    let i = choose|i: int| 0 <= i < b.ready.len() && b.ready[i] == c;
                    assert(a.ready[i] == c);
                }
            }
        }
    }
}

pub(crate) proof fn lemma_put_all(g: Steps, steps: Seq<NodeSpec>)
    ensures
        forall|k: Seq<char>| #[trigger]
            put_all(g, steps).contains_key(k) <==> g.contains_key(k) || step_names(
                steps,
            ).contains(k),
        forall|k: Seq<char>|
            g.contains_key(k) && !step_names(steps).contains(k) ==> #[trigger] put_all(g, steps)[k]
                == g[k],
    decreases steps.len(),
{
    let ks = step_names(steps);
    if steps.len() > 0 {
        let w = steps.drop_last();
        lemma_put_all(g, w);
        assert(ks =~= step_names(w).push(steps.last().key@));
        assert forall|k: Seq<char>| #[trigger]
            ks.contains(k) <==> step_names(w).contains(k) || k == steps.last().key@ by {
            if step_names(w).contains(k) {
                let i = choose|i: int| 0 <= i < w.len() && step_names(w)[i] == k;
                assert(ks[i] == k);
            }
            assert(ks[ks.len() - 1] == steps.last().key@);
            if ks.contains(k) {
                let i = choose|i: int| 0 <= i < ks.len() && ks[i] == k;
                if i < w.len() {
                    assert(step_names(w)[i] == k);
                }
            }
        }
        let (b, a) = (put_all(g, w), put_all(g, steps));
        assert(a == b.insert(steps.last().key@, steps.last()));
        assert forall|k: Seq<char>| #[trigger]
            a.contains_key(k) <==> g.contains_key(k) || ks.contains(k) by {
            assert(b.contains_key(k) <==> g.contains_key(k) || step_names(w).contains(k));
        }
        assert forall|k: Seq<char>| g.contains_key(k) && !ks.contains(k) implies #[trigger] a[k]
            == g[k] by {
            assert(b[k] == g[k]);
        }
    }
}

/// A node that is expanded leaves no node waiting for nothing: its dependents wait for the node
/// that stands in for it.
pub proof fn law_expanding_keeps_up(
    m: RunModel,
    mid: RunModel,
    nodes: Seq<NodeSpec>,
    substitute: Seq<char>,
    added: Seq<Seq<char>>,
    report: ReportModel,
)
    requires
        keeps_up(m, set![report.key]),
        expanded(m, mid, report.key, nodes, substitute, added),
    ensures
        keeps_up(mid.delegate(report), Set::empty()),
{
    broadcast use vstd::seq_lib::group_to_multiset_ensures;

    let parent = report.key;
    let none = Set::<Seq<char>>::empty();
    let prefix = splice_prefix(parent);
    let siblings = step_names(nodes);
    let qs = choose|qs: Seq<NodeSpec>|
        {
            &&& #[trigger] all_spliced(prefix, siblings, nodes, qs)
            &&& ({
                let (order, stuck) = batch_order(qs, step_names(qs).to_set(), Set::empty());
                let grown = RunModel { steps: put_all(m.steps, order), ..m };
                let joined = grown.join(step_names(order), m.depth_of(parent) + 1);
                &&& stuck.len() == 0
                &&& may_all_join(m.steps, qs)
                &&& added == step_names(order)
                &&& mid == RunModel {
                    delegated: joined.delegated.insert(
                        qualified(prefix, siblings, substitute),
                        parent,
                    ),
                    ..joined
                }
            })
        };
    let (order, stuck) = batch_order(qs, step_names(qs).to_set(), Set::empty());
    let grown = RunModel { steps: put_all(m.steps, order), ..m };
    let depth = m.depth_of(parent) + 1;
    let joined = grown.join(step_names(order), depth);
    let sub = qualified(prefix, siblings, substitute);
    let a = mid.delegate(report);
    lemma_put_all(m.steps, order);
    law_batch_order_loses_no_step(qs, step_names(qs).to_set(), Set::empty());
    assert(stuck =~= Seq::empty());
    assert(order.to_multiset() =~= qs.to_multiset());
    assert forall|i: int| 0 <= i < order.len() implies !m.steps.contains_key(
        #[trigger] step_names(order)[i],
    ) by {
        assert(order.contains(order[i]));
        assert(order.to_multiset().count(order[i]) > 0);
        assert(qs.contains(order[i]));
        let j = choose|j: int| 0 <= j < qs.len() && qs[j] == order[i];
        assert(may_join(m.steps, step_names(qs), qs[j]));
    }
    assert(step_names(order).contains(sub)) by {
        let j = choose|j: int| 0 <= j < nodes.len() && siblings[j] == substitute;
        assert(qs[j].key@ == prefix + nodes[j].key@);
        assert(qs.contains(qs[j]));
        assert(qs.to_multiset().count(qs[j]) > 0);
        assert(order.contains(qs[j]));
        let i = choose|i: int| 0 <= i < order.len() && order[i] == qs[j];
        assert(step_names(order)[i] == sub);
    }
    let k = choose|k: int| 0 <= k < order.len() && step_names(order)[k] == sub;
    assert(!m.steps.contains_key(step_names(order)[k]));
    assert(!m.delegated.contains_key(sub));
    let dom = m.steps.dom();
    assert forall|c: Seq<char>| dom.contains(c) implies #[trigger] grown.steps[c]
        == m.steps[c] by {
        if step_names(order).contains(c) {
            let i = choose|i: int| 0 <= i < order.len() && step_names(order)[i] == c;
            assert(!m.steps.contains_key(step_names(order)[i]));
        }
    }
    assert forall|c: Seq<char>, d: Seq<char>| dom.contains(c) implies times(
        grown.reads(c),
        d,
    ) <= #[trigger] times(grown.children(d), c) by {
        assert(grown.children(d) == m.children(d));
        assert(times(m.reads(c), d) <= times(m.children(d), c));
    }
    assert forall|c: Seq<char>|
        #![trigger counted(grown, none, set![parent], c)]
        dom.contains(c) && !grown.settled.contains(c) implies counted(
        grown,
        none,
        set![parent],
        c,
    ) by {
        assert(counted(m, none, set![parent], c));
        let ds = m.reads(c);
        assert forall|d: Seq<char>| #[trigger] ds.contains(d) && (none.contains(d) || owes(
            m,
            d,
        )) implies none.contains(d) || owes(grown, d) by {}
        lemma_owed_up_to(m, none, grown, none, ds);
    }
    assert forall|i: int| 0 <= i < step_names(order).len() implies grown.steps.contains_key(
        #[trigger] step_names(order)[i],
    ) by {
        assert(step_names(order).contains(step_names(order)[i]));
    }
    lemma_join(grown, set![parent], dom, step_names(order), depth);
    let whole = dom.union(step_names(order).to_set());
    assert(whole =~= grown.steps.dom());
    assert(a.steps == joined.steps);
    assert forall|d: Seq<char>| owes(joined, d) implies #[trigger] owes(a, d) by {
        assert(a.delegated.contains_key(sub) && a.delegated[sub] == parent);
        if joined.delegated.contains_value(d) {
            let s = choose|s: Seq<char>| #[trigger]
                joined.delegated.contains_key(s) && joined.delegated[s] == d;
            assert(a.delegated.contains_key(s) && a.delegated[s] == d);
        }
    }
    assert forall|c: Seq<char>, d: Seq<char>| whole.contains(c) implies times(
        a.reads(c),
        d,
    ) <= #[trigger] times(a.children(d), c) by {
        assert(a.children(d) == joined.children(d));
        assert(times(joined.reads(c), d) <= times(joined.children(d), c));
    }
    assert forall|c: Seq<char>|
        #![trigger counted(a, none, none, c)]
        whole.contains(c) && !a.settled.contains(c) implies counted(a, none, none, c) by {
        assert(counted(joined, none, set![parent], c));
        let ds = a.reads(c);
        assert forall|d: Seq<char>| #[trigger] ds.contains(d) && (none.contains(d) || owes(
            joined,
            d,
        )) implies none.contains(d) || owes(a, d) by {}
        lemma_owed_up_to(joined, none, a, none, ds);
    }
    lemma_join_results(grown, step_names(order), depth);
    assert(of_steps(a, none)) by {
        assert(set![parent].contains(parent));
        assert forall|d: Seq<char>, c: Seq<char>| #[trigger]
            a.children(d).contains(c) implies a.steps.contains_key(c) by {
            lemma_times_contains(a.children(d), c);
            lemma_times_contains(m.children(d), c);
            assert(a.children(d) == joined.children(d));
            lemma_join_children(grown, step_names(order), depth, d, c);
        }
    }
    assert forall|s: Seq<char>| #[trigger]
        a.delegated.contains_key(s) && !none.contains(s) && a.settled.contains(s) implies was_skipped(
        a,
        s,
    ) || a.delegated.contains_value(s) by {
        assert(a.delegated.contains_key(sub) && a.delegated[sub] == parent);
        if s == sub {
            assert(!m.settled.contains(sub));
            assert(set![parent].contains(parent));
        } else if s != parent {
            assert(m.delegated.contains_key(s));
            if !was_skipped(m, s) {
                let t = choose|t: Seq<char>| #[trigger]
                    m.delegated.contains_key(t) && m.delegated[t] == s;
                assert(a.delegated.contains_key(t) && a.delegated[t] == s);
            }
        }
    }
}

proof fn lemma_join_children(
    m: RunModel,
    added: Seq<Seq<char>>,
    depth: nat,
    d: Seq<char>,
    c: Seq<char>,
)
    ensures
        m.join(added, depth).children(d).contains(c) ==> m.children(d).contains(c)
            || added.contains(c),
    decreases added.len(),
{
    if added.len() > 0 {
        let w = added.drop_last();
        let k = added.last();
        let b = m.join(w, depth);
        let a = m.join(added, depth);
        lemma_join_children(m, w, depth, d, c);
        lemma_waiting_on(b.dependents, b.reads(k), k, b, a);
        lemma_times_contains(a.children(d), c);
        lemma_times_contains(b.children(d), c);
        assert(added[added.len() - 1] == k);
        if w.contains(c) {
            let i = choose|i: int| 0 <= i < w.len() && w[i] == c;
            assert(added[i] == c);
        }
        assert(times(a.children(d), c) == times(b.children(d), c) + if c == k {
            times(b.reads(k), d)
        } else {
            0
        });
    }
}

proof fn lemma_join_results(m: RunModel, added: Seq<Seq<char>>, depth: nat)
    ensures
        m.join(added, depth).reports == m.reports,
    decreases added.len(),
{
    if added.len() > 0 {
        lemma_join_results(m, added.drop_last(), depth);
    }
}

/// Before anything has run, no node waits for nothing.
pub proof fn law_a_run_starts_caught_up(p: Plan, g: Steps, max_depth: nat)
    requires
        plans(p, g),
    ensures
        keeps_up(
            (RunModel {
                dependents: name_lists(p.dependents@),
                ..RunModel::start(g, key_names(p.topo@), max_depth)
            }),
            Set::empty(),
        ),
{
    let none = Set::<Seq<char>>::empty();
    let t = key_names(p.topo@);
    let m = RunModel { dependents: name_lists(p.dependents@), ..RunModel::start(g, t, max_depth) };
    let first = |k: Seq<char>| g[k].deps@.len() == 0;
    assert forall|c: Seq<char>, d: Seq<char>| m.steps.dom().contains(c) implies times(
        m.reads(c),
        d,
    ) <= #[trigger] times(m.children(d), c) by {
        let ds = m.reads(c);
        lemma_unrepeated(g[c].dep_names());
        lemma_times_distinct(ds, d);
        lemma_times_contains(ds, d);
        if ds.contains(d) {
            assert(edge(p.dependents@, d, c));
            lemma_times_contains(m.children(d), c);
        }
    }
    assert forall|d: Seq<char>, c: Seq<char>| #[trigger]
        m.children(d).contains(c) implies m.steps.contains_key(c) by {
        assert(edge(p.dependents@, d, c));
    }
    assert forall|c: Seq<char>|
        #![trigger counted(m, none, none, c)]
        m.steps.dom().contains(c) && !m.settled.contains(c) implies counted(
        m,
        none,
        none,
        c,
    ) by {
        let ds = m.reads(c);
        lemma_unrepeated(g[c].dep_names());
        lemma_open_is_owed(m, ds);
        lemma_all_open(m, ds);
        assert(m.pending[c] == ds.len());
        if ds.len() == 0 {
            assert(t.contains(c));
            let j = choose|j: int| 0 <= j < t.len() && t[j] == c;
            t.lemma_filter_contains(first, j);
        }
    }
}

pub(crate) proof fn lemma_all_open(m: RunModel, ds: Seq<Seq<char>>)
    requires
        m.settled == Set::<Seq<char>>::empty(),
    ensures
        open_count(m, ds) == ds.len(),
    decreases ds.len(),
{
    if ds.len() > 0 {
        lemma_all_open(m, ds.drop_last());
    }
}

/// Taking a node from the queue, or finding none there, keeps the counts right.
proof fn lemma_queue(
    m: RunModel,
    in_hand: Set<Seq<char>>,
    a: RunModel,
    now_in_hand: Set<Seq<char>>,
)
    requires
        keeps_up(m, in_hand),
        a.steps == m.steps,
        a.dependents == m.dependents,
        a.pending == m.pending,
        a.settled == m.settled,
        a.delegated == m.delegated,
        a.reports == m.reports,
        a.running.subset_of(m.steps.dom()),
        now_in_hand.subset_of(m.steps.dom()),
        forall|c: Seq<char>|
            (m.dispatchable(c) || m.running.contains(c)) && #[trigger] m.steps.contains_key(c) && (
            m.ready.contains(c) || m.running.contains(c) || in_hand.contains(c))
                ==> a.ready.contains(c) || a.running.contains(c) || now_in_hand.contains(c),
    ensures
        keeps_up(a, now_in_hand),
{
    let none = Set::<Seq<char>>::empty();
    assert forall|c: Seq<char>, d: Seq<char>| a.steps.dom().contains(c) implies times(
        a.reads(c),
        d,
    ) <= #[trigger] times(a.children(d), c) by {
        assert(a.children(d) == m.children(d));
        assert(times(m.reads(c), d) <= times(m.children(d), c));
    }
    assert forall|c: Seq<char>|
        #![trigger counted(a, none, now_in_hand, c)]
        a.steps.dom().contains(c) && !a.settled.contains(c) implies counted(
        a,
        none,
        now_in_hand,
        c,
    ) by {
        assert(counted(m, none, in_hand, c));
        assert(m.steps.contains_key(c));
        let ds = m.reads(c);
        assert forall|d: Seq<char>| #[trigger] ds.contains(d) && (none.contains(d) || owes(
            m,
            d,
        )) implies none.contains(d) || owes(a, d) by {}
        lemma_owed_up_to(m, none, a, none, ds);
    }
    assert forall|s: Seq<char>| #[trigger]
        a.delegated.contains_key(s) && !none.contains(s) && a.settled.contains(s) implies was_skipped(
        a,
        s,
    ) || a.delegated.contains_value(s) by {
        assert(m.delegated.contains_key(s));
    }
    assert forall|d: Seq<char>, c: Seq<char>| #[trigger]
        a.children(d).contains(c) implies a.steps.contains_key(c) by {
        assert(m.children(d).contains(c));
    }
}

proof fn lemma_takes(m: RunModel, d: Dispatch, a: RunModel)
    requires
        keeps_up(m, Set::empty()),
        takes(m, d, a),
    ensures
        keeps_up(a, set![d.spec.key@]),
{
    let k = d.spec.key@;
    let i = choose|i: int|
        {
            &&& 0 <= i < m.ready.len() && #[trigger] m.ready[i] == k
            &&& a == RunModel { ready: m.ready.skip(i + 1), ..m }
            &&& forall|j: int| 0 <= j < i ==> !m.dispatchable(#[trigger] m.ready[j])
        };
    assert forall|c: Seq<char>|
        (m.dispatchable(c) || m.running.contains(c)) && #[trigger] m.steps.contains_key(c) && (
        m.ready.contains(c) || m.running.contains(c)) implies a.ready.contains(c)
        || a.running.contains(c) || set![k].contains(c) by {
        if !m.running.contains(c) {
            let j = choose|j: int| 0 <= j < m.ready.len() && m.ready[j] == c;
            if j > i {
                assert(a.ready[j - i - 1] == c);
            } else if j < i {
                assert(!m.dispatchable(m.ready[j]));
            }
        }
    }
    lemma_queue(m, Set::empty(), a, set![k]);
}

/// No turn of a run leaves a node waiting for nothing; one that is to be looked up, or taken up as
/// it was left, is in hand.
pub proof fn law_a_turn_keeps_up(
    before: RunModel,
    done: Map<Seq<char>, JournalEntry>,
    t: Turn,
    after: RunModel,
)
    requires
        keeps_up(before, Set::empty()),
        turns(before, done, t, after),
    ensures
        match t {
            Turn::Look(d) | Turn::Resumed(d) => keeps_up(after, set![d.spec.key@]),
            _ => keeps_up(after, Set::empty()),
        },
{
    match t {
        Turn::Look(d) => {
            lemma_takes(before, d, after);
        },
        Turn::Resumed(d) => {
            lemma_takes(before, d, after);
        },
        _ => {
            assert(drained(before, after));
            assert forall|c: Seq<char>|
                (before.dispatchable(c) || before.running.contains(c))
                    && #[trigger] before.steps.contains_key(c) && (before.ready.contains(c)
                    || before.running.contains(c)) implies after.running.contains(c) by {
                if !before.running.contains(c) {
                    let j = choose|j: int| 0 <= j < before.ready.len() && before.ready[j] == c;
                    assert(!before.dispatchable(before.ready[j]));
                }
            }
            lemma_queue(before, Set::empty(), after, Set::empty());
        },
    }
}

/// A node in hand that is started is running: no node is left waiting for nothing.
pub proof fn law_starting_keeps_up(m: RunModel, k: Seq<char>)
    requires
        keeps_up(m, set![k]),
    ensures
        keeps_up((RunModel { running: m.running.insert(k), ..m }), Set::empty()),
{
    lemma_queue(m, set![k], RunModel { running: m.running.insert(k), ..m }, Set::empty());
}

/// A node in hand that is served leaves no node waiting for nothing.
pub proof fn law_a_hit_keeps_up(
    before: RunModel,
    spec: NodeSpec,
    action: ActionKey,
    outputs: Seq<Digest>,
    duration_ms: u64,
    replay: Option<Expansion>,
    now: u64,
    r: Result<Effect, EngineError>,
    after: RunModel,
)
    requires
        keeps_up(before, set![spec.key@]),
        hits(before, spec, action, outputs, duration_ms, replay, now, r, after),
        r is Ok,
    ensures
        keeps_up(after, Set::empty()),
{
    let k = spec.key@;
    let m = RunModel { saved_ms: (before.saved_ms + duration_ms) as u64, ..before };
    lemma_queue(before, set![k], m, set![k]);
    let report = ReportModel {
        action: Some(action),
        status: NodeStatus::Hit,
        ..skipped_report(k, spec.kind, now)
    };
    match replay {
        None => {
            law_settling_keeps_up(m, ReportModel { outputs, ..report });
        },
        Some(exp) => {
            let added = key_names(r->Ok_0->Expanded_0@);
            lemma_expanded_as(m, after, exp, added, report);
        },
    }
}

/// A node in hand that is taken up as it was left leaves no node waiting for nothing.
pub proof fn law_a_resumption_keeps_up(
    before: RunModel,
    spec: NodeSpec,
    action: ActionKey,
    outputs: Seq<Digest>,
    attribution: Attribution,
    replay: Option<Expansion>,
    now: u64,
    r: Result<Effect, EngineError>,
    after: RunModel,
)
    requires
        keeps_up(before, set![spec.key@]),
        resumes(before, spec, action, outputs, attribution, replay, now, r, after),
        r is Ok,
    ensures
        keeps_up(after, Set::empty()),
{
    let report = resumed_report(spec, action, outputs, attribution, now);
    match replay {
        None => {
            law_settling_keeps_up(before, report);
        },
        Some(exp) => {
            let added = key_names(r->Ok_0->Expanded_0@);
            lemma_expanded_as(
                before,
                after,
                exp,
                added,
                ReportModel { outputs: Seq::empty(), ..report },
            );
        },
    }
}

proof fn lemma_expanded_as(
    m: RunModel,
    after: RunModel,
    exp: Expansion,
    added: Seq<Seq<char>>,
    report: ReportModel,
)
    requires
        keeps_up(m, set![report.key]),
        expanded_as(m, after, exp, added, report),
    ensures
        keeps_up(after, Set::empty()),
{
    let mid = choose|mid: RunModel|
        {
            &&& #[trigger] expanded(m, mid, report.key, exp.nodes@, exp.substitute@, added)
            &&& after == mid.delegate(report)
        };
    law_expanding_keeps_up(m, mid, exp.nodes@, exp.substitute@, added, report);
}

/// A node that an executor is done with leaves no node waiting for nothing.
pub proof fn law_an_end_keeps_up(
    before: RunModel,
    spec: NodeSpec,
    action: ActionKey,
    output: NodeOutput,
    expansion: Option<Expansion>,
    exec_ms: u64,
    queue_ms: u64,
    was_job: bool,
    now: u64,
    r: Result<Effect, EngineError>,
    after: RunModel,
)
    requires
        keeps_up(before, Set::empty()),
        before.running.contains(spec.key@),
        completes(
            before,
            spec,
            action,
            output,
            expansion,
            exec_ms,
            queue_ms,
            was_job,
            now,
            r,
            after,
        ),
        r is Ok,
    ensures
        keeps_up(after, Set::empty()),
{
    let k = spec.key@;
    let m = RunModel { running: before.running.remove(k), ..before };
    lemma_queue(before, Set::empty(), m, set![k]);
    let passed = output.verdict is Pass;
    let report = |status: NodeStatus|
        result_report(
            k,
            spec.kind,
            action,
            status,
            output,
            exec_ms,
            queue_ms,
            was_job,
            now,
        );
    if passed && expansion is Some {
        let added = key_names(r->Ok_0->Expanded_0@);
        let same = RunModel { attribution: m.attribution, ..after };
        lemma_expanded_as(
            m,
            same,
            expansion->0,
            added,
            ReportModel {
                outputs: Seq::empty(),
                diagnostics: Seq::empty(),
                ..report(NodeStatus::Expanded)
            },
        );
        lemma_queue(same, Set::empty(), after, Set::empty());
    } else {
        law_settling_keeps_up(
            m,
            report(
                if passed {
                    NodeStatus::Computed
                } else {
                    NodeStatus::Failed
                },
            ),
        );
    }
}

/// When a run is over, no node was left that could have run: one that is not settled depends on
/// a node that still owes its answer.
pub proof fn law_no_node_waits_for_nothing(
    m: RunModel,
    done: Map<Seq<char>, JournalEntry>,
    after: RunModel,
    c: Seq<char>,
)
    requires
        keeps_up(m, Set::empty()),
        turns(m, done, Turn::Over, after),
        m.steps.contains_key(c),
        !m.settled.contains(c),
    ensures
        exists|i: int|
            0 <= i < m.steps[c].dep_names().len() && owes(m, #[trigger] m.steps[c].dep_names()[i]),
{
    let none = Set::<Seq<char>>::empty();
    assert(counted(m, none, none, c));
    if m.pending[c] == 0 {
        assert(m.ready.contains(c));
        let j = choose|j: int| 0 <= j < m.ready.len() && m.ready[j] == c;
        assert(!m.dispatchable(m.ready[j]));
    }
    let ds = m.steps[c].dep_names();
    let i = lemma_owed_by(m, m.reads(c));
    lemma_unrepeated(ds);
    assert(m.reads(c).contains(m.reads(c)[i]));
    let j = choose|j: int| 0 <= j < ds.len() && ds[j] == m.reads(c)[i];
    assert(owes(m, ds[j]));
}

/// A node that still owes its answer when a run is over waits, directly or through others, for a
/// node that failed or was skipped, or is one.
proof fn lemma_behind(
    m: RunModel,
    done: Map<Seq<char>, JournalEntry>,
    after: RunModel,
    rank: spec_fn(Seq<char>) -> nat,
    x: Seq<char>,
)
    requires
        keeps_up(m, Set::empty()),
        turns(m, done, Turn::Over, after),
        forall|k: Seq<char>, d: Seq<char>| #[trigger]
            depends(m.steps, k, d) ==> m.steps.contains_key(d) && rank(d) < rank(k),
        forall|s: Seq<char>| #[trigger]
            m.delegated.contains_key(s) ==> rank(s) < rank(m.delegated[s]),
        m.steps.contains_key(x),
        owes(m, x),
    ensures
        exists|s: Seq<char>| #[trigger] fell_through(m, s),
    decreases rank(x),
{
    if !m.settled.contains(x) {
        law_no_node_waits_for_nothing(m, done, after, x);
        let ds = m.steps[x].dep_names();
        let i = choose|i: int| 0 <= i < ds.len() && owes(m, #[trigger] ds[i]);
        assert(ds.contains(ds[i]));
        assert(depends(m.steps, x, ds[i]));
        lemma_behind(m, done, after, rank, ds[i]);
    } else if m.delegated.contains_value(x) {
        let s = choose|s: Seq<char>| #[trigger]
            m.delegated.contains_key(s) && m.delegated[s] == x;
        if was_skipped(m, s) {
            assert(fell_through(m, s));
        } else {
            assert(owes(m, s));
            lemma_behind(m, done, after, rank, s);
        }
    } else {
        assert(fell_through(m, x));
    }
}

/// What a run leaves open when it is over sits behind a failure: some node failed, or was cut off
/// and skipped. (`rank` is any order in which steps come after what they
/// depend on, and a node that hands its identity on after the node that answers for it; there is
/// none where an expansion waits for what waits for it.)
pub proof fn law_what_is_left_sits_behind_a_failure(
    m: RunModel,
    done: Map<Seq<char>, JournalEntry>,
    after: RunModel,
    rank: spec_fn(Seq<char>) -> nat,
    c: Seq<char>,
)
    requires
        keeps_up(m, Set::empty()),
        turns(m, done, Turn::Over, after),
        forall|k: Seq<char>, d: Seq<char>| #[trigger]
            depends(m.steps, k, d) ==> m.steps.contains_key(d) && rank(d) < rank(k),
        forall|s: Seq<char>| #[trigger]
            m.delegated.contains_key(s) ==> rank(s) < rank(m.delegated[s]),
        m.steps.contains_key(c),
        !m.settled.contains(c),
    ensures
        exists|s: Seq<char>| #[trigger] fell_through(m, s),
{
    lemma_behind(m, done, after, rank, c);
}

} // verus!
