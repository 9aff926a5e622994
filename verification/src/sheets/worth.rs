//! What a recalculation comes to, and why recalculating a part comes to the same as the whole.

use crate::reach::lemma_distinct_len;
use crate::reach::lemma_reach_root;
use crate::reach::lemma_reach_step;
use crate::reach::on_cycle;
use crate::reach::reachable;
use crate::reach::walk;
use crate::sheets::cell::in_order;
use crate::sheets::cell::lemma_in_order_distinct;
use crate::sheets::cell::CellView;
use crate::sheets::formula::reads_of;
use crate::sheets::recalc::deps_of;
use crate::sheets::recalc::evaluated;
use crate::sheets::recalc::feeds;
use crate::sheets::recalc::given;
use crate::sheets::recalc::held;
use crate::sheets::recalc::keys;
use crate::sheets::recalc::literals;
use crate::sheets::recalc::origin;
use crate::sheets::recalc::pending;
use crate::sheets::recalc::planned;
use crate::sheets::recalc::prepared;
use crate::sheets::recalc::recalc_set;
use crate::sheets::recalc::resolved;
use crate::sheets::recalc::stuck;
use crate::sheets::recalc::Book;
use crate::sheets::recalc::Held;
use crate::sheets::recalc::Origin;
use crate::sheets::recalc::StepView;
use vstd::prelude::*;
use vstd::set_lib::lemma_len_subset;

verus! {

/// What the sources of values mean: any values, with a formula's value a function of the cell, its
/// formula and the values of the cells that it reads.
#[verifier::reject_recursive_types(V)]
pub struct Meaning<V> {
    pub empty: V,
    pub cycle: V,
    pub literal: spec_fn(Seq<char>) -> V,
    pub unreadable: spec_fn(Seq<char>) -> V,
    pub formula: spec_fn(CellView, Seq<char>, Map<CellView, V>) -> V,
}

/// The values of these cells.
pub open spec fn only<V>(m: Map<CellView, V>, deps: Seq<CellView>) -> Map<CellView, V> {
    m.restrict(deps.to_set())
}

/// The text of a cell's formula.
pub open spec fn formula_at(b: Book, at: CellView) -> Seq<char> {
    match held(b.grid, at) {
        Some(Held::Formula(f)) => f,
        _ => Seq::empty(),
    }
}

/// The value that a source gives a cell, from the values so far.
pub open spec fn value<V>(b: Book, w: Meaning<V>, m: Map<CellView, V>, s: StepView) -> V {
    match s.origin {
        Origin::Empty => w.empty,
        Origin::Literal(t) => (w.literal)(t),
        Origin::Cycle => w.cycle,
        Origin::Unreadable(e) => (w.unreadable)(e),
        Origin::Computed => (w.formula)(s.at, formula_at(b, s.at), only(m, deps_of(b, s.at))),
    }
}

/// The values after a run of steps.
pub open spec fn run<V>(b: Book, w: Meaning<V>, m: Map<CellView, V>, s: Seq<StepView>) -> Map<
    CellView,
    V,
>
    decreases s.len(),
{
    if s.len() == 0 {
        m
    } else {
        let before = run(b, w, m, s.drop_last());
        before.insert(s.last().at, value(b, w, before, s.last()))
    }
}

/// The values of a workbook after a change to some of its cells, from the values before it.
pub open spec fn recalculated<V>(
    b: Book,
    w: Meaning<V>,
    dirty: Seq<CellView>,
    previous: Map<CellView, V>,
) -> Map<CellView, V> {
    let kept = previous.remove_keys(recalc_set(b, dirty));
    run(b, w, kept, planned(b, kept.dom()))
}

/// What a cell shows: its value, or nothing.
pub open spec fn shown<V>(w: Meaning<V>, m: Map<CellView, V>, c: CellView) -> V {
    if m.contains_key(c) {
        m[c]
    } else {
        w.empty
    }
}

/// Do the formulas of these cells read only cells of lower rank, again among these cells?
pub open spec fn ranked(b: Book, within: Set<CellView>, rank: spec_fn(CellView) -> nat) -> bool {
    forall|c: CellView, d: CellView|
        within.contains(c) && #[trigger] deps_of(b, c).contains(d) ==> within.contains(d) && rank(d)
            < rank(c)
}

/// Does a cell read no cycle, directly or through others? No formula that it hangs on reads its own
/// cell in the end.
pub open spec fn reads_no_cycle(b: Book, c: CellView) -> bool {
    forall|x: CellView| #[trigger]
        on_cycle(feeds(b), x) ==> !reachable(feeds(b), seq![x], c)
}

/// The value that a cell ought to have, where the values of the cells that it reads are these.
spec fn worth<V>(b: Book, w: Meaning<V>, m: Map<CellView, V>, c: CellView) -> V {
    match held(b.grid, c) {
        None => w.empty,
        Some(Held::Literal(s)) => (w.literal)(s),
        Some(Held::Formula(f)) => match reads_of(c.sheet, f, b.names) {
            Ok(v) => (w.formula)(c, f, only(m, v)),
            Err(e) => (w.unreadable)("#VALUE! "@ + e),
        },
    }
}

/// Has each of these cells that has a value the value that it ought to have, with all that it reads
/// valued too?
spec fn settled<V>(b: Book, w: Meaning<V>, within: Set<CellView>, m: Map<CellView, V>) -> bool {
    forall|c: CellView|
        within.contains(c) && #[trigger] m.contains_key(c) ==> m[c] == worth(b, w, m, c) && forall|
            d: CellView,
        |
            #[trigger] deps_of(b, c).contains(d) ==> m.contains_key(d)
}

/// Do the values of these cells carry over?
spec fn extends<V>(within: Set<CellView>, m: Map<CellView, V>, n: Map<CellView, V>) -> bool {
    forall|c: CellView|
        within.contains(c) && #[trigger] m.contains_key(c) ==> n.contains_key(c) && n[c] == m[c]
}

/// A path down from cell to cell that it reads, with none twice.
spec fn path_ok(b: Book, path: Seq<CellView>) -> bool {
    &&& path.no_duplicates()
    &&& forall|i: int| 0 <= i < path.len() ==> keys(b.grid).contains(#[trigger] path[i])
    &&& forall|i: int|
        0 <= i < path.len() - 1 ==> (#[trigger] deps_of(b, path[i])).contains(path[i + 1])
}

/// Does the last cell of a path read this one?
spec fn hangs(b: Book, path: Seq<CellView>, at: CellView) -> bool {
    path.len() > 0 ==> deps_of(b, path.last()).contains(at)
}

/// From a ranked cell on, a path stays among the ranked cells and goes down.
proof fn lemma_descends(
    b: Book,
    within: Set<CellView>,
    rank: spec_fn(CellView) -> nat,
    path: Seq<CellView>,
    i: int,
    j: int,
)
    requires
        ranked(b, within, rank),
        path_ok(b, path),
        0 <= i <= j < path.len(),
        within.contains(path[i]),
    ensures
        within.contains(path[j]),
        rank(path[j]) <= rank(path[i]),
    decreases j - i,
{
    if i < j {
        lemma_descends(b, within, rank, path, i, j - 1);
        assert(deps_of(b, path[j - 1]).contains(path[j]));
    }
}

/// A ranked cell below a path is not stuck.
proof fn lemma_not_stuck(
    b: Book,
    within: Set<CellView>,
    rank: spec_fn(CellView) -> nat,
    path: Seq<CellView>,
    at: CellView,
)
    requires
        in_order(keys(b.grid)),
        ranked(b, within, rank),
        path_ok(b, path),
        hangs(b, path, at),
        within.contains(at),
        held(b.grid, at) is Some,
    ensures
        !stuck(b, at, path),
{
    if path.contains(at) {
        let i = choose|i: int| 0 <= i < path.len() && path[i] == at;
        lemma_descends(b, within, rank, path, i, path.len() - 1);
        assert(rank(at) < rank(path.last()));
    }
    let longer = path.push(at);
    assert(longer.no_duplicates());
    assert forall|i: int| 0 <= i < longer.len() implies keys(b.grid).contains(
        #[trigger] longer[i],
    ) by {
        if i < path.len() {
            assert(longer[i] == path[i]);
        }
    }
    lemma_distinct_len(longer, keys(b.grid));
}

/// Steps that give a value to cells beyond these leave what these are worth.
proof fn lemma_worth_agrees<V>(
    b: Book,
    w: Meaning<V>,
    m: Map<CellView, V>,
    n: Map<CellView, V>,
    c: CellView,
)
    requires
        forall|d: CellView| #[trigger]
            deps_of(b, c).contains(d) ==> (m.contains_key(d) <==> n.contains_key(d)) && (
            m.contains_key(d) ==> m[d] == n[d]),
    ensures
        worth(b, w, m, c) == worth(b, w, n, c),
{
    if let Some(Held::Formula(f)) = held(b.grid, c) {
        if let Ok(v) = reads_of(c.sheet, f, b.names) {
            assert(v == deps_of(b, c));
            assert forall|d: CellView|
                only(m, v).contains_key(d) == only(n, v).contains_key(d) && (only(
                    m,
                    v,
                ).contains_key(d) ==> only(m, v)[d] == only(n, v)[d]) by {
                if v.to_set().contains(d) {
                    assert(deps_of(b, c).contains(d));
                }
            }
            assert(only(m, v) =~= only(n, v));
        }
    }
}

/// Giving a cell the value that it ought to have keeps values settled.
proof fn lemma_put<V>(
    b: Book,
    w: Meaning<V>,
    within: Set<CellView>,
    m: Map<CellView, V>,
    at: CellView,
    v: V,
)
    requires
        settled(b, w, within, m),
        forall|c: CellView, d: CellView|
            within.contains(c) && #[trigger] deps_of(b, c).contains(d) ==> within.contains(d),
        within.contains(at) ==> v == worth(b, w, m, at) && forall|d: CellView| #[trigger]
            deps_of(b, at).contains(d) ==> m.contains_key(d),
    ensures
        settled(b, w, within, m.insert(at, v)),
        extends(within, m, m.insert(at, v)),
{
    let n = m.insert(at, v);
    if within.contains(at) && m.contains_key(at) {
        assert(n =~= m);
    } else {
        assert forall|c: CellView| within.contains(c) && #[trigger] n.contains_key(c) implies n[c]
            == worth(b, w, n, c) && forall|d: CellView| #[trigger]
            deps_of(b, c).contains(d) ==> n.contains_key(d) by {
            if c != at {
                assert(m.contains_key(c));
            }
            assert forall|d: CellView| #[trigger] deps_of(b, c).contains(d) implies m.contains_key(
                d,
            ) && n.contains_key(d) && m[d] == n[d] by {
                assert(within.contains(d));
                assert(m.contains_key(d));
            }
            lemma_worth_agrees(b, w, m, n, c);
        }
    }
}

proof fn lemma_run_push<V>(b: Book, w: Meaning<V>, m: Map<CellView, V>, s: Seq<StepView>, x: StepView)
    ensures
        run(b, w, m, s.push(x)) == run(b, w, m, s).insert(
            x.at,
            value(b, w, run(b, w, m, s), x),
        ),
{
    assert(s.push(x).drop_last() =~= s);
}

proof fn lemma_run_add<V>(
    b: Book,
    w: Meaning<V>,
    m: Map<CellView, V>,
    s: Seq<StepView>,
    t: Seq<StepView>,
)
    ensures
        run(b, w, m, s + t) == run(b, w, run(b, w, m, s), t),
    decreases t.len(),
{
    if t.len() == 0 {
        assert(s + t =~= s);
    } else {
        lemma_run_add(b, w, m, s, t.drop_last());
        assert((s + t).drop_last() =~= s + t.drop_last());
        assert((s + t).last() == t.last());
    }
}

/// The cells with values after a run of steps.
proof fn lemma_run_dom<V>(b: Book, w: Meaning<V>, m: Map<CellView, V>, s: Seq<StepView>)
    ensures
        run(b, w, m, s).dom() == m.dom().union(given(s)),
    decreases s.len(),
{
    let r = run(b, w, m, s);
    if s.len() == 0 {
        assert(given(s) =~= Set::<CellView>::empty());
        assert(r.dom() =~= m.dom().union(given(s)));
    } else {
        let f = s.drop_last();
        lemma_run_dom(b, w, m, f);
        assert forall|c: CellView| r.dom().contains(c) == m.dom().union(given(s)).contains(c) by {
            assert(r.dom().contains(c) <==> run(b, w, m, f).dom().contains(c) || c == s.last().at);
            if given(s).contains(c) {
                let i = choose|i: int| 0 <= i < s.len() && (#[trigger] s[i]).at == c;
                if i < f.len() {
                    assert(f[i].at == c);
                    assert(given(f).contains(c));
                }
            }
            if given(f).contains(c) {
                let i = choose|i: int| 0 <= i < f.len() && (#[trigger] f[i]).at == c;
                assert(s[i].at == c);
                assert(given(s).contains(c));
            }
            if c == s.last().at {
                assert(s[s.len() - 1].at == c);
                assert(given(s).contains(c));
            }
        }
        assert(r.dom() =~= m.dom().union(given(s)));
    }
}

/// What the steps for one cell do: ranked cells keep their values and get the values that they
/// ought to have, and this cell has one.
proof fn lemma_cell_steps<V>(
    b: Book,
    w: Meaning<V>,
    within: Set<CellView>,
    rank: spec_fn(CellView) -> nat,
    at: CellView,
    path: Seq<CellView>,
    m: Map<CellView, V>,
)
    requires
        in_order(keys(b.grid)),
        ranked(b, within, rank),
        path_ok(b, path),
        hangs(b, path, at),
        path.len() <= b.grid.len(),
        settled(b, w, within, m),
    ensures
        ({
            let own = prepared(b, at, path, m.dom()).push(
                StepView { at, origin: origin(b, at, path) },
            );
            let n = run(b, w, m, own);
            &&& settled(b, w, within, n)
            &&& extends(within, m, n)
            &&& n.dom() == m.dom().union(given(own))
            &&& n.contains_key(at)
        }),
    decreases b.grid.len() - path.len(), 0nat,
{
    let prep = prepared(b, at, path, m.dom());
    let x = StepView { at, origin: origin(b, at, path) };
    let mid = run(b, w, m, prep);
    lemma_run_push(b, w, m, prep, x);
    lemma_run_dom(b, w, m, prep.push(x));
    if origin(b, at, path) is Computed && path.len() < b.grid.len() {
        let longer = path.push(at);
        assert(path_ok(b, longer)) by {
            assert forall|i: int| 0 <= i < longer.len() implies keys(b.grid).contains(
                #[trigger] longer[i],
            ) by {
                if i < path.len() {
                    assert(longer[i] == path[i]);
                }
            }
            assert forall|i: int| 0 <= i < longer.len() - 1 implies (
            #[trigger] deps_of(b, longer[i])).contains(longer[i + 1]) by {
                assert(longer[i] == path[i]);
                if i < path.len() - 1 {
                    assert(longer[i + 1] == path[i + 1]);
                } else {
                    assert(path.last() == path[i]);
                }
            }
        }
        lemma_dep_steps(b, w, within, rank, deps_of(b, at), longer, m);
    }
    if within.contains(at) {
        if held(b.grid, at) is Some {
            lemma_not_stuck(b, within, rank, path, at);
        }
        assert(value(b, w, mid, x) == worth(b, w, mid, at));
    }
    lemma_put(b, w, within, mid, at, value(b, w, mid, x));
}

/// What the steps for the cells that a formula reads do.
proof fn lemma_dep_steps<V>(
    b: Book,
    w: Meaning<V>,
    within: Set<CellView>,
    rank: spec_fn(CellView) -> nat,
    deps: Seq<CellView>,
    path: Seq<CellView>,
    m: Map<CellView, V>,
)
    requires
        in_order(keys(b.grid)),
        ranked(b, within, rank),
        path_ok(b, path),
        path.len() <= b.grid.len(),
        forall|i: int| 0 <= i < deps.len() ==> hangs(b, path, #[trigger] deps[i]),
        settled(b, w, within, m),
    ensures
        ({
            let n = run(b, w, m, resolved(b, deps, path, m.dom()));
            &&& settled(b, w, within, n)
            &&& extends(within, m, n)
            &&& n.dom() == m.dom().union(given(resolved(b, deps, path, m.dom())))
            &&& forall|i: int| 0 <= i < deps.len() ==> n.contains_key(#[trigger] deps[i])
        }),
    decreases b.grid.len() - path.len(), deps.len() + 1,
{
    let all = resolved(b, deps, path, m.dom());
    let n = run(b, w, m, all);
    lemma_run_dom(b, w, m, all);
    if deps.len() > 0 {
        let d = deps[0];
        let rest = deps.skip(1);
        assert forall|i: int| 0 <= i < rest.len() implies hangs(b, path, #[trigger] rest[i]) by {
            assert(rest[i] == deps[i + 1]);
        }
        if m.dom().contains(d) {
            lemma_dep_steps(b, w, within, rank, rest, path, m);
            assert(n.dom().contains(d));
        } else {
            let own = prepared(b, d, path, m.dom()).push(
                StepView { at: d, origin: origin(b, d, path) },
            );
            let mid = run(b, w, m, own);
            lemma_cell_steps(b, w, within, rank, d, path, m);
            lemma_dep_steps(b, w, within, rank, rest, path, mid);
            let more = resolved(b, rest, path, mid.dom());
            assert(all == own + more);
            lemma_run_add(b, w, m, own, more);
            assert(extends(within, m, n)) by {
                assert forall|c: CellView|
                    within.contains(c) && #[trigger] m.contains_key(c) implies n.contains_key(c)
                    && n[c] == m[c] by {
                    assert(mid.contains_key(c));
                }
            }
            assert(n.dom() == mid.dom().union(given(more)));
            assert(mid.dom().contains(d));
            assert(n.dom().contains(d));
        }
        assert forall|i: int| 0 <= i < deps.len() implies n.contains_key(#[trigger] deps[i]) by {
            if i > 0 {
                assert(rest[i - 1] == deps[i]);
            }
        }
    }
}

/// What the steps for a run of cells do.
proof fn lemma_order_steps<V>(
    b: Book,
    w: Meaning<V>,
    within: Set<CellView>,
    rank: spec_fn(CellView) -> nat,
    order: Seq<CellView>,
    m: Map<CellView, V>,
)
    requires
        in_order(keys(b.grid)),
        ranked(b, within, rank),
        settled(b, w, within, m),
    ensures
        ({
            let n = run(b, w, m, evaluated(b, order, m.dom()));
            &&& settled(b, w, within, n)
            &&& extends(within, m, n)
            &&& m.dom().subset_of(n.dom())
            &&& forall|i: int| 0 <= i < order.len() ==> n.contains_key(#[trigger] order[i])
        }),
    decreases order.len(),
{
    if order.len() > 0 {
        let none = Seq::<CellView>::empty();
        let own = prepared(b, order[0], none, m.dom()).push(
            StepView { at: order[0], origin: origin(b, order[0], none) },
        );
        let mid = run(b, w, m, own);
        let rest = order.skip(1);
        lemma_cell_steps(b, w, within, rank, order[0], none, m);
        lemma_order_steps(b, w, within, rank, rest, mid);
        let more = evaluated(b, rest, mid.dom());
        lemma_run_add(b, w, m, own, more);
        let n = run(b, w, m, own + more);
        assert(extends(within, m, n)) by {
            assert forall|c: CellView|
                within.contains(c) && #[trigger] m.contains_key(c) implies n.contains_key(c)
                && n[c] == m[c] by {
                assert(mid.contains_key(c));
            }
        }
        assert(mid.dom().contains(order[0]));
        assert forall|i: int| 0 <= i < order.len() implies n.contains_key(#[trigger] order[i]) by {
            if i > 0 {
                assert(rest[i - 1] == order[i]);
            } else {
                assert(n.dom().contains(order[0]));
            }
        }
    }
}

/// What the steps for the literals do.
proof fn lemma_literal_steps<V>(
    b: Book,
    w: Meaning<V>,
    within: Set<CellView>,
    rank: spec_fn(CellView) -> nat,
    n: int,
    m: Map<CellView, V>,
)
    requires
        in_order(keys(b.grid)),
        ranked(b, within, rank),
        settled(b, w, within, m),
        0 <= n <= b.grid.len(),
    ensures
        ({
            let r = run(b, w, m, literals(b.grid.take(n), m.dom()));
            &&& settled(b, w, within, r)
            &&& extends(within, m, r)
            &&& m.dom().subset_of(r.dom())
            &&& forall|i: int|
                0 <= i < n && (#[trigger] b.grid[i]).1 is Literal ==> r.contains_key(b.grid[i].0)
        }),
    decreases n,
{
    if n > 0 {
        let g = b.grid.take(n);
        let e = b.grid[n - 1];
        assert(g.drop_last() =~= b.grid.take(n - 1));
        assert(g.last() == e);
        lemma_literal_steps(b, w, within, rank, n - 1, m);
        let rest = literals(b.grid.take(n - 1), m.dom());
        let mid = run(b, w, m, rest);
        let r = run(b, w, m, literals(g, m.dom()));
        if let Held::Literal(s) = e.1 {
            if !m.dom().contains(e.0) {
                let x = StepView { at: e.0, origin: Origin::Literal(s) };
                lemma_run_push(b, w, m, rest, x);
                lemma_held(b, n - 1);
                lemma_put(b, w, within, mid, e.0, (w.literal)(s));
                assert(extends(within, m, r)) by {
                    assert forall|c: CellView|
                        within.contains(c) && #[trigger] m.contains_key(c) implies r.contains_key(c)
                        && r[c] == m[c] by {
                        assert(mid.contains_key(c));
                    }
                }
                assert(r == mid.insert(e.0, (w.literal)(s)));
            } else {
                assert(mid.dom().contains(e.0));
            }
        }
        assert forall|i: int|
            0 <= i < n && (#[trigger] b.grid[i]).1 is Literal implies r.contains_key(
            b.grid[i].0,
        ) by {
            if i < n - 1 {
                assert(mid.contains_key(b.grid[i].0));
            }
        }
    } else {
        assert(b.grid.take(0) =~= Seq::<(CellView, Held)>::empty());
    }
}

proof fn lemma_held(b: Book, i: int)
    requires
        in_order(keys(b.grid)),
        0 <= i < b.grid.len(),
    ensures
        held(b.grid, b.grid[i].0) == Some(b.grid[i].1),
{
    lemma_in_order_distinct(keys(b.grid));
    assert(keys(b.grid)[i] == b.grid[i].0);
    assert(keys(b.grid).contains(b.grid[i].0));
    assert(keys(b.grid).index_of(b.grid[i].0) == i);
}

proof fn lemma_pending(g: Seq<(CellView, Held)>, known: Set<CellView>, i: int)
    requires
        0 <= i < g.len(),
        g[i].1 is Formula,
        !known.contains(g[i].0),
    ensures
        pending(g, known).contains(g[i].0),
    decreases g.len(),
{
    let rest = pending(g.drop_last(), known);
    if i == g.len() - 1 {
        assert(rest.push(g[i].0)[rest.len() as int] == g[i].0);
    } else {
        lemma_pending(g.drop_last(), known, i);
        let k = choose|k: int| 0 <= k < rest.len() && rest[k] == g[i].0;
        assert(pending(g, known)[k] == g[i].0);
    }
}

/// A recalculation settles the ranked cells, and values every cell of the grid.
proof fn lemma_plan_settles<V>(
    b: Book,
    w: Meaning<V>,
    within: Set<CellView>,
    rank: spec_fn(CellView) -> nat,
    m: Map<CellView, V>,
)
    requires
        in_order(keys(b.grid)),
        ranked(b, within, rank),
        settled(b, w, within, m),
    ensures
        ({
            let n = run(b, w, m, planned(b, m.dom()));
            &&& settled(b, w, within, n)
            &&& extends(within, m, n)
            &&& forall|i: int| 0 <= i < b.grid.len() ==> n.contains_key((#[trigger] b.grid[i]).0)
        }),
{
    let first = literals(b.grid, m.dom());
    assert(b.grid.take(b.grid.len() as int) =~= b.grid);
    lemma_literal_steps(b, w, within, rank, b.grid.len() as int, m);
    let mid = run(b, w, m, first);
    lemma_run_dom(b, w, m, first);
    let order = pending(b.grid, m.dom());
    lemma_order_steps(b, w, within, rank, order, mid);
    let second = evaluated(b, order, mid.dom());
    lemma_run_add(b, w, m, first, second);
    let n = run(b, w, m, planned(b, m.dom()));
    assert(extends(within, m, n)) by {
        assert forall|c: CellView|
            within.contains(c) && #[trigger] m.contains_key(c) implies n.contains_key(c) && n[c]
            == m[c] by {
            assert(mid.contains_key(c));
        }
    }
    assert forall|i: int| 0 <= i < b.grid.len() implies n.contains_key((#[trigger] b.grid[i]).0) by {
        let c = b.grid[i].0;
        if m.dom().contains(c) || b.grid[i].1 is Literal {
            assert(mid.dom().contains(c));
            assert(n.dom().contains(c));
        } else {
            lemma_pending(b.grid, m.dom(), i);
            let k = choose|k: int| 0 <= k < order.len() && order[k] == c;
            assert(n.contains_key(order[k]));
        }
    }
}

/// Settled values of ranked cells, with every cell of the grid valued, are what they are whichever
/// way they were come by.
proof fn lemma_settled_unique<V>(
    b: Book,
    w: Meaning<V>,
    within: Set<CellView>,
    rank: spec_fn(CellView) -> nat,
    m: Map<CellView, V>,
    n: Map<CellView, V>,
    c: CellView,
)
    requires
        in_order(keys(b.grid)),
        ranked(b, within, rank),
        settled(b, w, within, m),
        settled(b, w, within, n),
        forall|i: int| 0 <= i < b.grid.len() ==> m.contains_key((#[trigger] b.grid[i]).0),
        forall|i: int| 0 <= i < b.grid.len() ==> n.contains_key((#[trigger] b.grid[i]).0),
        within.contains(c),
    ensures
        shown(w, m, c) == shown(w, n, c),
    decreases rank(c),
{
    if held(b.grid, c) is Some {
        let i = keys(b.grid).index_of(c);
        assert(keys(b.grid)[i] == c && b.grid[i].0 == c);
        assert(m.contains_key(c) && n.contains_key(c));
        assert forall|d: CellView| #[trigger] deps_of(b, c).contains(d) implies m.contains_key(d)
            && n.contains_key(d) && m[d] == n[d] by {
            assert(within.contains(d));
            lemma_settled_unique(b, w, within, rank, m, n, d);
        }
        lemma_worth_agrees(b, w, m, n, c);
    } else {
        if m.contains_key(c) {
            assert(m[c] == worth(b, w, m, c));
        }
        if n.contains_key(c) {
            assert(n[c] == worth(b, w, n, c));
        }
    }
}

/// The cells that a cell reads, directly or through others.
spec fn reads_all(b: Book, c: CellView) -> Set<CellView> {
    Set::new(|d: CellView| exists|n: nat| n > 0 && #[trigger] walk(feeds(b), d, c, n))
}

/// Everything that the first cells of the grid read directly.
spec fn read_by(b: Book, n: int) -> Seq<CellView>
    decreases n,
{
    if n <= 0 {
        Seq::empty()
    } else {
        read_by(b, n - 1) + deps_of(b, b.grid[n - 1].0)
    }
}

proof fn lemma_read_by(b: Book, n: int, i: int, d: CellView)
    requires
        0 <= i < n,
        deps_of(b, b.grid[i].0).contains(d),
    ensures
        read_by(b, n).contains(d),
    decreases n,
{
    let rest = read_by(b, n - 1);
    let own = deps_of(b, b.grid[n - 1].0);
    if i < n - 1 {
        lemma_read_by(b, n - 1, i, d);
        let k = choose|k: int| 0 <= k < rest.len() && rest[k] == d;
        assert(read_by(b, n)[k] == d);
    } else {
        let k = choose|k: int| 0 <= k < own.len() && own[k] == d;
        assert(read_by(b, n)[rest.len() + k] == d);
    }
}

/// Where a walk starts, something reads it.
proof fn lemma_walk_leaves(b: Book, d: CellView, c: CellView, n: nat)
    requires
        n > 0,
        walk(feeds(b), d, c, n),
    ensures
        read_by(b, b.grid.len() as int).contains(d),
    decreases n,
{
    let x = choose|x: CellView| walk(feeds(b), d, x, (n - 1) as nat) && #[trigger] feeds(b)(x, c);
    if n == 1 {
        assert(x == d);
        assert(held(b.grid, c) is Some);
        let i = keys(b.grid).index_of(c);
        assert(keys(b.grid)[i] == c && b.grid[i].0 == c);
        lemma_read_by(b, b.grid.len() as int, i, d);
    } else {
        lemma_walk_leaves(b, d, x, (n - 1) as nat);
    }
}

/// Only so many cells are read.
proof fn lemma_reads_are_finite(b: Book, c: CellView)
    ensures
        reads_all(b, c).finite(),
{
    broadcast use vstd::seq_lib::seq_to_set_is_finite;

    let all = read_by(b, b.grid.len() as int);
    assert forall|d: CellView| reads_all(b, c).contains(d) implies all.to_set().contains(d) by {
        let n = choose|n: nat| n > 0 && #[trigger] walk(feeds(b), d, c, n);
        lemma_walk_leaves(b, d, c, n);
    }
    lemma_len_subset(reads_all(b, c), all.to_set());
}

/// The cells that read no cycle can be ranked, by how many cells each reads.
proof fn lemma_no_cycle_ranks(b: Book)
    ensures
        ranked(
            b,
            Set::new(|c: CellView| reads_no_cycle(b, c)),
            |c: CellView| reads_all(b, c).len(),
        ),
{
    let e = feeds(b);
    let within = Set::new(|c: CellView| reads_no_cycle(b, c));
    let rank = |c: CellView| reads_all(b, c).len();
    assert forall|c: CellView, d: CellView|
        within.contains(c) && #[trigger] deps_of(b, c).contains(d) implies within.contains(d)
        && rank(d) < rank(c) by {
        assert(e(d, c));
        assert forall|x: CellView| #[trigger] on_cycle(e, x) implies !reachable(
            e,
            seq![x],
            d,
        ) by {
            if reachable(e, seq![x], d) {
                lemma_reach_step(e, seq![x], d, c);
            }
        }
        let (low, high) = (reads_all(b, d), reads_all(b, c));
        lemma_reads_are_finite(b, c);
        lemma_reads_are_finite(b, d);
        if low.contains(d) {
            assert(on_cycle(e, d));
            lemma_reach_root(e, seq![d], 0);
        }
        assert forall|x: CellView| low.insert(d).contains(x) implies high.contains(x) by {
            if x == d {
                assert(walk(e, d, d, 0));
                assert(walk(e, d, c, 1));
            } else {
                let n = choose|n: nat| n > 0 && #[trigger] walk(e, x, d, n);
                assert(walk(e, x, c, n + 1));
            }
        }
        lemma_len_subset(low.insert(d), high);
    }
}

/// An incremental recalculation reaches the same answer as a full one: where the two workbooks
/// differ only in the contents of the cells that are named as changed, recalculating what the
/// change reaches, from the values before it, shows in every cell that reads no cycle after the
/// change what recalculating everything shows there.
pub proof fn law_incremental_recalculation_is_full_recalculation<V>(
    before: Book,
    after: Book,
    dirty: Seq<CellView>,
    w: Meaning<V>,
    c: CellView,
)
    requires
        in_order(keys(before.grid)),
        in_order(keys(after.grid)),
        before.names == after.names,
        dirty.len() > 0,
        forall|x: CellView|
            !dirty.contains(x) ==> held(before.grid, x) == #[trigger] held(after.grid, x),
        reads_no_cycle(after, c),
    ensures
        ({
            let none = Map::<CellView, V>::empty();
            let previous = recalculated(before, w, Seq::empty(), none);
            shown(w, recalculated(after, w, dirty, previous), c) == shown(
                w,
                recalculated(after, w, Seq::empty(), none),
                c,
            )
        }),
{
    let none = Map::<CellView, V>::empty();
    let within = Set::new(|x: CellView| reads_no_cycle(after, x));
    let rank = |x: CellView| reads_all(after, x).len();
    lemma_no_cycle_ranks(after);
    let moved = recalc_set(after, dirty);
    let still = moved.complement().intersect(within);
    let e = feeds(after);
    assert forall|x: CellView| #[trigger] still.contains(x) implies held(before.grid, x) == held(
        after.grid,
        x,
    ) && deps_of(before, x) == deps_of(after, x) by {
        if dirty.contains(x) {
            let i = choose|i: int| 0 <= i < dirty.len() && dirty[i] == x;
            lemma_reach_root(e, dirty, i);
        }
    }
    assert(ranked(before, still, rank)) by {
        assert forall|x: CellView, d: CellView|
            still.contains(x) && #[trigger] deps_of(before, x).contains(d) implies still.contains(d)
            && rank(d) < rank(x) by {
            assert(deps_of(after, x).contains(d));
            assert(within.contains(x));
            if moved.contains(d) {
                assert(e(d, x));
                lemma_reach_step(e, dirty, d, x);
            }
        }
    }
    let kept0 = none.remove_keys(recalc_set(before, Seq::empty()));
    assert(kept0 =~= none);
    lemma_plan_settles(before, w, still, rank, none);
    let previous = recalculated(before, w, Seq::empty(), none);
    let kept = previous.remove_keys(moved);
    assert(settled(after, w, within, kept)) by {
        assert forall|x: CellView| within.contains(x) && #[trigger] kept.contains_key(
            x,
        ) implies kept[x] == worth(after, w, kept, x) && forall|d: CellView| #[trigger]
            deps_of(after, x).contains(d) ==> kept.contains_key(d) by {
            assert(still.contains(x) && previous.contains_key(x));
            assert forall|d: CellView| #[trigger] deps_of(after, x).contains(d) implies kept.contains_key(
                d,
            ) && previous.contains_key(d) && kept[d] == previous[d] by {
                assert(deps_of(before, x).contains(d));
                assert(still.contains(d));
            }
            lemma_worth_agrees(after, w, kept, previous, x);
            assert(worth(before, w, previous, x) == worth(after, w, previous, x));
        }
    }
    lemma_plan_settles(after, w, within, rank, kept);
    let kept1 = none.remove_keys(recalc_set(after, Seq::empty()));
    assert(kept1 =~= none);
    lemma_plan_settles(after, w, within, rank, none);
    assert(within.contains(c));
    lemma_settled_unique(
        after,
        w,
        within,
        rank,
        recalculated(after, w, dirty, previous),
        recalculated(after, w, Seq::empty(), none),
        c,
    );
}

/// What a change does not reach keeps the value it had.
pub proof fn law_what_a_change_does_not_reach_keeps_its_value<V>(
    b: Book,
    dirty: Seq<CellView>,
    w: Meaning<V>,
    previous: Map<CellView, V>,
    c: CellView,
)
    requires
        in_order(keys(b.grid)),
        dirty.len() > 0,
        previous.contains_key(c),
        !reachable(feeds(b), dirty, c),
    ensures
        recalculated(b, w, dirty, previous).contains_key(c),
        recalculated(b, w, dirty, previous)[c] == previous[c],
{
    let kept = previous.remove_keys(recalc_set(b, dirty));
    assert(kept.contains_key(c));
    let s = planned(b, kept.dom());
    lemma_planned_fresh(b, kept.dom());
    lemma_run_untouched(b, w, kept, s, c);
}

proof fn lemma_run_untouched<V>(
    b: Book,
    w: Meaning<V>,
    m: Map<CellView, V>,
    s: Seq<StepView>,
    c: CellView,
)
    requires
        m.contains_key(c),
        !given(s).contains(c),
    ensures
        run(b, w, m, s).contains_key(c),
        run(b, w, m, s)[c] == m[c],
    decreases s.len(),
{
    if s.len() > 0 {
        assert(s.last() == s[s.len() - 1]);
        assert(!given(s.drop_last()).contains(c)) by {
            let f = s.drop_last();
            if given(f).contains(c) {
                let i = choose|i: int| 0 <= i < f.len() && (#[trigger] f[i]).at == c;
                assert(s[i].at == c);
            }
        }
        lemma_run_untouched(b, w, m, s.drop_last(), c);
    }
}

/// The steps for one cell value that cell and cells that had no value.
proof fn lemma_prepared_fresh(b: Book, at: CellView, path: Seq<CellView>, known: Set<CellView>)
    ensures
        forall|c: CellView| known.contains(c) ==> !given(prepared(b, at, path, known)).contains(c),
    decreases b.grid.len() - path.len(), 0nat,
{
    if origin(b, at, path) is Computed && path.len() < b.grid.len() {
        lemma_resolved_fresh(b, deps_of(b, at), path.push(at), known);
    }
}

proof fn lemma_resolved_fresh(
    b: Book,
    deps: Seq<CellView>,
    path: Seq<CellView>,
    known: Set<CellView>,
)
    ensures
        forall|c: CellView| known.contains(c) ==> !given(resolved(b, deps, path, known)).contains(c),
    decreases b.grid.len() - path.len(), deps.len() + 1,
{
    if deps.len() > 0 {
        let d = deps[0];
        if known.contains(d) {
            lemma_resolved_fresh(b, deps.skip(1), path, known);
        } else {
            let prep = prepared(b, d, path, known);
            let x = StepView { at: d, origin: origin(b, d, path) };
            let own = prep.push(x);
            let next = known.union(given(own));
            lemma_prepared_fresh(b, d, path, known);
            lemma_resolved_fresh(b, deps.skip(1), path, next);
            let more = resolved(b, deps.skip(1), path, next);
            assert forall|c: CellView| known.contains(c) implies !given(own + more).contains(c) by {
                lemma_given_parts(own, more, c);
                lemma_given_parts(prep, seq![x], c);
                assert(prep.push(x) =~= prep + seq![x]);
                if given(seq![x]).contains(c) {
                    let i = choose|i: int| 0 <= i < 1 && (#[trigger] seq![x][i]).at == c;
                    assert(c == d);
                }
                assert(next.contains(c));
            }
        }
    }
}

proof fn lemma_given_parts(a: Seq<StepView>, b: Seq<StepView>, c: CellView)
    ensures
        given(a + b).contains(c) <==> given(a).contains(c) || given(b).contains(c),
{
    let w = a + b;
    if given(w).contains(c) {
        let i = choose|i: int| 0 <= i < w.len() && (#[trigger] w[i]).at == c;
        if i < a.len() {
            assert(a[i].at == c);
        } else {
            assert(b[i - a.len()].at == c);
        }
    }
    if given(a).contains(c) {
        let i = choose|i: int| 0 <= i < a.len() && (#[trigger] a[i]).at == c;
        assert(w[i].at == c);
    }
    if given(b).contains(c) {
        let i = choose|i: int| 0 <= i < b.len() && (#[trigger] b[i]).at == c;
        assert(w[i + a.len()].at == c);
    }
}

proof fn lemma_planned_fresh(b: Book, known: Set<CellView>)
    ensures
        forall|c: CellView| known.contains(c) ==> !given(planned(b, known)).contains(c),
{
    let first = literals(b.grid, known);
    let order = pending(b.grid, known);
    lemma_literals_fresh(b.grid, known);
    lemma_pending_fresh(b.grid, known);
    let next = known.union(given(first));
    lemma_evaluated_fresh(b, order, next, known);
    let second = evaluated(b, order, next);
    assert forall|c: CellView| known.contains(c) implies !given(first + second).contains(c) by {
        lemma_given_parts(first, second, c);
    }
}

proof fn lemma_literals_fresh(g: Seq<(CellView, Held)>, known: Set<CellView>)
    ensures
        forall|c: CellView| known.contains(c) ==> !given(literals(g, known)).contains(c),
    decreases g.len(),
{
    if g.len() > 0 {
        let rest = literals(g.drop_last(), known);
        lemma_literals_fresh(g.drop_last(), known);
        if let Held::Literal(s) = g.last().1 {
            if !known.contains(g.last().0) {
                let x = StepView { at: g.last().0, origin: Origin::Literal(s) };
                assert forall|c: CellView| known.contains(c) implies !given(rest.push(x)).contains(
                    c,
                ) by {
                    lemma_given_parts(rest, seq![x], c);
                    assert(rest.push(x) =~= rest + seq![x]);
                    if given(seq![x]).contains(c) {
                        let i = choose|i: int| 0 <= i < 1 && (#[trigger] seq![x][i]).at == c;
                        assert(c == x.at);
                    }
                }
            }
        }
    }
}

proof fn lemma_pending_fresh(g: Seq<(CellView, Held)>, known: Set<CellView>)
    ensures
        forall|i: int|
            0 <= i < pending(g, known).len() ==> !known.contains(#[trigger] pending(g, known)[i]),
    decreases g.len(),
{
    if g.len() > 0 {
        let rest = pending(g.drop_last(), known);
        lemma_pending_fresh(g.drop_last(), known);
        assert forall|i: int| 0 <= i < pending(g, known).len() implies !known.contains(
            #[trigger] pending(g, known)[i],
        ) by {
            if i < rest.len() {
                assert(pending(g, known)[i] == rest[i]);
            }
        }
    }
}

proof fn lemma_evaluated_fresh(
    b: Book,
    order: Seq<CellView>,
    known: Set<CellView>,
    old_ones: Set<CellView>,
)
    requires
        old_ones.subset_of(known),
        forall|i: int| 0 <= i < order.len() ==> !old_ones.contains(#[trigger] order[i]),
    ensures
        forall|c: CellView|
            old_ones.contains(c) ==> !given(evaluated(b, order, known)).contains(c),
    decreases order.len(),
{
    if order.len() > 0 {
        let none = Seq::<CellView>::empty();
        let prep = prepared(b, order[0], none, known);
        let x = StepView { at: order[0], origin: origin(b, order[0], none) };
        let own = prep.push(x);
        let next = known.union(given(own));
        let rest = order.skip(1);
        assert forall|i: int| 0 <= i < rest.len() implies !old_ones.contains(#[trigger] rest[i]) by {
            assert(rest[i] == order[i + 1]);
        }
        lemma_prepared_fresh(b, order[0], none, known);
        lemma_evaluated_fresh(b, rest, next, old_ones);
        let more = evaluated(b, rest, next);
        assert forall|c: CellView| old_ones.contains(c) implies !given(own + more).contains(c) by {
            lemma_given_parts(own, more, c);
            lemma_given_parts(prep, seq![x], c);
            assert(prep.push(x) =~= prep + seq![x]);
            if given(seq![x]).contains(c) {
                let i = choose|i: int| 0 <= i < 1 && (#[trigger] seq![x][i]).at == c;
                assert(c == order[0]);
            }
        }
    }
}

} // verus!
