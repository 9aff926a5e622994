//! Eta from history, never from a guess.
//!
//! An eta has two parts, and the second one is not decoration: `known_ms` is the critical path
//! over nodes we have measured, and `unknown_nodes` counts the steps we have never run and refuse
//! to invent a number for. A client renders "~32s (+3 steps unknown)". Collapsing that to a single
//! confident number is how progress bars lose their users.
//!
//! This is a pure critical path. It does not model queueing at a lane cap, so a graph 40 nodes
//! wide on a 4-slot lane will finish later than the eta says.

use crate::engine::graph::depends;
use crate::engine::graph::in_dependency_order;
use crate::engine::graph::key_names;
use crate::engine::graph::ready;
use crate::engine::graph::Plan;
use crate::engine::graph::Steps;
use crate::engine::graph::TaskGraph;
use crate::identity::NodeKey;
use crate::maps::NameMap;
use crate::text::decimal;
use vstd::prelude::*;

verus! {

/// What one node is expected to still cost.
#[derive(Clone, Copy, Debug, PartialEq, Eq, Structural)]
pub enum NodeCost {
    /// Finished, or a memo hit. Costs nothing from here.
    Done,
    /// Measured: p50 from history, minus whatever has already elapsed if it is running.
    Known(u64),
    /// Never run before. Deliberately not estimated.
    Unknown,
}

/// When a task is expected to be done.
#[derive(Clone, Copy, Debug, PartialEq, Eq, Structural)]
pub struct Eta {
    /// Critical path over nodes with history, in milliseconds.
    pub known_ms: u64,
    /// How many remaining nodes have no history at all.
    pub unknown_nodes: usize,
}

impl Eta {
    pub fn is_complete(&self) -> (r: bool)
        ensures
            r == (self.unknown_nodes == 0),
    {
        self.unknown_nodes == 0
    }

    /// The eta in words; `seconds` is the known part, written out in seconds.
    pub fn render(&self, seconds: &str) -> (r: String)
        ensures
            r@ == if self.unknown_nodes == 0 && self.known_ms == 0 {
                "done"@
            } else if self.unknown_nodes == 0 {
                "~"@ + seconds@ + "s"@
            } else {
                "~"@ + seconds@ + "s (+"@ + decimal(self.unknown_nodes as nat) + " steps unknown)"@
            },
    {
        if self.unknown_nodes == 0 && self.known_ms == 0 {
            return "done".to_owned();
        }
        let mut s = "~".to_owned();
        s.push_str(seconds);
        if self.unknown_nodes == 0 {
            s.push_str("s");
        } else {
            s.push_str("s (+");
            s.push_str(crate::text::show(self.unknown_nodes as u64).as_str());
            s.push_str(" steps unknown)");
        }
        s
    }
}

/// Costs by node name.
pub type Costs = Map<Seq<char>, NodeCost>;

/// What a node still costs, as far as it has been measured.
pub open spec fn cost_of(costs: Costs, k: Seq<char>) -> nat {
    if costs.contains_key(k) && costs[k] is Known {
        costs[k]->Known_0 as nat
    } else {
        0
    }
}

/// Has this node never been measured?
pub open spec fn is_unknown(costs: Costs, k: Seq<char>) -> bool {
    !costs.contains_key(k) || costs[k] is Unknown
}

/// The latest of the times at which these nodes finish; nodes without a time do not count.
pub open spec fn latest(times: Map<Seq<char>, nat>, names: Seq<Seq<char>>) -> nat
    decreases names.len(),
{
    if names.len() == 0 {
        0
    } else {
        let before = latest(times, names.drop_last());
        let k = names.last();
        if times.contains_key(k) && times[k] > before {
            times[k]
        } else {
            before
        }
    }
}

/// When each node of the order finishes: as soon as its cost has been spent after the last of its
/// dependencies.
pub open spec fn finish_times(topo: Seq<Seq<char>>, g: Steps, costs: Costs) -> Map<Seq<char>, nat>
    decreases topo.len(),
{
    if topo.len() == 0 {
        Map::empty()
    } else {
        let before = finish_times(topo.drop_last(), g, costs);
        let k = topo.last();
        if g.contains_key(k) {
            before.insert(k, latest(before, g[k].dep_names()) + cost_of(costs, k))
        } else {
            before
        }
    }
}

/// How many nodes of the order have never been measured.
pub open spec fn count_unknown(topo: Seq<Seq<char>>, g: Steps, costs: Costs) -> nat
    decreases topo.len(),
{
    if topo.len() == 0 {
        0
    } else {
        let k = topo.last();
        count_unknown(topo.drop_last(), g, costs) + if g.contains_key(k) && is_unknown(costs, k) {
            1nat
        } else {
            0nat
        }
    }
}

/// The measured costs of these nodes, added up.
pub open spec fn total_cost(topo: Seq<Seq<char>>, costs: Costs) -> nat
    decreases topo.len(),
{
    if topo.len() == 0 {
        0
    } else {
        total_cost(topo.drop_last(), costs) + cost_of(costs, topo.last())
    }
}

/// Times that only grow leave the latest of them no earlier.
proof fn lemma_latest_grows(a: Map<Seq<char>, nat>, b: Map<Seq<char>, nat>, names: Seq<Seq<char>>)
    requires
        forall|k: Seq<char>| #[trigger]
            a.contains_key(k) ==> b.contains_key(k) && a[k] <= b[k],
    ensures
        latest(a, names) <= latest(b, names),
    decreases names.len(),
{
    if names.len() > 0 {
        lemma_latest_grows(a, b, names.drop_last());
        assert(a.contains_key(names.last()) ==> b.contains_key(names.last()));
    }
}

/// A node listed again never finishes earlier than before.
proof fn lemma_finish_settles(t: Seq<Seq<char>>, g: Steps, costs: Costs)
    ensures
        forall|k: Seq<char>| #[trigger]
            finish_times(t, g, costs).contains_key(k) ==> {
                &&& t.contains(k)
                &&& g.contains_key(k)
                &&& finish_times(t, g, costs)[k] <= latest(
                    finish_times(t, g, costs),
                    g[k].dep_names(),
                ) + cost_of(costs, k)
            },
        t.len() > 0 ==> forall|k: Seq<char>| #[trigger]
            finish_times(t.drop_last(), g, costs).contains_key(k) ==> finish_times(
                t,
                g,
                costs,
            ).contains_key(k) && finish_times(t.drop_last(), g, costs)[k] <= finish_times(
                t,
                g,
                costs,
            )[k],
    decreases t.len(),
{
    if t.len() > 0 {
        let p = t.drop_last();
        let before = finish_times(p, g, costs);
        let after = finish_times(t, g, costs);
        lemma_finish_settles(p, g, costs);
        assert forall|k: Seq<char>| #[trigger] before.contains_key(k) implies after.contains_key(k)
            && before[k] <= after[k] by {}
        assert forall|k: Seq<char>| #[trigger] after.contains_key(k) implies t.contains(k)
            && g.contains_key(k) && after[k] <= latest(after, g[k].dep_names()) + cost_of(
            costs,
            k,
        ) by {
            lemma_latest_grows(before, after, g[k].dep_names());
            if k == t.last() && g.contains_key(k) {
                assert(t[t.len() - 1] == k);
            } else {
                assert(before.contains_key(k));
                let i = choose|i: int| 0 <= i < p.len() && p[i] == k;
                assert(t[i] == k);
            }
        }
    }
}

/// Every time on the way is one that the whole order ends no earlier than.
proof fn lemma_finish_fits(t: Seq<Seq<char>>, g: Steps, costs: Costs, i: int, k: Seq<char>)
    requires
        0 <= i <= t.len(),
        finish_times(t.take(i), g, costs).contains_key(k),
    ensures
        finish_times(t, g, costs).contains_key(k),
        finish_times(t.take(i), g, costs)[k] <= finish_times(t, g, costs)[k],
        finish_times(t.take(i), g, costs)[k] <= latest(finish_times(t, g, costs), t),
    decreases t.len() - i,
{
    if i < t.len() {
        lemma_finish_settles(t.take(i + 1), g, costs);
        assert(t.take(i + 1).drop_last() =~= t.take(i));
        lemma_finish_fits(t, g, costs, i + 1, k);
    } else {
        assert(t.take(i) =~= t);
        lemma_finish_settles(t, g, costs);
        lemma_latest_member(finish_times(t, g, costs), t, k);
    }
}

/// Longest path over what is left, using measured costs only.
pub fn estimate(plan: &Plan, graph: &TaskGraph, costs: &NameMap<NodeCost>) -> (r: Eta)
    requires
        graph.wf(),
        costs.wf(),
        latest(
            finish_times(key_names(plan.topo@), graph@, costs@),
            key_names(plan.topo@),
        ) <= u64::MAX,
    ensures
        r.known_ms == latest(
            finish_times(key_names(plan.topo@), graph@, costs@),
            key_names(plan.topo@),
        ),
        r.unknown_nodes == count_unknown(key_names(plan.topo@), graph@, costs@),
{
    estimate_over(&plan.topo, graph, costs)
}

/// The same, over a topological order held by the scheduler. The scheduler's order grows when a
/// node expands into a subgraph, so it cannot hand over a finished plan.
pub fn estimate_over(topo: &Vec<NodeKey>, graph: &TaskGraph, costs: &NameMap<NodeCost>) -> (r: Eta)
    requires
        graph.wf(),
        costs.wf(),
        latest(finish_times(key_names(topo@), graph@, costs@), key_names(topo@)) <= u64::MAX,
    ensures
        r.known_ms == latest(finish_times(key_names(topo@), graph@, costs@), key_names(topo@)),
        r.unknown_nodes == count_unknown(key_names(topo@), graph@, costs@),
{
    match estimate_within(topo, graph, costs) {
        Some(eta) => eta,
        None => Eta { known_ms: 0, unknown_nodes: 0 },
    }
}

/// The same, or nothing where the longest path does not fit in 64 bits of milliseconds.
pub fn estimate_within(
    topo: &Vec<NodeKey>,
    graph: &TaskGraph,
    costs: &NameMap<NodeCost>,
) -> (r: Option<Eta>)
    requires
        graph.wf(),
        costs.wf(),
    ensures
        r is None <==> latest(finish_times(key_names(topo@), graph@, costs@), key_names(topo@))
            > u64::MAX,
        r matches Some(eta) ==> {
            &&& eta.known_ms == latest(
                finish_times(key_names(topo@), graph@, costs@),
                key_names(topo@),
            )
            &&& eta.unknown_nodes == count_unknown(key_names(topo@), graph@, costs@)
        },
{
    let ghost t = key_names(topo@);
    let ghost g = graph@;
    let mut finish: NameMap<u64> = NameMap::empty();
    let mut unknown: usize = 0;
    let mut i: usize = 0;
    assert(t.take(0) =~= Seq::empty());
    while i < topo.len()
        invariant
            graph.wf(),
            costs.wf(),
            g == graph@,
            t == key_names(topo@),
            i <= topo@.len(),
            finish.wf(),
            forall|k: Seq<char>| #[trigger]
                finish@.contains_key(k) <==> finish_times(
                    t.take(i as int),
                    g,
                    costs@,
                ).contains_key(k),
            forall|k: Seq<char>| #[trigger]
                finish@.contains_key(k) ==> finish@[k] == finish_times(t.take(i as int), g, costs@)[k],
            unknown == count_unknown(t.take(i as int), g, costs@),
            unknown <= i,
        decreases topo@.len() - i,
    {
        proof {
            assert(t.take(i + 1).drop_last() =~= t.take(i as int));
            assert(t.take(i + 1).last() == t[i as int]);
        }
        let ghost before = finish_times(t.take(i as int), g, costs@);
        match graph.get(&topo[i]) {
            Some(spec) => {
                let ghost ds = spec.dep_names();
                let mut start: u64 = 0;
                let mut j: usize = 0;
                assert(ds.take(0) =~= Seq::empty());
                while j < spec.deps.len()
                    invariant
                        finish.wf(),
                        ds == spec.dep_names(),
                        j <= spec.deps@.len(),
                        forall|k: Seq<char>| #[trigger]
                            finish@.contains_key(k) <==> before.contains_key(k),
                        forall|k: Seq<char>| #[trigger]
                            finish@.contains_key(k) ==> finish@[k] == before[k],
                        start == latest(before, ds.take(j as int)),
                    decreases spec.deps@.len() - j,
                {
                    assert(ds.take(j + 1).drop_last() =~= ds.take(j as int));
                    assert(ds.take(j + 1).last() == spec.deps@[j as int]@);
                    match finish.get(spec.deps[j].as_str()) {
                        Some(f) => {
                            if *f > start {
                                start = *f;
                            }
                        },
                        None => {},
                    }
                    j += 1;
                }
                assert(ds.take(j as int) =~= ds);
                let cost: u64 = match costs.get(topo[i].as_str()) {
                    Some(NodeCost::Done) => 0,
                    Some(NodeCost::Known(ms)) => *ms,
                    Some(NodeCost::Unknown) => {
                        unknown = unknown + 1;
                        0
                    },
                    None => {
                        unknown = unknown + 1;
                        0
                    },
                };
                proof {
                    let after = finish_times(t.take(i + 1), g, costs@);
                    assert(after.contains_key(t[i as int]));
                    assert(after[t[i as int]] == start + cost);
                    lemma_finish_fits(t, g, costs@, i + 1, t[i as int]);
                }
                if cost > u64::MAX - start {
                    return None;
                }
                finish.insert(topo[i].0.clone(), start + cost);
            },
            None => {},
        }
        i += 1;
    }
    assert(t.take(i as int) =~= t);
    let ghost times = finish_times(t, g, costs@);
    let mut known: u64 = 0;
    let mut n: usize = 0;
    assert(t.take(0) =~= Seq::empty());
    while n < topo.len()
        invariant
            finish.wf(),
            t == key_names(topo@),
            n <= topo@.len(),
            forall|k: Seq<char>| #[trigger] finish@.contains_key(k) <==> times.contains_key(k),
            forall|k: Seq<char>| #[trigger] finish@.contains_key(k) ==> finish@[k] == times[k],
            known == latest(times, t.take(n as int)),
        decreases topo@.len() - n,
    {
        assert(t.take(n + 1).drop_last() =~= t.take(n as int));
        assert(t.take(n + 1).last() == t[n as int]);
        match finish.get(topo[n].as_str()) {
            Some(f) => {
                if *f > known {
                    known = *f;
                }
            },
            None => {},
        }
        n += 1;
    }
    assert(t.take(n as int) =~= t);
    Some(Eta { known_ms: known, unknown_nodes: unknown })
}

/// A chain of nodes, each reading the one before it.
pub open spec fn chain(g: Steps, c: Seq<Seq<char>>) -> bool {
    &&& forall|i: int| 0 <= i < c.len() ==> g.contains_key(#[trigger] c[i])
    &&& forall|i: int, j: int|
        0 <= i && j == i + 1 && j < c.len() ==> depends(g, #[trigger] c[j], #[trigger] c[i])
}

proof fn lemma_latest_member(times: Map<Seq<char>, nat>, names: Seq<Seq<char>>, k: Seq<char>)
    requires
        names.contains(k),
        times.contains_key(k),
    ensures
        times[k] <= latest(times, names),
    decreases names.len(),
{
    let i = choose|i: int| 0 <= i < names.len() && names[i] == k;
    if i < names.len() - 1 {
        assert(names.drop_last()[i] == k);
        lemma_latest_member(times, names.drop_last(), k);
    }
}

/// What has a finish time keeps it as the order goes on, and it is its cost after the last of its
/// dependencies.
proof fn lemma_finish_is_recursive(
    t: Seq<Seq<char>>,
    g: Steps,
    costs: Costs,
    n: int,
    j: int,
)
    requires
        t.no_duplicates(),
        forall|k: Seq<char>| #[trigger] t.contains(k) ==> g.contains_key(k),
        forall|i: int| 0 <= i < t.len() ==> ready(g, #[trigger] t[i], t.take(i)),
        0 <= j < n <= t.len(),
    ensures
        ({
            let times = finish_times(t.take(n), g, costs);
            &&& times.contains_key(t[j])
            &&& times[t[j]] == latest(times, g[t[j]].dep_names()) + cost_of(costs, t[j])
            &&& times[t[j]] == finish_times(t.take(j + 1), g, costs)[t[j]]
        }),
    decreases n,
{
    let times = finish_times(t.take(n), g, costs);
    assert(t.contains(t[j]));
    assert(t.take(n).drop_last() =~= t.take(n - 1));
    assert(t.take(n).last() == t[n - 1]);
    let before = finish_times(t.take(n - 1), g, costs);
    assert(t.contains(t[n - 1]));
    assert(ready(g, t[j], t.take(j)));
    let ds = g[t[j]].dep_names();
    assert forall|d: Seq<char>| #[trigger] ds.contains(d) implies d != t[n - 1] by {
        let p = choose|p: int| 0 <= p < j && t.take(j)[p] == d;
        assert(t[p] == d);
    }
    assert forall|d: Seq<char>| #[trigger] ds.contains(d) implies (times.contains_key(d)
        <==> before.contains_key(d)) && (times.contains_key(d) ==> times[d] == before[d]) by {}
    lemma_latest_same(times, before, ds);
    if j < n - 1 {
        lemma_finish_is_recursive(t, g, costs, n - 1, j);
    }
}

proof fn lemma_latest_same(a: Map<Seq<char>, nat>, b: Map<Seq<char>, nat>, names: Seq<Seq<char>>)
    requires
        forall|d: Seq<char>| #[trigger]
            names.contains(d) ==> (a.contains_key(d) <==> b.contains_key(d)) && (a.contains_key(d)
                ==> a[d] == b[d]),
    ensures
        latest(a, names) == latest(b, names),
    decreases names.len(),
{
    if names.len() > 0 {
        let prefix = names.drop_last();
        assert forall|d: Seq<char>| #[trigger] prefix.contains(d) implies (a.contains_key(d)
            <==> b.contains_key(d)) && (a.contains_key(d) ==> a[d] == b[d]) by {
            let i = choose|i: int| 0 <= i < prefix.len() && prefix[i] == d;
            assert(names[i] == d);
            assert(names.contains(d));
        }
        assert(names.contains(names.last())) by {
            assert(names[names.len() - 1] == names.last());
        }
        lemma_latest_same(a, b, prefix);
    }
}

/// The eta is no shorter than any chain of dependencies: whatever waits on whatever, the measured
/// costs along it fit into the estimate.
pub proof fn law_eta_covers_every_chain(
    g: Steps,
    t: Seq<Seq<char>>,
    costs: Costs,
    c: Seq<Seq<char>>,
)
    requires
        in_dependency_order(g, t),
        chain(g, c),
    ensures
        total_cost(c, costs) <= latest(finish_times(t, g, costs), t),
{
    if c.len() > 0 {
        lemma_chain_fits(g, t, costs, c);
        assert(t.contains(c.last()));
        lemma_latest_member(finish_times(t, g, costs), t, c.last());
    }
}

proof fn lemma_chain_fits(g: Steps, t: Seq<Seq<char>>, costs: Costs, c: Seq<Seq<char>>)
    requires
        in_dependency_order(g, t),
        chain(g, c),
        c.len() > 0,
    ensures
        finish_times(t, g, costs).contains_key(c.last()),
        total_cost(c, costs) <= finish_times(t, g, costs)[c.last()],
    decreases c.len(),
{
    let k = c.last();
    let times = finish_times(t, g, costs);
    assert(g.contains_key(c[c.len() - 1]));
    assert(t.contains(k));
    let j = choose|j: int| 0 <= j < t.len() && t[j] == k;
    assert(t.take(t.len() as int) =~= t);
    lemma_finish_is_recursive(t, g, costs, t.len() as int, j);
    if c.len() > 1 {
        let p = c.drop_last();
        assert(chain(g, p)) by {
            assert forall|i: int| 0 <= i < p.len() implies g.contains_key(#[trigger] p[i]) by {
                assert(p[i] == c[i]);
            }
            assert forall|i: int, j: int| 0 <= i && j == i + 1 && j < p.len() implies depends(
                g,
                #[trigger] p[j],
                #[trigger] p[i],
            ) by {
                assert(depends(g, c[j], c[i]));
            }
        }
        lemma_chain_fits(g, t, costs, p);
        assert(depends(g, c[c.len() - 1], c[c.len() - 2]));
        assert(p.last() == c[c.len() - 2]);
        lemma_latest_member(times, g[k].dep_names(), p.last());
    } else {
        assert(c.drop_last() =~= Seq::empty());
        assert(total_cost(c.drop_last(), costs) == 0);
    }
}

proof fn lemma_latest_attained(times: Map<Seq<char>, nat>, names: Seq<Seq<char>>)
    ensures
        latest(times, names) == 0 || exists|k: Seq<char>| #[trigger]
            names.contains(k) && times.contains_key(k) && times[k] == latest(times, names),
    decreases names.len(),
{
    if names.len() > 0 {
        let prefix = names.drop_last();
        lemma_latest_attained(times, prefix);
        let k = names.last();
        if times.contains_key(k) && times[k] > latest(times, prefix) {
            assert(names[names.len() - 1] == k);
            assert(names.contains(k));
        } else if latest(times, names) != 0 {
            let x = choose|x: Seq<char>| #[trigger]
                prefix.contains(x) && times.contains_key(x) && times[x] == latest(times, prefix);
            let i = choose|i: int| 0 <= i < prefix.len() && prefix[i] == x;
            assert(names[i] == x);
            assert(names.contains(x));
        }
    }
}

proof fn lemma_chain_to(g: Steps, t: Seq<Seq<char>>, costs: Costs, j: int) -> (c: Seq<Seq<char>>)
    requires
        in_dependency_order(g, t),
        0 <= j < t.len(),
    ensures
        chain(g, c),
        c.len() > 0,
        c.last() == t[j],
        total_cost(c, costs) == finish_times(t, g, costs)[t[j]],
    decreases j,
{
    let times = finish_times(t, g, costs);
    let k = t[j];
    assert(t.contains(k));
    assert(t.take(t.len() as int) =~= t);
    lemma_finish_is_recursive(t, g, costs, t.len() as int, j);
    let ds = g[k].dep_names();
    lemma_latest_attained(times, ds);
    if latest(times, ds) == 0 {
        let c = seq![k];
        assert(c.drop_last() =~= Seq::empty());
        assert(total_cost(c.drop_last(), costs) == 0);
        c
    } else {
        let d = choose|d: Seq<char>| #[trigger]
            ds.contains(d) && times.contains_key(d) && times[d] == latest(times, ds);
        assert(ready(g, t[j], t.take(j)));
        let i = choose|i: int| 0 <= i < j && t.take(j)[i] == d;
        assert(t[i] == d);
        let p = lemma_chain_to(g, t, costs, i);
        let c = p.push(k);
        assert(c.drop_last() =~= p);
        assert(chain(g, c)) by {
            assert forall|a: int| 0 <= a < c.len() implies g.contains_key(#[trigger] c[a]) by {
                if a < p.len() {
                    assert(c[a] == p[a]);
                }
            }
            assert forall|a: int, b: int| 0 <= a && b == a + 1 && b < c.len() implies depends(
                g,
                #[trigger] c[b],
                #[trigger] c[a],
            ) by {
                if b < p.len() {
                    assert(depends(g, p[b], p[a]));
                } else {
                    assert(c[a] == p.last());
                }
            }
        }
        c
    }
}

/// The eta is the length of an actual chain of dependencies, not an upper bound on one: some
/// chain costs exactly as much as was estimated.
pub proof fn law_eta_is_a_chain(g: Steps, t: Seq<Seq<char>>, costs: Costs)
    requires
        in_dependency_order(g, t),
    ensures
        exists|c: Seq<Seq<char>>| #[trigger]
            chain(g, c) && total_cost(c, costs) == latest(finish_times(t, g, costs), t),
{
    let times = finish_times(t, g, costs);
    lemma_latest_attained(times, t);
    if latest(times, t) == 0 {
        let c = Seq::<Seq<char>>::empty();
        assert(chain(g, c) && total_cost(c, costs) == 0);
    } else {
        let k = choose|k: Seq<char>| #[trigger]
            t.contains(k) && times.contains_key(k) && times[k] == latest(times, t);
        let j = choose|j: int| 0 <= j < t.len() && t[j] == k;
        let c = lemma_chain_to(g, t, costs, j);
        assert(chain(g, c) && total_cost(c, costs) == latest(times, t));
    }
}

} // verus!
