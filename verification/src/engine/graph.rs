//! The task graph: what the planner emits and the scheduler consumes.
//!
//! A graph is declared in terms of *logical* node keys. Action keys do not appear here at all,
//! because they cannot be known until inputs have been resolved to content at execution time.
//! That is deliberate: it is what gives early cutoff.

use crate::identity::Digest;
use crate::identity::Env;
use crate::identity::Lane;
use crate::identity::NodeKey;
use crate::identity::NodeKind;
use crate::impact::add_edge;
use crate::maps::NameMap;
use crate::names;
use crate::names::ascending;
use crate::names::before;
use crate::names::lemma_before_asymmetric;
use crate::reach::along;
use crate::reach::closure;
use crate::reach::edge;
use crate::reach::is_led_to;
use crate::reach::leads_back;
use crate::reach::lemma_ascending_distinct;
use crate::reach::lemma_distinct_len;
use crate::reach::lemma_some_cycle;
use crate::reach::on_cycle;
use crate::reach::reachable;
use crate::reach::walk;
use crate::text::texts;
use vstd::prelude::*;

verus! {

/// Why a graph was refused.
#[derive(Debug)]
pub enum GraphError {
    Duplicate(NodeKey),
    MissingDep { node: NodeKey, missing: NodeKey },
    Cycle(NodeKey),
    SelfDep(NodeKey),
}

/// What a refused graph is reported as.
pub open spec fn graph_error_text(e: GraphError) -> Seq<char> {
    match e {
        GraphError::Duplicate(k) => "node "@ + k@ + " declared twice"@,
        GraphError::MissingDep { node, missing } => "node "@ + node@ + " depends on "@ + missing@
            + ", which is not in the graph"@,
        GraphError::Cycle(k) => "the graph has a cycle through "@ + k@,
        GraphError::SelfDep(k) => "node "@ + k@ + " depends on itself"@,
    }
}

impl GraphError {
    pub fn message(&self) -> (r: String)
        ensures
            r@ == graph_error_text(*self),
    {
        match self {
            GraphError::Duplicate(k) => {
                let mut s = "node ".to_owned();
                s.push_str(k.as_str());
                s.push_str(" declared twice");
                s
            },
            GraphError::MissingDep { node, missing } => {
                let mut s = "node ".to_owned();
                s.push_str(node.as_str());
                s.push_str(" depends on ");
                s.push_str(missing.as_str());
                s.push_str(", which is not in the graph");
                s
            },
            GraphError::Cycle(k) => {
                let mut s = "the graph has a cycle through ".to_owned();
                s.push_str(k.as_str());
                s
            },
            GraphError::SelfDep(k) => {
                let mut s = "node ".to_owned();
                s.push_str(k.as_str());
                s.push_str(" depends on itself");
                s
            },
        }
    }
}

/// One step. `op` is an opaque payload owned by the adapter; the engine only ever hashes it.
#[derive(Debug)]
pub struct NodeSpec {
    pub key: NodeKey,
    pub kind: NodeKind,
    pub op: Vec<u8>,
    pub env: Env,
    /// Dependencies in declared order. Order is semantic: it is hashed into the action key.
    pub deps: Vec<NodeKey>,
    pub lane: Lane,
}

/// The names of a run of keys.
pub open spec fn key_names(v: Seq<NodeKey>) -> Seq<Seq<char>> {
    v.map_values(|k: NodeKey| k@)
}

/// A copy of a run of keys.
pub fn copy_keys(v: &Vec<NodeKey>) -> (r: Vec<NodeKey>)
    ensures
        r@ == v@,
{
    let mut out: Vec<NodeKey> = Vec::new();
    let mut i: usize = 0;
    while i < v.len()
        invariant
            i <= v.len(),
            out@ == v@.take(i as int),
        decreases v.len() - i,
    {
        out.push(v[i].clone());
        assert(v@.take(i + 1) =~= v@.take(i as int).push(v@[i as int]));
        i += 1;
    }
    assert(v@.take(v@.len() as int) =~= v@);
    out
}

/// Do the two describe the same step, field by field?
pub open spec fn same_step(a: NodeSpec, b: NodeSpec) -> bool {
    &&& a.key == b.key
    &&& a.kind == b.kind
    &&& a.op@ == b.op@
    &&& a.env == b.env
    &&& a.deps@ == b.deps@
    &&& a.lane == b.lane
}

impl Clone for NodeSpec {
    fn clone(&self) -> (r: Self)
        ensures
            same_step(r, *self),
    {
        NodeSpec {
            key: self.key.clone(),
            kind: self.kind,
            op: vstd::slice::slice_to_vec(self.op.as_slice()),
            env: self.env.clone(),
            deps: copy_keys(&self.deps),
            lane: self.lane.clone(),
        }
    }
}

impl NodeSpec {
    /// The names of the dependencies, in declared order.
    pub open spec fn dep_names(&self) -> Seq<Seq<char>> {
        key_names(self.deps@)
    }

    /// A step with nothing to read and nothing to do yet. Model work goes to the model lane, the
    /// rest to the cpu lane.
    pub fn new(key: &str, kind: NodeKind) -> (r: Self)
        ensures
            r.key@ == key@,
            r.kind == kind,
            r.op@.len() == 0,
            r.env.model_id@ == "-"@,
            r.env.prompt_version@ == "-"@,
            r.env.adapter_version@ == "v0"@,
            r.deps@.len() == 0,
            r.lane@ == if kind is Plan || kind is Op {
                "model"@
            } else {
                "cpu"@
            },
    {
        let lane = match kind {
            NodeKind::Plan => Lane::model(),
            NodeKind::Op => Lane::model(),
            _ => Lane::cpu(),
        };
        NodeSpec {
            key: NodeKey::new(key),
            kind,
            op: Vec::new(),
            env: Env::deterministic("v0"),
            deps: Vec::new(),
            lane,
        }
    }

    /// A source node: no dependencies, its op *is* the content hash of an input file.
    ///
    /// This is how an input change enters the graph. Nothing else needs to know about files.
    pub fn source(key: &str, content: Digest) -> (r: Self)
        ensures
            r.key@ == key@,
            r.kind is Data,
            r.op@ == content@,
            r.env.model_id@ == "-"@,
            r.env.prompt_version@ == "-"@,
            r.env.adapter_version@ == "v0"@,
            r.deps@.len() == 0,
            r.lane@ == "cpu"@,
    {
        let n = NodeSpec::new(key, NodeKind::Data);
        n.op(vstd::slice::slice_to_vec(content.as_bytes().as_slice()))
    }

    pub fn op(self, op: Vec<u8>) -> (r: Self)
        ensures
            r == (NodeSpec { op, ..self }),
    {
        NodeSpec {
            key: self.key,
            kind: self.kind,
            op,
            env: self.env,
            deps: self.deps,
            lane: self.lane,
        }
    }

    pub fn dep(self, key: &str) -> (r: Self)
        ensures
            r == (NodeSpec { deps: r.deps, ..self }),
            r.dep_names() == self.dep_names().push(key@),
    {
        let mut deps = self.deps;
        let ghost d0 = deps@;
        deps.push(NodeKey::new(key));
        assert(key_names(deps@) =~= key_names(d0).push(key@));
        NodeSpec {
            key: self.key,
            kind: self.kind,
            op: self.op,
            env: self.env,
            deps,
            lane: self.lane,
        }
    }

    pub fn deps(self, keys: &Vec<String>) -> (r: Self)
        ensures
            r == (NodeSpec { deps: r.deps, ..self }),
            r.dep_names() == self.dep_names() + texts(keys@),
    {
        let mut deps = self.deps;
        let ghost d0 = deps@;
        let ghost ks = texts(keys@);
        let mut i: usize = 0;
        assert(key_names(deps@) =~= key_names(d0) + ks.take(0));
        while i < keys.len()
            invariant
                i <= keys@.len(),
                ks == texts(keys@),
                key_names(deps@) == key_names(d0) + ks.take(i as int),
            decreases keys@.len() - i,
        {
            let ghost before = deps@;
            deps.push(NodeKey::new(keys[i].as_str()));
            assert(key_names(deps@) =~= key_names(before).push(ks[i as int]));
            assert(ks.take(i + 1) =~= ks.take(i as int).push(ks[i as int]));
            assert(key_names(deps@) =~= key_names(d0) + ks.take(i + 1));
            i += 1;
        }
        assert(ks.take(ks.len() as int) =~= ks);
        NodeSpec {
            key: self.key,
            kind: self.kind,
            op: self.op,
            env: self.env,
            deps,
            lane: self.lane,
        }
    }

    pub fn env(self, env: Env) -> (r: Self)
        ensures
            r == (NodeSpec { env, ..self }),
    {
        NodeSpec {
            key: self.key,
            kind: self.kind,
            op: self.op,
            env,
            deps: self.deps,
            lane: self.lane,
        }
    }

    pub fn lane(self, lane: Lane) -> (r: Self)
        ensures
            r == (NodeSpec { lane, ..self }),
    {
        NodeSpec {
            key: self.key,
            kind: self.kind,
            op: self.op,
            env: self.env,
            deps: self.deps,
            lane,
        }
    }
}

/// Is `name` among a run of keys?
pub fn has_key(v: &Vec<NodeKey>, name: &str) -> (r: bool)
    ensures
        r == key_names(v@).contains(name@),
{
    let mut i: usize = 0;
    let owned = name.to_owned();
    while i < v.len()
        invariant
            i <= v@.len(),
            owned@ == name@,
            forall|k: int| 0 <= k < i ==> #[trigger] key_names(v@)[k] != name@,
        decreases v@.len() - i,
    {
        if v[i].0 == owned {
            assert(key_names(v@)[i as int] == name@);
            return true;
        }
        i += 1;
    }
    false
}

/// A graph as a map from names to steps.
pub type Steps = Map<Seq<char>, NodeSpec>;

/// Does step `k` read what `d` produces?
pub open spec fn depends(g: Steps, k: Seq<char>, d: Seq<char>) -> bool {
    g.contains_key(k) && g[k].dep_names().contains(d)
}

/// The names in a list, each once, in the order in which they first come.
pub open spec fn unrepeated(ds: Seq<Seq<char>>) -> Seq<Seq<char>>
    decreases ds.len(),
{
    if ds.len() == 0 {
        Seq::empty()
    } else {
        let r = unrepeated(ds.drop_last());
        if r.contains(ds.last()) {
            r
        } else {
            r.push(ds.last())
        }
    }
}

pub proof fn lemma_unrepeated(ds: Seq<Seq<char>>)
    ensures
        unrepeated(ds).no_duplicates(),
        forall|d: Seq<char>| #[trigger] unrepeated(ds).contains(d) <==> ds.contains(d),
        unrepeated(ds).len() <= ds.len(),
        unrepeated(ds).len() == 0 <==> ds.len() == 0,
    decreases ds.len(),
{
    if ds.len() > 0 {
        let w = ds.drop_last();
        let r = unrepeated(w);
        let u = unrepeated(ds);
        lemma_unrepeated(w);
        assert forall|d: Seq<char>| #[trigger] u.contains(d) <==> ds.contains(d) by {
            if u.contains(d) {
                let i = choose|i: int| 0 <= i < u.len() && u[i] == d;
                if i < r.len() {
                    assert(r[i] == d);
                    assert(r.contains(d));
                    let j = choose|j: int| 0 <= j < w.len() && w[j] == d;
                    assert(ds[j] == d);
                } else {
                    assert(ds[ds.len() - 1] == d);
                }
            }
            if ds.contains(d) {
                let j = choose|j: int| 0 <= j < ds.len() && ds[j] == d;
                if j < w.len() {
                    assert(w[j] == d);
                    assert(r.contains(d));
                    let i = choose|i: int| 0 <= i < r.len() && r[i] == d;
                    assert(u[i] == d);
                } else if r.contains(d) {
                    assert(u == r);
                } else {
                    assert(u[r.len() as int] == d);
                }
            }
        }
        assert(ds.contains(ds[ds.len() - 1]));
        if u.len() == 0 {
            assert(!u.contains(ds.last()));
        }
    }
}

/// The keys in a list, each once.
pub fn once_each(v: &Vec<NodeKey>) -> (r: Vec<NodeKey>)
    ensures
        key_names(r@) == unrepeated(key_names(v@)),
{
    let ghost all = key_names(v@);
    let mut out: Vec<NodeKey> = Vec::new();
    let mut i: usize = 0;
    assert(all.take(0) =~= Seq::empty());
    assert(key_names(out@) =~= Seq::empty());
    while i < v.len()
        invariant
            i <= v@.len(),
            all == key_names(v@),
            key_names(out@) == unrepeated(all.take(i as int)),
        decreases v@.len() - i,
    {
        let ghost nn = all.take(i + 1);
        assert(nn.drop_last() =~= all.take(i as int));
        assert(nn.last() == v@[i as int]@);
        let ghost before = key_names(out@);
        if !has_key(&out, v[i].as_str()) {
            out.push(v[i].clone());
            assert(key_names(out@) =~= before.push(v@[i as int]@));
        }
        i += 1;
    }
    assert(all.take(i as int) =~= all);
    out
}

/// Is every dependency of `k` among `placed`?
pub open spec fn ready(g: Steps, k: Seq<char>, placed: Seq<Seq<char>>) -> bool {
    &&& g.contains_key(k)
    &&& forall|d: Seq<char>| #[trigger] g[k].dep_names().contains(d) ==> placed.contains(d)
}

/// Can `k` become ready after at most `n` rounds of placing what is ready?
pub open spec fn resolvable(g: Steps, k: Seq<char>, n: nat) -> bool
    decreases n,
{
    &&& n > 0
    &&& g.contains_key(k)
    &&& forall|d: Seq<char>| #[trigger]
        g[k].dep_names().contains(d) ==> resolvable(g, d, (n - 1) as nat)
}

/// The place in `t` of the last of these names, or -1 if `t` holds none of them.
pub open spec fn rank(deps: Seq<Seq<char>>, t: Seq<Seq<char>>) -> int
    decreases t.len(),
{
    if t.len() == 0 {
        -1
    } else if deps.contains(t.last()) {
        t.len() - 1
    } else {
        rank(deps, t.drop_last())
    }
}

/// Steps are released when the last of their dependencies has been placed; steps released
/// together go in name order.
pub open spec fn released_before(
    g: Steps,
    t: Seq<Seq<char>>,
    a: Seq<char>,
    b: Seq<char>,
) -> bool {
    let ra = rank(g[a].dep_names(), t);
    let rb = rank(g[b].dep_names(), t);
    ra < rb || (ra == rb && before(a, b))
}

/// Does every step of the graph stand in `t` once, after everything it depends on?
pub open spec fn in_dependency_order(g: Steps, t: Seq<Seq<char>>) -> bool {
    &&& t.no_duplicates()
    &&& forall|k: Seq<char>| #[trigger] t.contains(k) <==> g.contains_key(k)
    &&& forall|j: int| 0 <= j < t.len() ==> ready(g, #[trigger] t[j], t.take(j))
}

/// Is `t` the execution order of the graph? Every step stands in it once, after everything it
/// depends on, and the order of release decides between steps that are free to go either way.
pub open spec fn execution_order(g: Steps, t: Seq<Seq<char>>) -> bool {
    &&& in_dependency_order(g, t)
    &&& forall|i: int, j: int|
        0 <= i < j < t.len() ==> released_before(g, t, #[trigger] t[i], #[trigger] t[j])
}

/// Does the graph hold every step that one of its steps depends on?
pub open spec fn holds_its_deps(g: Steps) -> bool {
    forall|k: Seq<char>, d: Seq<char>| #[trigger] depends(g, k, d) ==> g.contains_key(d)
}

/// Does no step depend on itself, directly or through others?
pub open spec fn acyclic(g: Steps) -> bool {
    forall|k: Seq<char>| !#[trigger] on_cycle(downstream(g), k)
}

/// Can the graph be executed at all?
pub open spec fn executable(g: Steps) -> bool {
    exists|t: Seq<Seq<char>>| execution_order(g, t)
}

proof fn lemma_rank_bound(deps: Seq<Seq<char>>, t: Seq<Seq<char>>)
    ensures
        -1 <= rank(deps, t) < t.len(),
    decreases t.len(),
{
    if t.len() > 0 && !deps.contains(t.last()) {
        lemma_rank_bound(deps, t.drop_last());
    }
}

/// What comes after all of a step's dependencies does not change when it is released.
proof fn lemma_rank_prefix(deps: Seq<Seq<char>>, t: Seq<Seq<char>>, i: int)
    requires
        0 <= i <= t.len(),
        t.no_duplicates(),
        forall|d: Seq<char>| #[trigger] deps.contains(d) ==> t.take(i).contains(d),
    ensures
        rank(deps, t) == rank(deps, t.take(i)),
    decreases t.len() - i,
{
    if i == t.len() {
        assert(t.take(i) =~= t);
    } else {
        let n = t.len() - 1;
        if deps.contains(t[n]) {
            let j = choose|j: int| 0 <= j < i && t.take(i)[j] == t[n];
            assert(t[j] == t[n]);
        }
        assert(t.drop_last().take(i) =~= t.take(i));
        lemma_rank_prefix(deps, t.drop_last(), i);
    }
}

/// The execution order is unique: a graph has one order at most, whoever computes it.
pub proof fn law_execution_order_is_unique(g: Steps, t1: Seq<Seq<char>>, t2: Seq<Seq<char>>)
    requires
        execution_order(g, t1),
        execution_order(g, t2),
    ensures
        t1 == t2,
{
    assert forall|x: Seq<char>| t1.to_set().contains(x) <==> t2.to_set().contains(x) by {
        assert(t1.contains(x) <==> g.contains_key(x));
        assert(t2.contains(x) <==> g.contains_key(x));
    }
    assert(t1.to_set() =~= t2.to_set());
    t1.unique_seq_to_set();
    t2.unique_seq_to_set();
    assert(t1.len() == t2.len());
    lemma_common_prefix(g, t1, t2, t1.len() as int);
    assert(t1.take(t1.len() as int) =~= t1);
    assert(t2.take(t1.len() as int) =~= t2);
}

proof fn lemma_common_prefix(g: Steps, t1: Seq<Seq<char>>, t2: Seq<Seq<char>>, i: int)
    requires
        execution_order(g, t1),
        execution_order(g, t2),
        t1.len() == t2.len(),
        0 <= i <= t1.len(),
    ensures
        t1.take(i) == t2.take(i),
    decreases i,
{
    if i > 0 {
        let m = i - 1;
        lemma_common_prefix(g, t1, t2, m);
        let a = t1[m];
        let b = t2[m];
        if a != b {
            assert(t1.contains(a));
            assert(t2.contains(b));
            assert(t2.contains(a));
            assert(t1.contains(b));
            let j = choose|j: int| 0 <= j < t2.len() && t2[j] == a;
            let k = choose|k: int| 0 <= k < t1.len() && t1[k] == b;
            if j < m {
                assert(t2.take(m)[j] == a);
                assert(t1.take(m)[j] == a);
                assert(t1[j] == t1[m]);
            }
            if k < m {
                assert(t1.take(m)[k] == b);
                assert(t2.take(m)[k] == b);
                assert(t2[k] == t2[m]);
            }
            assert(released_before(g, t1, t1[m], t1[k]));
            assert(released_before(g, t2, t2[m], t2[j]));
            assert(ready(g, t1[m], t1.take(m)));
            assert(ready(g, t2[m], t2.take(m)));
            lemma_rank_prefix(g[a].dep_names(), t1, m);
            lemma_rank_prefix(g[a].dep_names(), t2, m);
            lemma_rank_prefix(g[b].dep_names(), t1, m);
            lemma_rank_prefix(g[b].dep_names(), t2, m);
            lemma_before_asymmetric(a, b);
        }
        assert(t1.take(i) =~= t1.take(m).push(a));
        assert(t2.take(i) =~= t2.take(m).push(b));
    }
}

proof fn lemma_resolvable_more(g: Steps, k: Seq<char>, m: nat, n: nat)
    requires
        resolvable(g, k, m),
        m <= n,
    ensures
        resolvable(g, k, n),
    decreases m,
{
    assert forall|d: Seq<char>| #[trigger] g[k].dep_names().contains(d) implies resolvable(
        g,
        d,
        (n - 1) as nat,
    ) by {
        lemma_resolvable_more(g, d, (m - 1) as nat, (n - 1) as nat);
    }
}

proof fn lemma_placed_is_resolvable(g: Steps, t: Seq<Seq<char>>, j: int)
    requires
        forall|i: int| 0 <= i < t.len() ==> ready(g, #[trigger] t[i], t.take(i)),
        0 <= j < t.len(),
    ensures
        resolvable(g, t[j], (j + 1) as nat),
    decreases j,
{
    assert(ready(g, t[j], t.take(j)));
    assert forall|d: Seq<char>| #[trigger] g[t[j]].dep_names().contains(d) implies resolvable(
        g,
        d,
        j as nat,
    ) by {
        let i = choose|i: int| 0 <= i < j && t.take(j)[i] == d;
        lemma_placed_is_resolvable(g, t, i);
        lemma_resolvable_more(g, d, (i + 1) as nat, j as nat);
    }
}

proof fn lemma_unplaced_is_stuck(g: Steps, t: Seq<Seq<char>>, k: Seq<char>, n: nat)
    requires
        forall|x: Seq<char>| #[trigger] t.contains(x) <==> ready(g, x, t),
        !t.contains(k),
    ensures
        !resolvable(g, k, n),
    decreases n,
{
    if resolvable(g, k, n) {
        assert forall|d: Seq<char>| #[trigger] g[k].dep_names().contains(d) implies t.contains(
            d,
        ) by {
            if !t.contains(d) {
                lemma_unplaced_is_stuck(g, t, d, (n - 1) as nat);
            }
        }
        assert(ready(g, k, t));
    }
}

/// A validated execution order plus the reverse edges the scheduler needs.
pub struct Plan {
    pub topo: Vec<NodeKey>,
    pub dependents: NameMap<Vec<String>>,
    pub indegree: NameMap<usize>,
}

/// Does the plan describe the graph?
pub open spec fn plans(p: Plan, g: Steps) -> bool {
    &&& execution_order(g, key_names(p.topo@))
    &&& p.dependents.wf()
    &&& forall|d: Seq<char>, k: Seq<char>| #[trigger]
        edge(p.dependents@, d, k) <==> depends(g, k, d)
    &&& forall|d: Seq<char>| #[trigger]
        p.dependents@.contains_key(d) ==> p.dependents@[d]@.len() > 0 && ascending(
            texts(p.dependents@[d]@),
        )
    &&& p.indegree.wf()
    &&& forall|k: Seq<char>| #[trigger] p.indegree@.contains_key(k) <==> g.contains_key(k)
    &&& forall|k: Seq<char>| #[trigger]
        p.indegree@.contains_key(k) ==> p.indegree@[k] == unrepeated(g[k].dep_names()).len()
}

/// The graph of a task.
pub struct TaskGraph {
    pub nodes: NameMap<NodeSpec>,
}

impl View for TaskGraph {
    type V = Steps;

    open spec fn view(&self) -> Steps {
        self.nodes@
    }
}

/// Is `missing` the first dependency, in name order of the steps and then in declared order, that
/// the graph does not hold?
pub open spec fn first_missing(
    names: Seq<Seq<char>>,
    g: Steps,
    node: Seq<char>,
    missing: Seq<char>,
) -> bool {
    exists|i: int, j: int|
        {
            &&& 0 <= i < names.len() && #[trigger] names[i] == node
            &&& 0 <= j < g[node].dep_names().len() && #[trigger] g[node].dep_names()[j] == missing
            &&& !g.contains_key(missing)
            &&& forall|a: int, d: Seq<char>|
                0 <= a < i && #[trigger] g[names[a]].dep_names().contains(d) ==> g.contains_key(d)
            &&& forall|b: int| 0 <= b < j ==> g.contains_key(#[trigger] g[node].dep_names()[b])
        }
}

impl TaskGraph {
    /// Every step stands under its own key.
    pub open spec fn wf(&self) -> bool {
        &&& self.nodes.wf()
        &&& forall|k: Seq<char>| #[trigger] self@.contains_key(k) ==> self@[k].key@ == k
    }

    /// The keys, in order.
    pub open spec fn names(&self) -> Seq<Seq<char>> {
        self.nodes.names()
    }

    pub fn new() -> (r: Self)
        ensures
            r.wf(),
            r@ == Steps::empty(),
    {
        TaskGraph { nodes: NameMap::empty() }
    }

    /// Add one step. A step that depends on itself and a key that is taken are refused, in that
    /// order, and leave the graph as it was.
    pub fn add(&mut self, spec: NodeSpec) -> (r: Result<(), GraphError>)
        requires
            old(self).wf(),
        ensures
            final(self).wf(),
            r is Ok <==> !spec.dep_names().contains(spec.key@) && !old(self)@.contains_key(
                spec.key@,
            ),
            match r {
                Ok(()) => final(self)@ == old(self)@.insert(spec.key@, spec),
                Err(GraphError::SelfDep(k)) => spec.dep_names().contains(spec.key@) && k@
                    == spec.key@ && final(self)@ == old(self)@,
                Err(GraphError::Duplicate(k)) => !spec.dep_names().contains(spec.key@) && old(
                    self,
                )@.contains_key(spec.key@) && k@ == spec.key@ && final(self)@ == old(self)@,
                Err(_) => false,
            },
    {
        if has_key(&spec.deps, spec.key.as_str()) {
            return Err(GraphError::SelfDep(spec.key));
        }
        if self.nodes.contains_key(spec.key.as_str()) {
            return Err(GraphError::Duplicate(spec.key));
        }
        let name = spec.key.0.clone();
        self.nodes.insert(name, spec);
        Ok(())
    }

    /// Chainable form, for building graphs inline. A duplicate key is a programming error in the
    /// planner rather than a runtime condition.
    pub fn with(self, spec: NodeSpec) -> (r: Self)
        requires
            self.wf(),
            !spec.dep_names().contains(spec.key@),
            !self@.contains_key(spec.key@),
        ensures
            r.wf(),
            r@ == self@.insert(spec.key@, spec),
    {
        let mut g = self;
        let _ = g.add(spec);
        g
    }

    pub fn get(&self, key: &NodeKey) -> (r: Option<&NodeSpec>)
        requires
            self.wf(),
        ensures
            match r {
                Some(n) => self@.contains_key(key@) && *n == self@[key@],
                None => !self@.contains_key(key@),
            },
    {
        self.nodes.get(key.as_str())
    }

    pub fn len(&self) -> (r: usize)
        ensures
            r == self.names().len(),
    {
        self.nodes.entries.len()
    }

    pub fn is_empty(&self) -> (r: bool)
        ensures
            r == (self.names().len() == 0),
    {
        self.nodes.entries.len() == 0
    }

    /// The keys, in order.
    pub fn keys(&self) -> (r: Vec<NodeKey>)
        ensures
            key_names(r@) == self.names(),
    {
        let mut out: Vec<NodeKey> = Vec::new();
        let mut i: usize = 0;
        while i < self.nodes.entries.len()
            invariant
                i <= self.nodes.entries@.len(),
                out@.len() == i,
                forall|k: int| 0 <= k < i ==> #[trigger] out@[k]@ == self.names()[k],
            decreases self.nodes.entries@.len() - i,
        {
            out.push(NodeKey::new(self.nodes.entries[i].0.as_str()));
            i += 1;
        }
        assert(key_names(out@) =~= self.names());
        out
    }

    /// Replace one step, or add it if the key is new. Used by warm reruns that change an input.
    pub fn replace(&mut self, spec: NodeSpec)
        requires
            old(self).wf(),
        ensures
            final(self).wf(),
            final(self)@ == old(self)@.insert(spec.key@, spec),
    {
        let name = spec.key.0.clone();
        self.nodes.insert(name, spec);
    }
}

/// Is every one of these keys in the set?
fn all_in(v: &Vec<NodeKey>, placed: &Vec<String>) -> (r: bool)
    requires
        ascending(texts(placed@)),
    ensures
        r == (forall|d: Seq<char>| #[trigger]
            key_names(v@).contains(d) ==> texts(placed@).contains(d)),
{
    let ghost ns = key_names(v@);
    let mut i: usize = 0;
    while i < v.len()
        invariant
            i <= v@.len(),
            ns == key_names(v@),
            ascending(texts(placed@)),
            forall|a: int| 0 <= a < i ==> texts(placed@).contains(#[trigger] ns[a]),
        decreases v@.len() - i,
    {
        if !names::has(placed, v[i].as_str()) {
            assert(ns.contains(ns[i as int]));
            return false;
        }
        i += 1;
    }
    assert forall|d: Seq<char>| #[trigger] ns.contains(d) implies texts(placed@).contains(d) by {
        let a = choose|a: int| 0 <= a < ns.len() && ns[a] == d;
    }
    true
}

/// Has the step at place `a` below `i`, or the step at place `i` by one of its first `j`
/// dependencies, been seen to read `d`?
spec fn seen_reading(
    names: Seq<Seq<char>>,
    g: Steps,
    i: int,
    j: int,
    d: Seq<char>,
    k: Seq<char>,
) -> bool {
    ||| exists|a: int|
        0 <= a < i && #[trigger] names[a] == k && g[names[a]].dep_names().contains(d)
    ||| (i < names.len() && k == names[i] && g[names[i]].dep_names().take(j).contains(d))
}

proof fn lemma_order_starts(g: Steps, w: Seq<Seq<char>>)
    requires
        ascending(w),
        forall|k: Seq<char>| #[trigger]
            w.contains(k) <==> g.contains_key(k) && g[k].deps@.len() == 0,
    ensures
        w.no_duplicates(),
        forall|k: Seq<char>| #[trigger] w.contains(k) <==> ready(g, k, w.take(0)),
        forall|i: int, j: int|
            0 <= i < j < w.len() ==> released_before(g, w.take(0), #[trigger] w[i], #[trigger] w[j]),
        forall|j: int| 0 <= j < w.len() ==> ready(g, #[trigger] w[j], w.take(0)),
{
    lemma_ascending_distinct(w);
    assert forall|k: Seq<char>| #[trigger] w.contains(k) <==> ready(g, k, w.take(0)) by {
        if g.contains_key(k) {
            let ds = g[k].dep_names();
            if ds.len() > 0 {
                assert(ds.contains(ds[0]));
            }
        }
    }
    assert forall|j: int| 0 <= j < w.len() implies ready(g, #[trigger] w[j], w.take(0)) by {
        assert(w.contains(w[j]));
    }
}

/// The state of releasing steps: `w` holds what has been released, in order, and of it the first
/// `head` have been placed.
spec fn releasing(g: Steps, w: Seq<Seq<char>>, head: int) -> bool {
    &&& 0 <= head <= w.len()
    &&& w.no_duplicates()
    &&& forall|k: Seq<char>| #[trigger] w.contains(k) <==> ready(g, k, w.take(head))
    &&& forall|i: int, j: int|
        0 <= i < j < w.len() ==> released_before(g, w.take(head), #[trigger] w[i], #[trigger] w[j])
    &&& forall|j: int|
        0 <= j < w.len() ==> ready(
            g,
            #[trigger] w[j],
            w.take(
                if j < head {
                    j
                } else {
                    head
                },
            ),
        )
}

/// Placing the next released step releases exactly the steps that only waited for it.
proof fn lemma_release_step(g: Steps, w: Seq<Seq<char>>, head: int, fresh: Seq<Seq<char>>)
    requires
        releasing(g, w, head),
        head < w.len(),
        ascending(fresh),
        forall|c: Seq<char>| #[trigger]
            fresh.contains(c) <==> depends(g, c, w[head]) && ready(g, c, w.take(head + 1)),
    ensures
        releasing(g, w + fresh, head + 1),
{
    let k = w[head];
    let t = w.take(head);
    let t1 = w.take(head + 1);
    let w1 = w + fresh;
    assert(t1 =~= t.push(k));
    assert(w1.take(head + 1) =~= t1);
    assert(t1.drop_last() =~= t);
    assert(t1.last() == k);
    assert(!t.contains(k)) by {
        if t.contains(k) {
            let j = choose|j: int| 0 <= j < t.len() && t[j] == k;
            assert(w[j] == w[head]);
        }
    }
    assert forall|x: Seq<char>| w.contains(x) implies !#[trigger] g[x].dep_names().contains(k) && rank(
        g[x].dep_names(),
        t1,
    ) == rank(g[x].dep_names(), t) by {
        assert(ready(g, x, t));
    }
    assert forall|x: Seq<char>| #[trigger] fresh.contains(x) implies rank(g[x].dep_names(), t1)
        == head && !w.contains(x) by {
        assert(depends(g, x, k));
        if w.contains(x) {
            assert(!g[x].dep_names().contains(k));
        }
    }
    lemma_ascending_distinct(fresh);
    assert forall|i: int, j: int| 0 <= i < w1.len() && 0 <= j < w1.len() && i != j implies w1[i]
        != w1[j] by {
        let n = w.len() as int;
        if i >= n {
            assert(fresh.contains(fresh[i - n]));
        }
        if j >= n {
            assert(fresh.contains(fresh[j - n]));
        }
        if i < n {
            assert(w.contains(w[i]));
        }
        if j < n {
            assert(w.contains(w[j]));
        }
    }
    assert forall|x: Seq<char>| ready(g, x, t) implies ready(g, x, t1) by {
        assert forall|d: Seq<char>| #[trigger] g[x].dep_names().contains(d) implies t1.contains(
            d,
        ) by {
            let j = choose|j: int| 0 <= j < t.len() && t[j] == d;
            assert(t1[j] == d);
        }
    }
    assert forall|x: Seq<char>| #[trigger] w1.contains(x) <==> ready(g, x, t1) by {
        if w1.contains(x) {
            let j = choose|j: int| 0 <= j < w1.len() && w1[j] == x;
            if j < w.len() {
                assert(w[j] == x);
                assert(w.contains(x));
            } else {
                assert(fresh[j - w.len()] == x);
                assert(fresh.contains(x));
            }
        }
        if ready(g, x, t1) {
            if g[x].dep_names().contains(k) {
                assert(fresh.contains(x));
                let j = choose|j: int| 0 <= j < fresh.len() && fresh[j] == x;
                assert(w1[w.len() + j] == x);
            } else {
                assert forall|d: Seq<char>| #[trigger]
                    g[x].dep_names().contains(d) implies t.contains(d) by {
                    let j = choose|j: int| 0 <= j < t1.len() && t1[j] == d;
                    assert(j < head);
                    assert(t[j] == d);
                }
                assert(ready(g, x, t));
                assert(w.contains(x));
                let j = choose|j: int| 0 <= j < w.len() && w[j] == x;
                assert(w1[j] == x);
            }
        }
    }
    assert forall|i: int, j: int| 0 <= i < j < w1.len() implies released_before(
        g,
        t1,
        #[trigger] w1[i],
        #[trigger] w1[j],
    ) by {
        let n = w.len() as int;
        if i < n {
            assert(w.contains(w[i]));
            lemma_rank_bound(g[w[i]].dep_names(), t);
        } else {
            assert(fresh.contains(fresh[i - n]));
        }
        if j < n {
            assert(w.contains(w[j]));
            assert(released_before(g, t, w[i], w[j]));
        } else {
            assert(fresh.contains(fresh[j - n]));
        }
    }
    assert forall|j: int| 0 <= j < w1.len() implies ready(
        g,
        #[trigger] w1[j],
        w1.take(
            if j < head + 1 {
                j
            } else {
                head + 1
            },
        ),
    ) by {
        let n = w.len() as int;
        if j < head {
            assert(w1[j] == w[j]);
            assert(w1.take(j) =~= w.take(j));
        } else if j == head {
            assert(w1[j] == w[j]);
            assert(w1.take(j) =~= t);
        } else if j < n {
            assert(w1[j] == w[j]);
            assert(ready(g, w[j], t));
        } else {
            assert(fresh.contains(fresh[j - n]));
        }
    }
}

impl TaskGraph {
    /// The steps with their keys, in order.
    pub fn iter(&self) -> (r: &Vec<(String, NodeSpec)>)
        ensures
            r@ == self.nodes.entries@,
    {
        &self.nodes.entries
    }

    /// Who reads each step, and how many dependencies each has.
    fn reverse_edges(&self) -> (r: Result<(NameMap<Vec<String>>, NameMap<usize>), GraphError>)
        requires
            self.wf(),
        ensures
            match r {
                Ok((dependents, indegree)) => {
                    &&& forall|k: Seq<char>, d: Seq<char>| #[trigger]
                        depends(self@, k, d) ==> self@.contains_key(d)
                    &&& dependents.wf()
                    &&& forall|d: Seq<char>, k: Seq<char>| #[trigger]
                        edge(dependents@, d, k) <==> depends(self@, k, d)
                    &&& forall|d: Seq<char>| #[trigger]
                        dependents@.contains_key(d) ==> dependents@[d]@.len() > 0 && ascending(
                            texts(dependents@[d]@),
                        )
                    &&& indegree.wf()
                    &&& forall|k: Seq<char>| #[trigger]
                        indegree@.contains_key(k) <==> self@.contains_key(k)
                    &&& forall|k: Seq<char>| #[trigger]
                        indegree@.contains_key(k) ==> indegree@[k] == unrepeated(
                            self@[k].dep_names(),
                        ).len()
                },
                Err(GraphError::MissingDep { node, missing }) => first_missing(
                    self.names(),
                    self@,
                    node@,
                    missing@,
                ),
                Err(_) => false,
            },
    {
        let ghost g = self@;
        let ghost ns = self.names();
        let mut dependents: NameMap<Vec<String>> = NameMap::empty();
        let mut indegree: NameMap<usize> = NameMap::empty();
        let mut i: usize = 0;
        while i < self.nodes.entries.len()
            invariant
                self.wf(),
                g == self@,
                ns == self.names(),
                i <= self.nodes.entries@.len(),
                dependents.wf(),
                indegree.wf(),
                forall|d: Seq<char>, k: Seq<char>| #[trigger]
                    edge(dependents@, d, k) <==> seen_reading(ns, g, i as int, 0, d, k),
                forall|d: Seq<char>| #[trigger]
                    dependents@.contains_key(d) ==> dependents@[d]@.len() > 0 && ascending(
                        texts(dependents@[d]@),
                    ),
                forall|k: Seq<char>| #[trigger]
                    indegree@.contains_key(k) <==> ns.take(i as int).contains(k),
                forall|k: Seq<char>| #[trigger]
                    indegree@.contains_key(k) ==> indegree@[k] == unrepeated(
                        g[k].dep_names(),
                    ).len(),
                forall|a: int, d: Seq<char>|
                    0 <= a < i && #[trigger] g[ns[a]].dep_names().contains(d) ==> g.contains_key(d),
            decreases self.nodes.entries@.len() - i,
        {
            proof {
                self.nodes.lemma_at(i as int);
            }
            let key = self.nodes.entries[i].0.clone();
            let spec = &self.nodes.entries[i].1;
            let ghost ds = spec.dep_names();
            let mut j: usize = 0;
            assert(ds.take(0) =~= Seq::empty());
            while j < spec.deps.len()
                invariant
                    self.wf(),
                    g == self@,
                    ns == self.names(),
                    i < self.nodes.entries@.len(),
                    g.contains_key(ns[i as int]),
                    *spec == g[ns[i as int]],
                    key@ == ns[i as int],
                    ds == spec.dep_names(),
                    j <= spec.deps@.len(),
                    dependents.wf(),
                    forall|d: Seq<char>, k: Seq<char>| #[trigger]
                        edge(dependents@, d, k) <==> seen_reading(ns, g, i as int, j as int, d, k),
                    forall|d: Seq<char>| #[trigger]
                        dependents@.contains_key(d) ==> dependents@[d]@.len() > 0 && ascending(
                            texts(dependents@[d]@),
                        ),
                    forall|a: int, d: Seq<char>|
                        0 <= a < i && #[trigger] g[ns[a]].dep_names().contains(d)
                            ==> g.contains_key(d),
                    forall|b: int| 0 <= b < j ==> g.contains_key(#[trigger] ds[b]),
                decreases spec.deps@.len() - j,
            {
                let d = spec.deps[j].as_str();
                let ghost dd = d@;
                assert(dd == ds[j as int]);
                if !self.nodes.contains_key(d) {
                    assert(first_missing(ns, g, key@, dd));
                    return Err(
                        GraphError::MissingDep { node: NodeKey(key), missing: NodeKey::new(d) },
                    );
                }
                let ghost m0 = dependents@;
                let mut list: Vec<String> = match dependents.remove(d) {
                    Some(v) => v,
                    None => Vec::new(),
                };
                let ghost l0 = texts(list@);
                names::insert(&mut list, key.clone());
                dependents.insert(d.to_owned(), list);
                proof {
                    let m = dependents@;
                    assert(texts(list@).contains(key@));
                    assert forall|d2: Seq<char>, k: Seq<char>| #[trigger]
                        edge(m, d2, k) <==> seen_reading(ns, g, i as int, j + 1, d2, k) by {
                        assert(ds.take(j + 1) =~= ds.take(j as int).push(dd));
                        if d2 == dd {
                            assert(l0.contains(k) <==> edge(m0, d2, k));
                            assert(edge(m, d2, k) <==> l0.contains(k) || k == key@);
                            assert(ds.take(j + 1)[j as int] == dd);
                            if k == key@ {
                                assert(ds.take(j + 1).contains(dd));
                            }
                            if seen_reading(ns, g, i as int, j as int, d2, k) {
                                if k == ns[i as int] {
                                    assert(ds.take(j + 1).contains(dd));
                                }
                            }
                        } else {
                            assert(edge(m, d2, k) <==> edge(m0, d2, k));
                            if ds.take(j as int).contains(d2) {
                                let b = choose|b: int|
                                    0 <= b < j && ds.take(j as int)[b] == d2;
                                assert(ds.take(j + 1)[b] == d2);
                            }
                            if ds.take(j + 1).contains(d2) {
                                let dn = ds.take(j + 1);
                                let b = choose|b: int| 0 <= b < dn.len() && dn[b] == d2;
                                assert(ds.take(j as int)[b] == d2);
                            }
                        }
                    }
                }
                j += 1;
            }
            let needed = once_each(&spec.deps);
            assert(key_names(needed@).len() == needed@.len());
            indegree.insert(key, needed.len());
            proof {
                assert(ds.take(j as int) =~= ds);
                assert forall|d: Seq<char>, k: Seq<char>| #[trigger]
                    edge(dependents@, d, k) <==> seen_reading(ns, g, i + 1, 0, d, k) by {
                    if seen_reading(ns, g, i as int, j as int, d, k) {
                        if k == ns[i as int] && ds.contains(d) {
                            assert(ns[i as int] == k);
                        }
                    }
                    if i + 1 < ns.len() {
                        assert(g[ns[i + 1]].dep_names().take(0) =~= Seq::empty());
                    }
                }
                assert(ns.take(i + 1) =~= ns.take(i as int).push(ns[i as int]));
                assert forall|k: Seq<char>| #[trigger]
                    indegree@.contains_key(k) <==> ns.take(i + 1).contains(k) by {
                    if ns.take(i as int).contains(k) {
                        let a = choose|a: int| 0 <= a < i && ns.take(i as int)[a] == k;
                        assert(ns.take(i + 1)[a] == k);
                    }
                    if ns.take(i + 1).contains(k) {
                        let nn = ns.take(i + 1);
                        let a = choose|a: int| 0 <= a < nn.len() && nn[a] == k;
                        if a < i {
                            assert(ns.take(i as int)[a] == k);
                        }
                    }
                    assert(ns.take(i + 1)[i as int] == ns[i as int]);
                }
                assert forall|a: int, d: Seq<char>|
                    0 <= a < i + 1 && #[trigger] g[ns[a]].dep_names().contains(
                        d,
                    ) implies g.contains_key(d) by {
                    if a == i {
                        let b = choose|b: int| 0 <= b < ds.len() && ds[b] == d;
                    }
                }
            }
            i += 1;
        }
        proof {
            assert(ns.take(i as int) =~= ns);
            assert forall|d: Seq<char>, k: Seq<char>| #[trigger]
                edge(dependents@, d, k) <==> depends(g, k, d) by {
                if depends(g, k, d) {
                    let a = choose|a: int| 0 <= a < ns.len() && ns[a] == k;
                    assert(seen_reading(ns, g, i as int, 0, d, k));
                }
                if edge(dependents@, d, k) {
                    let a = choose|a: int|
                        0 <= a < i && #[trigger] ns[a] == k && g[ns[a]].dep_names().contains(d);
                    self.nodes.lemma_at(a);
                }
            }
            assert forall|k: Seq<char>, d: Seq<char>| #[trigger]
                depends(g, k, d) implies g.contains_key(d) by {
                let a = choose|a: int| 0 <= a < ns.len() && ns[a] == k;
                assert(g[ns[a]].dep_names().contains(d));
            }
        }
        Ok((dependents, indegree))
    }

    /// Release the steps one after the other: first those without dependencies, then, as each is
    /// placed, those that only waited for it.
    fn release(&self, dependents: &NameMap<Vec<String>>) -> (w: Vec<String>)
        requires
            self.wf(),
            dependents.wf(),
            forall|d: Seq<char>, k: Seq<char>| #[trigger]
                edge(dependents@, d, k) <==> depends(self@, k, d),
            forall|d: Seq<char>| #[trigger]
                dependents@.contains_key(d) ==> ascending(texts(dependents@[d]@)),
        ensures
            releasing(self@, texts(w@), texts(w@).len() as int),
    {
        let ghost g = self@;
        let ghost ns = self.names();
        let mut w: Vec<String> = Vec::new();
        let mut i: usize = 0;
        while i < self.nodes.entries.len()
            invariant
                self.wf(),
                g == self@,
                ns == self.names(),
                i <= self.nodes.entries@.len(),
                ascending(texts(w@)),
                forall|k: Seq<char>| #[trigger]
                    texts(w@).contains(k) <==> ns.take(i as int).contains(k) && g[k].deps@.len()
                        == 0,
                forall|k: int| 0 <= k < w@.len() ==> ns.take(i as int).contains(
                    #[trigger] texts(w@)[k],
                ),
            decreases self.nodes.entries@.len() - i,
        {
            proof {
                self.nodes.lemma_at(i as int);
                assert(ns.take(i + 1) =~= ns.take(i as int).push(ns[i as int]));
            }
            let ghost w0 = texts(w@);
            if self.nodes.entries[i].1.deps.len() == 0 {
                let key = self.nodes.entries[i].0.clone();
                w.push(key);
                proof {
                    assert(texts(w@) =~= w0.push(key@));
                    assert forall|a: int, b: int| 0 <= a < b < texts(w@).len() implies before(
                        #[trigger] texts(w@)[a],
                        #[trigger] texts(w@)[b],
                    ) by {
                        if b == w0.len() {
                            assert(ns.take(i as int).contains(w0[a]));
                            let c = choose|c: int| 0 <= c < i && ns.take(i as int)[c] == w0[a];
                            assert(before(ns[c], ns[i as int]));
                        } else {
                            assert(before(w0[a], w0[b]));
                        }
                    }
                }
            } else {
                assert(texts(w@) =~= w0);
            }
            proof {
                let w1 = texts(w@);
                assert forall|k: Seq<char>| #[trigger]
                    w1.contains(k) <==> ns.take(i + 1).contains(k) && g[k].deps@.len() == 0 by {
                    if w1.contains(k) {
                        let a = choose|a: int| 0 <= a < w1.len() && w1[a] == k;
                        if a < w0.len() {
                            assert(w0[a] == k);
                            assert(w0.contains(k));
                            let c = choose|c: int| 0 <= c < i && ns.take(i as int)[c] == k;
                            assert(ns.take(i + 1)[c] == k);
                        } else {
                            assert(ns.take(i + 1)[i as int] == k);
                        }
                    }
                    if ns.take(i + 1).contains(k) && g[k].deps@.len() == 0 {
                        let nn = ns.take(i + 1);
                        let c = choose|c: int| 0 <= c < nn.len() && nn[c] == k;
                        if c < i {
                            assert(ns.take(i as int)[c] == k);
                            assert(w0.contains(k));
                            let a = choose|a: int| 0 <= a < w0.len() && w0[a] == k;
                            assert(w1[a] == k);
                        } else {
                            assert(w1[w0.len() as int] == k);
                        }
                    }
                }
                assert forall|k: int| 0 <= k < w1.len() implies ns.take(i + 1).contains(
                    #[trigger] w1[k],
                ) by {
                    assert(w1.contains(w1[k]));
                }
            }
            i += 1;
        }
        proof {
            assert(ns.take(i as int) =~= ns);
            assert forall|k: Seq<char>| #[trigger]
                texts(w@).contains(k) <==> g.contains_key(k) && g[k].deps@.len() == 0 by {}
            lemma_order_starts(g, texts(w@));
        }

        let mut placed: Vec<String> = Vec::new();
        let mut head: usize = 0;
        proof {
            assert(texts(w@).take(0) =~= Seq::empty());
            assert forall|j: int| 0 <= j < texts(w@).len() implies ready(
                g,
                #[trigger] texts(w@)[j],
                texts(w@).take(
                    if j < 0 {
                        j
                    } else {
                        0
                    },
                ),
            ) by {}
            assert(releasing(g, texts(w@), 0));
            lemma_released_bound(self, texts(w@));
        }
        while head < w.len()
            invariant
                self.wf(),
                g == self@,
                ns == self.names(),
                dependents.wf(),
                forall|d: Seq<char>, k: Seq<char>| #[trigger]
                    edge(dependents@, d, k) <==> depends(g, k, d),
                forall|d: Seq<char>| #[trigger]
                    dependents@.contains_key(d) ==> ascending(texts(dependents@[d]@)),
                head <= w@.len(),
                w@.len() <= ns.len(),
                releasing(g, texts(w@), head as int),
                ascending(texts(placed@)),
                forall|x: Seq<char>| #[trigger]
                    texts(placed@).contains(x) <==> texts(w@).take(head as int).contains(x),
            decreases ns.len() - head,
        {
            let ghost w0 = texts(w@);
            let key = w[head].clone();
            assert(key@ == w0[head as int]);
            let ghost t1 = w0.take(head + 1);
            assert(t1 =~= w0.take(head as int).push(key@));
            names::insert(&mut placed, key.clone());
            assert forall|x: Seq<char>| #[trigger] texts(placed@).contains(x) <==> t1.contains(
                x,
            ) by {
                if w0.take(head as int).contains(x) {
                    let a = choose|a: int| 0 <= a < head && w0.take(head as int)[a] == x;
                    assert(t1[a] == x);
                }
                if t1.contains(x) {
                    let a = choose|a: int| 0 <= a < head + 1 && t1[a] == x;
                    if a < head {
                        assert(w0.take(head as int)[a] == x);
                    }
                }
                assert(t1[head as int] == key@);
            }
            let ghost mut fresh: Seq<Seq<char>> = Seq::empty();
            match dependents.get(key.as_str()) {
                Some(children) => {
                    let ghost cs = texts(children@);
                    let mut m: usize = 0;
                    assert(texts(w@) =~= w0 + fresh);
                    assert forall|c: int| 0 <= c < cs.len() implies g.contains_key(
                        #[trigger] cs[c],
                    ) by {
                        assert(cs.contains(cs[c]));
                        assert(edge(dependents@, key@, cs[c]));
                        assert(depends(g, cs[c], key@));
                    }
                    while m < children.len()
                        invariant
                            self.wf(),
                            g == self@,
                            cs == texts(children@),
                            ascending(cs),
                            m <= children@.len(),
                            forall|c: int| 0 <= c < cs.len() ==> g.contains_key(#[trigger] cs[c]),
                            ascending(texts(placed@)),
                            forall|x: Seq<char>| #[trigger]
                                texts(placed@).contains(x) <==> t1.contains(x),
                            texts(w@) == w0 + fresh,
                            ascending(fresh),
                            forall|c: Seq<char>| #[trigger]
                                fresh.contains(c) <==> cs.take(m as int).contains(c) && ready(
                                    g,
                                    c,
                                    t1,
                                ),
                        decreases children@.len() - m,
                    {
                        let c = children[m].clone();
                        assert(c@ == cs[m as int]);
                        let ghost f0 = fresh;
                        let ghost wb = texts(w@);
                        match self.nodes.get(c.as_str()) {
                            Some(spec) => {
                                let go = all_in(&spec.deps, &placed);
                                assert(go == ready(g, c@, t1)) by {
                                    if go {
                                        assert forall|d: Seq<char>| #[trigger]
                                            g[c@].dep_names().contains(d) implies t1.contains(d) by {
                                            assert(texts(placed@).contains(d));
                                        }
                                    }
                                    if ready(g, c@, t1) {
                                        assert forall|d: Seq<char>| #[trigger]
                                            key_names(spec.deps@).contains(d) implies texts(
                                            placed@,
                                        ).contains(d) by {
                                            assert(g[c@].dep_names().contains(d));
                                        }
                                    }
                                }
                                if go {
                                    w.push(c);
                                    proof {
                                        fresh = fresh.push(c@);
                                        assert(texts(w@) =~= wb.push(c@));
                                        assert(texts(w@) =~= w0 + fresh);
                                        assert forall|a: int, b: int|
                                            0 <= a < b < fresh.len() implies before(
                                            #[trigger] fresh[a],
                                            #[trigger] fresh[b],
                                        ) by {
                                            if b == f0.len() {
                                                assert(f0.contains(f0[a]));
                                                let e = choose|e: int|
                                                    0 <= e < m && cs.take(m as int)[e] == f0[a];
                                                assert(before(cs[e], cs[m as int]));
                                            } else {
                                                assert(before(f0[a], f0[b]));
                                            }
                                        }
                                    }
                                }
                            },
                            None => {},
                        }
                        proof {
                            assert(cs.take(m + 1) =~= cs.take(m as int).push(cs[m as int]));
                            assert forall|x: Seq<char>| #[trigger]
                                fresh.contains(x) <==> cs.take(m + 1).contains(x) && ready(
                                    g,
                                    x,
                                    t1,
                                ) by {
                                if fresh.contains(x) {
                                    let a = choose|a: int| 0 <= a < fresh.len() && fresh[a] == x;
                                    if a < f0.len() {
                                        assert(f0[a] == x);
                                        assert(f0.contains(x));
                                        let e = choose|e: int|
                                            0 <= e < m && cs.take(m as int)[e] == x;
                                        assert(cs.take(m + 1)[e] == x);
                                    } else {
                                        assert(cs.take(m + 1)[m as int] == x);
                                    }
                                }
                                if cs.take(m + 1).contains(x) && ready(g, x, t1) {
                                    let cn = cs.take(m + 1);
                                    let e = choose|e: int| 0 <= e < cn.len() && cn[e] == x;
                                    if e < m {
                                        assert(cs.take(m as int)[e] == x);
                                        assert(f0.contains(x));
                                        let a = choose|a: int| 0 <= a < f0.len() && f0[a] == x;
                                        assert(fresh[a] == x);
                                    } else {
                                        assert(fresh[f0.len() as int] == x);
                                    }
                                }
                            }
                        }
                        m += 1;
                    }
                    proof {
                        assert(cs.take(m as int) =~= cs);
                        assert forall|c: Seq<char>| #[trigger]
                            fresh.contains(c) <==> depends(g, c, key@) && ready(g, c, t1) by {
                            assert(edge(dependents@, key@, c) <==> depends(g, c, key@));
                        }
                    }
                },
                None => {
                    assert(texts(w@) =~= w0 + fresh);
                    assert forall|c: Seq<char>| #[trigger]
                        fresh.contains(c) <==> depends(g, c, key@) && ready(g, c, t1) by {
                        assert(edge(dependents@, key@, c) <==> depends(g, c, key@));
                    }
                },
            }
            proof {
                lemma_release_step(g, w0, head as int, fresh);
                lemma_released_bound(self, texts(w@));
                assert(texts(w@).take(head + 1) =~= t1);
            }
            head += 1;
        }
        w
    }

    /// Is this why the graph cannot be executed? A dependency that is not there comes first, and
    /// then the first of the nodes that lie on a cycle.
    pub open spec fn has_fault(&self, e: GraphError) -> bool {
        match e {
            GraphError::MissingDep { node, missing } => first_missing(
                self.names(),
                self@,
                node@,
                missing@,
            ),
            GraphError::Cycle(k) => {
                &&& holds_its_deps(self@)
                &&& self@.contains_key(k@)
                &&& on_cycle(downstream(self@), k@)
                &&& forall|x: Seq<char>|
                    #![trigger self@.contains_key(x)]
                    self@.contains_key(x) && before(x, k@) ==> !on_cycle(downstream(self@), x)
            },
            _ => false,
        }
    }

    /// Check the graph and produce a deterministic execution order.
    ///
    /// Determinism matters: two runs of the same graph must dispatch in the same order, or the
    /// benchmark's per node attribution is comparing different things. A graph that cannot be
    /// executed is refused with the first dependency it does not hold or, if it holds them all,
    /// with the first step that lies on a cycle. A dependency that is listed twice is one
    /// dependency.
    pub fn validate(&self) -> (r: Result<Plan, GraphError>)
        requires
            self.wf(),
        ensures
            r is Ok <==> executable(self@),
            r is Ok <==> holds_its_deps(self@) && acyclic(self@),
            match r {
                Ok(p) => plans(p, self@),
                Err(e) => self.has_fault(e),
            },
    {
        let ghost g = self@;
        let ghost ns = self.names();
        let (dependents, indegree) = match self.reverse_edges() {
            Ok(x) => x,
            Err(e) => {
                proof {
                    lemma_missing_blocks(self, e->node@, e->missing@);
                }
                return Err(e);
            },
        };
        let w = self.release(&dependents);
        let ghost t = texts(w@);
        assert(t.take(t.len() as int) =~= t);
        let mut topo: Vec<NodeKey> = Vec::new();
        let mut i: usize = 0;
        while i < w.len()
            invariant
                i <= w@.len(),
                t == texts(w@),
                topo@.len() == i,
                forall|k: int| 0 <= k < i ==> #[trigger] topo@[k]@ == t[k],
            decreases w@.len() - i,
        {
            topo.push(NodeKey(w[i].clone()));
            i += 1;
        }
        assert(key_names(topo@) =~= t);
        proof {
            assert forall|j: int| 0 <= j < t.len() implies ready(g, #[trigger] t[j], t.take(j)) by {}
        }
        assert(along(dependents@) =~= downstream(g)) by {
            assert forall|a: Seq<char>, b: Seq<char>| #[trigger]
                along(dependents@)(a, b) == downstream(g)(a, b) by {
                assert(edge(dependents@, a, b) <==> depends(g, b, a));
            }
        }
        let mut k: usize = 0;
        while k < self.nodes.entries.len()
            invariant
                self.wf(),
                g == self@,
                ns == self.names(),
                k <= self.nodes.entries@.len(),
                dependents.wf(),
                along(dependents@) == downstream(g),
                forall|a: int| 0 <= a < k ==> !on_cycle(downstream(g), #[trigger] ns[a]),
                holds_its_deps(g),
            decreases self.nodes.entries@.len() - k,
        {
            proof {
                self.nodes.lemma_at(k as int);
            }
            if leads_back(&dependents, self.nodes.entries[k].0.as_str()) {
                let ghost at = ns[k as int];
                proof {
                    assert forall|x: Seq<char>|
                        #![trigger g.contains_key(x)]
                        g.contains_key(x) && before(x, at) implies !on_cycle(downstream(g), x) by {
                        let a = choose|a: int| 0 <= a < ns.len() && ns[a] == x;
                        if a >= k {
                            lemma_before_asymmetric(x, at);
                            lemma_before_asymmetric(at, x);
                        }
                        assert(!on_cycle(downstream(g), ns[a]));
                    }
                    assert(!acyclic(g));
                    if executable(g) {
                        lemma_executable_is_acyclic(g);
                    }
                }
                return Err(GraphError::Cycle(NodeKey(self.nodes.entries[k].0.clone())));
            }
            k += 1;
        }
        proof {
            let open = ns.filter(|x: Seq<char>| !t.contains(x));
            assert forall|x: Seq<char>| g.contains_key(x) && !t.contains(x) implies #[trigger] open.contains(
                x,
            ) by {
                let a = choose|a: int| 0 <= a < ns.len() && ns[a] == x;
                ns.lemma_filter_contains(|x: Seq<char>| !t.contains(x), a);
            }
            if open.len() > 0 {
                assert forall|i: int| 0 <= i < open.len() implies #[trigger] is_led_to(
                    downstream(g),
                    open,
                    i,
                ) by {
                    let x = open[i];
                    lemma_filtered(ns, |x: Seq<char>| !t.contains(x), i);
                    let a = choose|a: int| 0 <= a < ns.len() && ns[a] == x;
                    self.nodes.lemma_at(a);
                    assert(!ready(g, x, t));
                    let d = choose|d: Seq<char>| #[trigger]
                        g[x].dep_names().contains(d) && !t.contains(d);
                    assert(depends(g, x, d));
                    assert(open.contains(d));
                    let j = choose|j: int| 0 <= j < open.len() && open[j] == d;
                    assert(downstream(g)(open[j], open[i]));
                }
                let c = lemma_some_cycle(downstream(g), open);
                lemma_filtered(ns, |x: Seq<char>| !t.contains(x), c);
                let a = choose|a: int| 0 <= a < ns.len() && ns[a] == open[c];
                assert(!on_cycle(downstream(g), ns[a]));
            }
            assert forall|x: Seq<char>| #[trigger] g.contains_key(x) implies t.contains(x) by {
                if !t.contains(x) {
                    assert(open.contains(x));
                }
            }
        }
        proof {
            assert forall|x: Seq<char>| #[trigger] t.contains(x) <==> g.contains_key(x) by {
                assert(releasing(g, t, t.len() as int));
            }
            assert(execution_order(g, t));
            lemma_executable_is_acyclic(g);
        }
        Ok(Plan { topo, dependents, indegree })
    }

    /// Every node reachable downstream of `roots`, roots included, in ascending order. A graph
    /// that cannot be executed has no downstream.
    ///
    /// This is the *structural* dirty set: the nodes that could be affected by a change. The
    /// scheduler recomputes at most these, because early cutoff prunes any branch whose parent
    /// produced identical bytes.
    pub fn downstream_closure(&self, roots: &Vec<NodeKey>) -> (r: Vec<String>)
        requires
            self.wf(),
        ensures
            ascending(texts(r@)),
            forall|x: Seq<char>| #[trigger]
                texts(r@).contains(x) <==> executable(self@) && reachable(
                    downstream(self@),
                    key_names(roots@),
                    x,
                ),
    {
        match self.validate() {
            Err(_) => Vec::new(),
            Ok(p) => {
                let mut rs: Vec<String> = Vec::new();
                let mut i: usize = 0;
                while i < roots.len()
                    invariant
                        i <= roots@.len(),
                        rs@.len() == i,
                        forall|k: int| 0 <= k < i ==> #[trigger] rs@[k]@ == roots@[k]@,
                    decreases roots@.len() - i,
                {
                    rs.push(roots[i].0.clone());
                    i += 1;
                }
                assert(texts(rs@) =~= key_names(roots@));
                assert(along(p.dependents@) =~= downstream(self@)) by {
                    assert forall|a: Seq<char>, b: Seq<char>| #[trigger]
                        along(p.dependents@)(a, b) == downstream(self@)(a, b) by {
                        assert(edge(p.dependents@, a, b) <==> depends(self@, b, a));
                    }
                }
                closure(&p.dependents, &rs)
            },
        }
    }
}

proof fn lemma_walk_goes_on(g: Steps, t: Seq<Seq<char>>, a: int, x: Seq<char>, n: nat) -> (b: int)
    requires
        execution_order(g, t),
        0 <= a < t.len(),
        walk(downstream(g), t[a], x, n),
    ensures
        0 <= b < t.len(),
        t[b] == x,
        a + n <= b,
    decreases n,
{
    if n == 0 {
        a
    } else {
        let e = downstream(g);
        let c = choose|c: Seq<char>| walk(e, t[a], c, (n - 1) as nat) && #[trigger] e(c, x);
        let i = lemma_walk_goes_on(g, t, a, c, (n - 1) as nat);
        assert(depends(g, x, c));
        assert(t.contains(x));
        let b = choose|b: int| 0 <= b < t.len() && t[b] == x;
        assert(ready(g, t[b], t.take(b)));
        assert(g[x].dep_names().contains(c));
        let j = choose|j: int| 0 <= j < b && t.take(b)[j] == c;
        assert(t[j] == t[i]);
        b
    }
}

/// A graph that can be executed holds what its steps depend on, and has no cycle.
proof fn lemma_executable_is_acyclic(g: Steps)
    requires
        executable(g),
    ensures
        holds_its_deps(g),
        acyclic(g),
{
    let t = choose|t: Seq<Seq<char>>| execution_order(g, t);
    assert forall|k: Seq<char>, d: Seq<char>| #[trigger] depends(g, k, d) implies g.contains_key(
        d,
    ) by {
        assert(t.contains(k));
        let b = choose|b: int| 0 <= b < t.len() && t[b] == k;
        assert(ready(g, t[b], t.take(b)));
        let j = choose|j: int| 0 <= j < b && t.take(b)[j] == d;
        assert(t.contains(t[j]));
    }
    assert forall|k: Seq<char>| !#[trigger] on_cycle(downstream(g), k) by {
        if on_cycle(downstream(g), k) {
            let e = downstream(g);
            let n = choose|n: nat| n > 0 && #[trigger] walk(e, k, k, n);
            let c = choose|c: Seq<char>| walk(e, k, c, (n - 1) as nat) && #[trigger] e(c, k);
            assert(depends(g, k, c));
            assert(t.contains(k));
            let a = choose|a: int| 0 <= a < t.len() && t[a] == k;
            let b = lemma_walk_goes_on(g, t, a, k, n);
            assert(t[a] == t[b]);
        }
    }
}

/// What a filter keeps was there, and passes it.
pub proof fn lemma_filtered(t: Seq<Seq<char>>, f: spec_fn(Seq<char>) -> bool, i: int)
    requires
        0 <= i < t.filter(f).len(),
    ensures
        t.contains(t.filter(f)[i]),
        f(t.filter(f)[i]),
    decreases t.len(),
{
    reveal(Seq::filter);
    if t.len() > 0 {
        let w = t.drop_last();
        if i < w.filter(f).len() {
            lemma_filtered(w, f, i);
            let j = choose|j: int| 0 <= j < w.len() && w[j] == w.filter(f)[i];
            assert(t[j] == w[j]);
            assert(t.filter(f)[i] == w.filter(f)[i]);
        } else {
            assert(t[t.len() - 1] == t.filter(f)[i]);
        }
    }
}

/// A graph that names a step it does not hold cannot be executed.
proof fn lemma_missing_blocks(graph: &TaskGraph, node: Seq<char>, missing: Seq<char>)
    requires
        graph.wf(),
        first_missing(graph.names(), graph@, node, missing),
    ensures
        !executable(graph@),
        !holds_its_deps(graph@),
{
    let g = graph@;
    let ns = graph.names();
    {
        let (i, j) = choose|i: int, j: int|
            {
                &&& 0 <= i < ns.len() && #[trigger] ns[i] == node
                &&& 0 <= j < g[node].dep_names().len() && #[trigger] g[node].dep_names()[j]
                    == missing
                &&& !g.contains_key(missing)
            };
        graph.nodes.lemma_at(i);
        assert(g[node].dep_names().contains(missing));
        assert(depends(g, node, missing));
    }
    if executable(g) {
        let t = choose|t: Seq<Seq<char>>| execution_order(g, t);
        let (i, j) = choose|i: int, j: int|
            {
                &&& 0 <= i < ns.len() && #[trigger] ns[i] == node
                &&& 0 <= j < g[node].dep_names().len() && #[trigger] g[node].dep_names()[j]
                    == missing
                &&& !g.contains_key(missing)
                &&& forall|a: int, d: Seq<char>|
                    0 <= a < i && #[trigger] g[ns[a]].dep_names().contains(d) ==> g.contains_key(d)
                &&& forall|b: int| 0 <= b < j ==> g.contains_key(#[trigger] g[node].dep_names()[b])
            };
        graph.nodes.lemma_at(i);
        assert(g[node].dep_names().contains(missing));
        assert(t.contains(node));
        let p = choose|p: int| 0 <= p < t.len() && t[p] == node;
        assert(ready(g, t[p], t.take(p)));
        let q = choose|q: int| 0 <= q < p && t.take(p)[q] == missing;
        assert(t.contains(t[q]));
    }
}

/// The edges along which a change travels: from a step to the steps that read it.
pub open spec fn downstream(g: Steps) -> spec_fn(Seq<char>, Seq<char>) -> bool {
    |a: Seq<char>, b: Seq<char>| depends(g, b, a)
}

proof fn lemma_released_bound(graph: &TaskGraph, w: Seq<Seq<char>>)
    requires
        w.no_duplicates(),
        forall|k: Seq<char>| #[trigger] w.contains(k) ==> graph@.contains_key(k),
    ensures
        w.len() <= graph.names().len(),
{
    assert forall|i: int| 0 <= i < w.len() implies graph.names().contains(#[trigger] w[i]) by {
        assert(w.contains(w[i]));
    }
    lemma_distinct_len(w, graph.names());
}

/// The keys of a run of steps.
pub open spec fn step_names(b: Seq<NodeSpec>) -> Seq<Seq<char>> {
    b.map_values(|s: NodeSpec| s.key@)
}

/// Has every sibling that the step depends on been placed?
pub open spec fn siblings_placed(
    s: NodeSpec,
    siblings: Set<Seq<char>>,
    placed: Set<Seq<char>>,
) -> bool {
    forall|d: Seq<char>| #[trigger]
        s.dep_names().contains(d) ==> !siblings.contains(d) || placed.contains(d)
}

/// One pass over the steps that remain: what it places, in order, and what it leaves.
pub open spec fn batch_pass(
    rem: Seq<NodeSpec>,
    siblings: Set<Seq<char>>,
    placed: Set<Seq<char>>,
) -> (Seq<NodeSpec>, Seq<NodeSpec>)
    decreases rem.len(),
{
    if rem.len() == 0 {
        (Seq::empty(), Seq::empty())
    } else {
        let (order, left) = batch_pass(rem.drop_last(), siblings, placed);
        let s = rem.last();
        if siblings_placed(s, siblings, placed.union(step_names(order).to_set())) {
            (order.push(s), left)
        } else {
            (order, left.push(s))
        }
    }
}

proof fn lemma_pass_len(
    rem: Seq<NodeSpec>,
    siblings: Set<Seq<char>>,
    placed: Set<Seq<char>>,
)
    ensures
        batch_pass(rem, siblings, placed).0.len() + batch_pass(rem, siblings, placed).1.len()
            == rem.len(),
    decreases rem.len(),
{
    if rem.len() > 0 {
        lemma_pass_len(rem.drop_last(), siblings, placed);
    }
}

/// Pass after pass, until nothing remains or a pass places nothing: the steps in dependency
/// order, and those that could not be placed.
pub open spec fn batch_order(
    rem: Seq<NodeSpec>,
    siblings: Set<Seq<char>>,
    placed: Set<Seq<char>>,
) -> (Seq<NodeSpec>, Seq<NodeSpec>)
    decreases rem.len(),
    via batch_order_decreases
{
    let (order, left) = batch_pass(rem, siblings, placed);
    if rem.len() == 0 || order.len() == 0 {
        (Seq::empty(), rem)
    } else {
        let (rest, stuck) = batch_order(left, siblings, placed.union(step_names(order).to_set()));
        (order + rest, stuck)
    }
}

#[via_fn]
proof fn batch_order_decreases(
    rem: Seq<NodeSpec>,
    siblings: Set<Seq<char>>,
    placed: Set<Seq<char>>,
) {
    lemma_pass_len(rem, siblings, placed);
}

/// The graph with these steps put in, one after the other.
pub open spec fn put_all(g: Steps, steps: Seq<NodeSpec>) -> Steps
    decreases steps.len(),
{
    if steps.len() == 0 {
        g
    } else {
        put_all(g, steps.drop_last()).insert(steps.last().key@, steps.last())
    }
}

/// May the step join the graph together with these siblings? Its key is free, it does not depend
/// on itself, and everything it depends on is in the graph or among the siblings.
pub open spec fn may_join(g: Steps, siblings: Seq<Seq<char>>, s: NodeSpec) -> bool {
    &&& !g.contains_key(s.key@)
    &&& !s.dep_names().contains(s.key@)
    &&& forall|d: Seq<char>| #[trigger]
        s.dep_names().contains(d) ==> g.contains_key(d) || siblings.contains(d)
}

/// Is the key of the `i`th step of a batch taken, in the graph or by a step before it?
pub open spec fn is_taken(g: Steps, batch: Seq<NodeSpec>, i: int) -> bool {
    g.contains_key(batch[i].key@) || step_names(batch).take(i).contains(batch[i].key@)
}

/// Do these steps have different keys, and may each join the graph together with the others?
pub open spec fn may_all_join(g: Steps, batch: Seq<NodeSpec>) -> bool {
    &&& step_names(batch).no_duplicates()
    &&& forall|i: int|
        0 <= i < batch.len() ==> may_join(g, step_names(batch), #[trigger] batch[i])
}

/// The edges between the steps of a batch: from a step to the steps that read it.
pub open spec fn batch_edges(batch: Seq<NodeSpec>) -> spec_fn(Seq<char>, Seq<char>) -> bool {
    |a: Seq<char>, b: Seq<char>|
        exists|i: int, j: int|
            0 <= i < batch.len() && 0 <= j < batch.len() && (#[trigger] batch[i]).key@ == a && (
            #[trigger] batch[j]).key@ == b && batch[j].dep_names().contains(a)
}

/// Is `k` the first of these steps that lies on a cycle within them?
pub open spec fn first_on_cycle(stuck: Seq<NodeSpec>, k: Seq<char>) -> bool {
    exists|i: int|
        {
            &&& 0 <= i < stuck.len() && (#[trigger] stuck[i]).key@ == k
            &&& on_cycle(batch_edges(stuck), k)
            &&& forall|j: int|
                0 <= j < i ==> !on_cycle(batch_edges(stuck), (#[trigger] stuck[j]).key@)
        }
}

/// Is this the fault of the first step of the batch that may not join?
pub open spec fn batch_fault(g: Steps, batch: Seq<NodeSpec>, e: GraphError) -> bool {
    let siblings = step_names(batch);
    exists|i: int|
        {
            &&& 0 <= i < batch.len()
            &&& forall|a: int|
                0 <= a < i ==> !is_taken(g, batch, a) && may_join(g, siblings, #[trigger] batch[a])
            &&& match e {
                GraphError::Duplicate(k) => k@ == (#[trigger] batch[i]).key@ && is_taken(
                    g,
                    batch,
                    i,
                ),
                GraphError::SelfDep(k) => {
                    &&& k@ == batch[i].key@
                    &&& !is_taken(g, batch, i)
                    &&& batch[i].dep_names().contains(batch[i].key@)
                },
                GraphError::MissingDep { node, missing } => {
                    &&& node@ == batch[i].key@
                    &&& !is_taken(g, batch, i)
                    &&& !batch[i].dep_names().contains(batch[i].key@)
                    &&& exists|j: int|
                        {
                            &&& 0 <= j < batch[i].dep_names().len()
                            &&& #[trigger] batch[i].dep_names()[j] == missing@
                            &&& !g.contains_key(missing@) && !siblings.contains(missing@)
                            &&& forall|b: int|
                                0 <= b < j ==> g.contains_key(#[trigger] batch[i].dep_names()[b])
                                    || siblings.contains(batch[i].dep_names()[b])
                        }
                },
                GraphError::Cycle(_) => false,
            }
        }
}

/// Are all the keys in the graph or among the siblings? If not, the place of the first that is
/// not.
fn first_unknown(g: &TaskGraph, siblings: &Vec<String>, deps: &Vec<NodeKey>) -> (r: Option<usize>)
    requires
        g.wf(),
        ascending(texts(siblings@)),
    ensures
        match r {
            Some(j) => {
                &&& j < deps@.len()
                &&& !g@.contains_key(key_names(deps@)[j as int]) && !texts(siblings@).contains(
                    key_names(deps@)[j as int],
                )
                &&& forall|b: int|
                    0 <= b < j ==> g@.contains_key(#[trigger] key_names(deps@)[b]) || texts(
                        siblings@,
                    ).contains(key_names(deps@)[b])
            },
            None => forall|d: Seq<char>| #[trigger]
                key_names(deps@).contains(d) ==> g@.contains_key(d) || texts(
                    siblings@,
                ).contains(d),
        },
{
    let ghost ds = key_names(deps@);
    let mut j: usize = 0;
    while j < deps.len()
        invariant
            g.wf(),
            ascending(texts(siblings@)),
            ds == key_names(deps@),
            j <= deps@.len(),
            forall|b: int|
                0 <= b < j ==> g@.contains_key(#[trigger] ds[b]) || texts(siblings@).contains(
                    ds[b],
                ),
        decreases deps@.len() - j,
    {
        if !g.nodes.contains_key(deps[j].as_str()) && !names::has(siblings, deps[j].as_str()) {
            return Some(j);
        }
        j += 1;
    }
    assert forall|d: Seq<char>| #[trigger] ds.contains(d) implies g@.contains_key(d) || texts(
        siblings@,
    ).contains(d) by {
        let b = choose|b: int| 0 <= b < ds.len() && ds[b] == d;
    }
    None
}

fn siblings_are_placed(
    deps: &Vec<NodeKey>,
    siblings: &Vec<String>,
    placed: &Vec<String>,
) -> (r: bool)
    requires
        ascending(texts(siblings@)),
        ascending(texts(placed@)),
    ensures
        r == (forall|d: Seq<char>| #[trigger]
            key_names(deps@).contains(d) ==> !texts(siblings@).contains(d) || texts(
                placed@,
            ).contains(d)),
{
    let ghost ds = key_names(deps@);
    let mut j: usize = 0;
    while j < deps.len()
        invariant
            ascending(texts(siblings@)),
            ascending(texts(placed@)),
            ds == key_names(deps@),
            j <= deps@.len(),
            forall|b: int|
                0 <= b < j ==> !texts(siblings@).contains(#[trigger] ds[b]) || texts(
                    placed@,
                ).contains(ds[b]),
        decreases deps@.len() - j,
    {
        if names::has(siblings, deps[j].as_str()) && !names::has(placed, deps[j].as_str()) {
            assert(ds.contains(ds[j as int]));
            return false;
        }
        j += 1;
    }
    assert forall|d: Seq<char>| #[trigger] ds.contains(d) implies !texts(siblings@).contains(d)
        || texts(placed@).contains(d) by {
        let b = choose|b: int| 0 <= b < ds.len() && ds[b] == d;
    }
    true
}

proof fn lemma_step_names_push(b: Seq<NodeSpec>, s: NodeSpec)
    ensures
        step_names(b.push(s)) == step_names(b).push(s.key@),
        step_names(b.push(s)).to_set() == step_names(b).to_set().insert(s.key@),
{
    assert(step_names(b.push(s)) =~= step_names(b).push(s.key@));
    let x = step_names(b);
    let y = step_names(b).push(s.key@);
    assert forall|k: Seq<char>| y.to_set().contains(k) <==> x.to_set().insert(s.key@).contains(
        k,
    ) by {
        if y.contains(k) {
            let i = choose|i: int| 0 <= i < y.len() && y[i] == k;
            if i < x.len() {
                assert(x[i] == k);
            }
        }
        if x.contains(k) {
            let i = choose|i: int| 0 <= i < x.len() && x[i] == k;
            assert(y[i] == k);
        }
        assert(y[x.len() as int] == s.key@);
    }
    assert(y.to_set() =~= x.to_set().insert(s.key@));
}

impl TaskGraph {
    /// Add several nodes that may depend on each other, in any order.
    ///
    /// Used by expansion. Returns the batch in dependency order so the caller can append it to a
    /// topological order it is already holding. A refused batch leaves the graph as it was.
    pub fn add_batch(&mut self, batch: Vec<NodeSpec>) -> (r: Result<Vec<NodeKey>, GraphError>)
        requires
            old(self).wf(),
        ensures
            final(self).wf(),
            ({
                let g = old(self)@;
                let siblings = step_names(batch@);
                let (order, stuck) = batch_order(batch@, siblings.to_set(), Set::empty());
                let clean = may_all_join(g, batch@);
                &&& r is Ok <==> clean && stuck.len() == 0
                &&& match r {
                    Ok(keys) => key_names(keys@) == step_names(order) && final(self)@ == put_all(
                        g,
                        order,
                    ),
                    Err(e) => {
                        &&& final(self)@ == g
                        &&& if clean {
                            e matches GraphError::Cycle(k) && first_on_cycle(stuck, k@)
                        } else {
                            batch_fault(g, batch@, e)
                        }
                    },
                }
            }),
    {
        let ghost g = self@;
        let ghost names_of = step_names(batch@);
        let ghost sib = names_of.to_set();
        let ghost all = batch@;
        let mut incoming: Vec<String> = Vec::new();
        let mut i: usize = 0;
        while i < batch.len()
            invariant
                i <= batch@.len(),
                names_of == step_names(batch@),
                ascending(texts(incoming@)),
                forall|x: Seq<char>| #[trigger]
                    texts(incoming@).contains(x) <==> names_of.take(i as int).contains(x),
            decreases batch@.len() - i,
        {
            names::insert(&mut incoming, batch[i].key.0.clone());
            proof {
                let a = names_of.take(i as int);
                let b = names_of.take(i + 1);
                assert(b =~= a.push(names_of[i as int]));
                assert forall|x: Seq<char>| #[trigger] b.contains(x) <==> a.contains(x) || x
                    == names_of[i as int] by {
                    if a.contains(x) {
                        let k = choose|k: int| 0 <= k < a.len() && a[k] == x;
                        assert(b[k] == x);
                    }
                    if b.contains(x) {
                        let k = choose|k: int| 0 <= k < b.len() && b[k] == x;
                        if k < i {
                            assert(a[k] == x);
                        }
                    }
                    assert(b[i as int] == names_of[i as int]);
                }
            }
            i += 1;
        }
        assert(names_of.take(i as int) =~= names_of);

        let mut seen: Vec<String> = Vec::new();
        let mut c: usize = 0;
        assert(texts(seen@) =~= names_of.take(0));
        while c < batch.len()
            invariant
                self.wf(),
                self@ == g,
                all == batch@,
                names_of == step_names(batch@),
                c <= batch@.len(),
                ascending(texts(incoming@)),
                forall|x: Seq<char>| #[trigger]
                    texts(incoming@).contains(x) <==> names_of.contains(x),
                forall|a: int|
                    0 <= a < c ==> !is_taken(g, all, a) && may_join(
                        g,
                        names_of,
                        #[trigger] batch@[a],
                    ),
                forall|a: int, b: int| 0 <= a < b < c ==> names_of[a] != names_of[b],
                ascending(texts(seen@)),
                forall|x: Seq<char>| #[trigger]
                    texts(seen@).contains(x) <==> names_of.take(c as int).contains(x),
            decreases batch@.len() - c,
        {
            let spec = &batch[c];
            if self.nodes.contains_key(spec.key.as_str()) || names::has(&seen, spec.key.as_str()) {
                proof {
                    assert(is_taken(g, all, c as int));
                    if may_all_join(g, all) {
                        assert(may_join(g, names_of, all[c as int]));
                        let tt = names_of.take(c as int);
                        let b = choose|b: int| 0 <= b < tt.len() && tt[b] == all[c as int].key@;
                        assert(names_of[b] == names_of[c as int]);
                    }
                }
                let e = GraphError::Duplicate(spec.key.clone());
                assert(batch_fault(g, all, e));
                return Err(e);
            }
            if has_key(&spec.deps, spec.key.as_str()) {
                assert(!may_join(g, names_of, all[c as int]));
                let e = GraphError::SelfDep(spec.key.clone());
                assert(batch_fault(g, all, e)) by {
                    assert(all[c as int].key@ == spec.key@);
                }
                return Err(e);
            }
            match first_unknown(self, &incoming, &spec.deps) {
                Some(j) => {
                    let e = GraphError::MissingDep {
                        node: spec.key.clone(),
                        missing: spec.deps[j].clone(),
                    };
                    proof {
                        let ds = all[c as int].dep_names();
                        assert(ds.contains(ds[j as int]));
                        assert(!may_join(g, names_of, all[c as int]));
                        assert forall|b: int| 0 <= b < j implies g.contains_key(#[trigger] ds[b])
                            || names_of.contains(ds[b]) by {
                            assert(key_names(spec.deps@)[b] == ds[b]);
                        }
                        assert(ds[j as int] == spec.deps@[j as int]@);
                        assert(all[c as int].dep_names()[j as int] == spec.deps@[j as int]@);
                        assert(batch_fault(g, all, e));
                    }
                    return Err(e);
                },
                None => {},
            }
            let ghost seen0 = texts(seen@);
            names::insert(&mut seen, spec.key.0.clone());
            proof {
                assert(may_join(g, names_of, all[c as int]));
                assert(!is_taken(g, all, c as int));
                let a = names_of.take(c as int);
                let b = names_of.take(c + 1);
                assert(b =~= a.push(names_of[c as int]));
                assert forall|x: Seq<char>| #[trigger] texts(seen@).contains(x) <==> b.contains(
                    x,
                ) by {
                    assert(seen0.contains(x) <==> a.contains(x));
                    if a.contains(x) {
                        let k = choose|k: int| 0 <= k < a.len() && a[k] == x;
                        assert(b[k] == x);
                    }
                    if b.contains(x) {
                        let k = choose|k: int| 0 <= k < b.len() && b[k] == x;
                        if k < c {
                            assert(a[k] == x);
                        }
                    }
                    assert(b[c as int] == names_of[c as int]);
                }
                assert forall|x: int, y: int| 0 <= x < y < c + 1 implies names_of[x]
                    != names_of[y] by {
                    if y == c {
                        assert(a[x] == names_of[x]);
                        assert(a.contains(names_of[x]));
                    }
                }
            }
            c += 1;
        }
        assert(may_all_join(g, all));

        // Order the batch internally: a node comes after any sibling it depends on.
        let mut remaining: Vec<NodeSpec> = batch;
        let mut placed: Vec<String> = Vec::new();
        let mut order: Vec<NodeSpec> = Vec::new();
        let ghost mut pset: Set<Seq<char>> = Set::empty();
        let ghost whole = batch_order(all, sib, Set::empty());
        proof {
            assert(whole.0 =~= order@ + batch_order(remaining@, sib, pset).0);
            assert(whole.1 == batch_order(remaining@, sib, pset).1);
        }
        while remaining.len() > 0
            invariant
                self.wf(),
                self@ == g,
                sib == names_of.to_set(),
                ascending(texts(incoming@)),
                forall|x: Seq<char>| #[trigger]
                    texts(incoming@).contains(x) <==> names_of.contains(x),
                ascending(texts(placed@)),
                forall|x: Seq<char>| #[trigger]
                    texts(placed@).contains(x) <==> pset.contains(x),
                all == batch@,
                whole == batch_order(all, sib, Set::empty()),
                names_of == step_names(all),
                whole.0 == order@ + batch_order(remaining@, sib, pset).0,
                whole.1 == batch_order(remaining@, sib, pset).1,
                may_all_join(g, all),
                forall|x: Seq<char>| #[trigger]
                    names_of.contains(x) ==> pset.contains(x) || step_names(remaining@).contains(x),
            decreases remaining@.len(),
        {
            let ghost rem0 = remaining@;
            let ghost order0 = order@;
            let ghost pset0 = pset;
            let before_len: usize = remaining.len();
            let mut next: Vec<NodeSpec> = Vec::new();
            let ghost mut i: int = 0;
            assert(rem0.skip(0) =~= rem0);
            assert(rem0.take(0) =~= Seq::empty());
            assert(order@ =~= order0 + batch_pass(rem0.take(0), sib, pset0).0);
            assert(step_names(batch_pass(rem0.take(0), sib, pset0).0) =~= Seq::empty());
            assert(pset0.union(Seq::<Seq<char>>::empty().to_set()) =~= pset0);
            assert(next@ =~= batch_pass(rem0.take(0), sib, pset0).1);
            while remaining.len() > 0
                invariant
                    0 <= i <= rem0.len(),
                    sib == names_of.to_set(),
                    remaining@ == rem0.skip(i),
                    ascending(texts(incoming@)),
                    forall|x: Seq<char>| #[trigger]
                        texts(incoming@).contains(x) <==> names_of.contains(x),
                    ascending(texts(placed@)),
                    forall|x: Seq<char>| #[trigger]
                        texts(placed@).contains(x) <==> pset.contains(x),
                    order@ == order0 + batch_pass(rem0.take(i), sib, pset0).0,
                    next@ == batch_pass(rem0.take(i), sib, pset0).1,
                    pset == pset0.union(
                        step_names(batch_pass(rem0.take(i), sib, pset0).0).to_set(),
                    ),
                decreases remaining@.len(),
            {
                let ghost done = batch_pass(rem0.take(i), sib, pset0).0;
                let spec = remaining.remove(0);
                proof {
                    assert(spec == rem0[i]);
                    assert(remaining@ =~= rem0.skip(i + 1));
                    assert(rem0.take(i + 1).drop_last() =~= rem0.take(i));
                    assert(rem0.take(i + 1).last() == spec);
                }
                let ready_now = siblings_are_placed(&spec.deps, &incoming, &placed);
                proof {
                    assert(ready_now == siblings_placed(spec, sib, pset)) by {
                        if ready_now {
                            assert forall|d: Seq<char>| #[trigger]
                                spec.dep_names().contains(d) implies !sib.contains(d)
                                || pset.contains(d) by {
                                assert(key_names(spec.deps@).contains(d));
                                assert(texts(incoming@).contains(d) <==> names_of.contains(d));
                                assert(texts(placed@).contains(d) <==> pset.contains(d));
                            }
                        }
                        if siblings_placed(spec, sib, pset) {
                            assert forall|d: Seq<char>| #[trigger]
                                key_names(spec.deps@).contains(d) implies !texts(
                                incoming@,
                            ).contains(d) || texts(placed@).contains(d) by {
                                assert(spec.dep_names().contains(d));
                                assert(texts(incoming@).contains(d) <==> names_of.contains(d));
                                assert(texts(placed@).contains(d) <==> pset.contains(d));
                            }
                        }
                    }
                }
                if ready_now {
                    names::insert(&mut placed, spec.key.0.clone());
                    proof {
                        lemma_step_names_push(done, spec);
                        pset = pset.insert(spec.key@);
                        assert(pset =~= pset0.union(step_names(done.push(spec)).to_set()));
                    }
                    order.push(spec);
                    assert(order@ =~= order0 + done.push(spec));
                } else {
                    next.push(spec);
                }
                proof {
                    i = i + 1;
                }
            }
            proof {
                assert(rem0.take(i) =~= rem0);
                lemma_pass_len(rem0, sib, pset0);
                lemma_pass_covers(rem0, sib, pset0);
                assert forall|x: Seq<char>| #[trigger] names_of.contains(x) implies pset.contains(x)
                    || step_names(next@).contains(x) by {}
            }
            remaining = next;
            if remaining.len() == before_len {
                assert(batch_pass(rem0, sib, pset0).0.len() == 0);
                proof {
                    assert(remaining@ =~= rem0) by {
                        lemma_pass_leaves_all(rem0, sib, pset0);
                    }
                    assert(batch_order(rem0, sib, pset0).1 == rem0);
                    assert(whole.1 == rem0);
                    assert(whole.1.len() > 0);
                }
                proof {
                    lemma_pass_leaves_all(rem0, sib, pset0);
                    let e = batch_edges(rem0);
                    let rs = step_names(rem0);
                    assert forall|i: int| 0 <= i < rs.len() implies #[trigger] is_led_to(
                        e,
                        rs,
                        i,
                    ) by {
                        assert(!siblings_placed(rem0[i], sib, pset0));
                        let d = choose|d: Seq<char>| #[trigger]
                            rem0[i].dep_names().contains(d) && sib.contains(d) && !pset0.contains(d);
                        assert(names_of.contains(d));
                        assert(step_names(rem0).contains(d));
                        let j = choose|j: int| 0 <= j < rem0.len() && step_names(rem0)[j] == d;
                        assert(rem0[j].key@ == rs[j] && rem0[i].key@ == rs[i]);
                        assert(e(rs[j], rs[i]));
                    }
                }
                let at = find_cycle(&remaining);
                return Err(GraphError::Cycle(remaining[at].key.clone()));
            }
            proof {
                let done = batch_pass(rem0, sib, pset0).0;
                assert(done.len() > 0);
                assert(whole.0 =~= order@ + batch_order(remaining@, sib, pset).0);
            }
        }
        assert(whole.0 =~= order@);

        let ghost ordered = order@;
        let mut keys: Vec<NodeKey> = Vec::new();
        let ghost mut n: int = 0;
        assert(ordered.skip(0) =~= ordered);
        assert(ordered.take(0) =~= Seq::empty());
        while order.len() > 0
            invariant
                self.wf(),
                0 <= n <= ordered.len(),
                order@ == ordered.skip(n),
                self@ == put_all(g, ordered.take(n)),
                key_names(keys@) == step_names(ordered.take(n)),
            decreases order@.len(),
        {
            let spec = order.remove(0);
            let ghost k0 = keys@;
            proof {
                assert(spec == ordered[n]);
                assert(order@ =~= ordered.skip(n + 1));
                assert(ordered.take(n + 1).drop_last() =~= ordered.take(n));
                assert(ordered.take(n + 1) =~= ordered.take(n).push(spec));
                lemma_step_names_push(ordered.take(n), spec);
            }
            keys.push(spec.key.clone());
            assert(key_names(keys@) =~= key_names(k0).push(spec.key@));
            let name = spec.key.0.clone();
            self.nodes.insert(name, spec);
            proof {
                n = n + 1;
            }
        }
        assert(ordered.take(n) =~= ordered);
        Ok(keys)
    }
}

proof fn lemma_pass_covers(
    rem: Seq<NodeSpec>,
    siblings: Set<Seq<char>>,
    placed: Set<Seq<char>>,
)
    ensures
        forall|x: Seq<char>| #[trigger]
            step_names(rem).contains(x) ==> step_names(
                batch_pass(rem, siblings, placed).0,
            ).to_set().contains(x) || step_names(batch_pass(rem, siblings, placed).1).contains(x),
    decreases rem.len(),
{
    if rem.len() > 0 {
        let w = rem.drop_last();
        let (a, b) = batch_pass(w, siblings, placed);
        let (a1, b1) = batch_pass(rem, siblings, placed);
        lemma_pass_covers(w, siblings, placed);
        lemma_step_names_push(a, rem.last());
        lemma_step_names_push(b, rem.last());
        assert forall|x: Seq<char>| #[trigger] step_names(rem).contains(x) implies step_names(
            a1,
        ).to_set().contains(x) || step_names(b1).contains(x) by {
            let i = choose|i: int| 0 <= i < rem.len() && step_names(rem)[i] == x;
            if i < w.len() {
                assert(step_names(w)[i] == x);
                assert(step_names(w).contains(x));
                if step_names(b).contains(x) {
                    assert(step_names(b.push(rem.last())).to_set().contains(x));
                }
            } else {
                assert(step_names(b.push(rem.last())).to_set().contains(x));
            }
        }
    }
}

/// The place of the first of these steps that lies on a cycle within them.
fn find_cycle(stuck: &Vec<NodeSpec>) -> (at: usize)
    requires
        stuck@.len() > 0,
        forall|i: int|
            0 <= i < stuck@.len() ==> #[trigger] is_led_to(
                batch_edges(stuck@),
                step_names(stuck@),
                i,
            ),
    ensures
        at < stuck@.len(),
        first_on_cycle(stuck@, stuck@[at as int].key@),
{
    let ghost e = batch_edges(stuck@);
    let ghost ns = step_names(stuck@);
    let mut edges: NameMap<Vec<String>> = NameMap::empty();
    let mut i: usize = 0;
    while i < stuck.len()
        invariant
            i <= stuck@.len(),
            ns == step_names(stuck@),
            edges.wf(),
            forall|x: Seq<char>, y: Seq<char>| #[trigger]
                edge(edges@, x, y) <==> exists|a: int, b: int|
                    0 <= a < stuck@.len() && 0 <= b < i && (#[trigger] stuck@[a]).key@ == x && (
                    #[trigger] stuck@[b]).key@ == y && stuck@[b].dep_names().contains(x),
        decreases stuck@.len() - i,
    {
        let mut j: usize = 0;
        while j < stuck.len()
            invariant
                i < stuck@.len(),
                j <= stuck@.len(),
                ns == step_names(stuck@),
                edges.wf(),
                forall|x: Seq<char>, y: Seq<char>| #[trigger]
                    edge(edges@, x, y) <==> exists|a: int, b: int|
                        0 <= a < stuck@.len() && 0 <= b <= i && (b == i ==> a < j) && (
                        #[trigger] stuck@[a]).key@ == x && (#[trigger] stuck@[b]).key@ == y
                            && stuck@[b].dep_names().contains(x),
            decreases stuck@.len() - j,
        {
            let ghost before = edges@;
            if has_key(&stuck[i].deps, stuck[j].key.as_str()) {
                add_edge(&mut edges, stuck[j].key.as_str(), stuck[i].key.as_str());
            }
            proof {
                assert forall|x: Seq<char>, y: Seq<char>| #[trigger]
                    edge(edges@, x, y) <==> exists|a: int, b: int|
                        0 <= a < stuck@.len() && 0 <= b <= i && (b == i ==> a < j + 1) && (
                        #[trigger] stuck@[a]).key@ == x && (#[trigger] stuck@[b]).key@ == y
                            && stuck@[b].dep_names().contains(x) by {
                    if edge(before, x, y) {
                        let (a, b) = choose|a: int, b: int|
                            0 <= a < stuck@.len() && 0 <= b <= i && (b == i ==> a < j) && (
                            #[trigger] stuck@[a]).key@ == x && (#[trigger] stuck@[b]).key@ == y
                                && stuck@[b].dep_names().contains(x);
                        assert(stuck@[a].key@ == x && stuck@[b].key@ == y);
                    }
                    if edge(edges@, x, y) && !edge(before, x, y) {
                        assert(stuck@[j as int].key@ == x && stuck@[i as int].key@ == y);
                    }
                }
            }
            j += 1;
        }
        i += 1;
    }
    proof {
        assert forall|x: Seq<char>, y: Seq<char>| #[trigger] along(edges@)(x, y) == e(x, y) by {
            assert(along(edges@)(x, y) == edge(edges@, x, y));
        }
        assert(along(edges@) =~= e);
    }
    let mut k: usize = 0;
    while k < stuck.len()
        invariant
            k <= stuck@.len(),
            e == batch_edges(stuck@),
            edges.wf(),
            along(edges@) == e,
            forall|a: int| 0 <= a < k ==> !on_cycle(e, (#[trigger] stuck@[a]).key@),
        decreases stuck@.len() - k,
    {
        if leads_back(&edges, stuck[k].key.as_str()) {
            return k;
        }
        k += 1;
    }
    proof {
        let c = lemma_some_cycle(e, ns);
        assert(stuck@[c].key@ == ns[c]);
    }
    0
}

proof fn lemma_pass_leaves_all(
    rem: Seq<NodeSpec>,
    siblings: Set<Seq<char>>,
    placed: Set<Seq<char>>,
)
    requires
        batch_pass(rem, siblings, placed).0.len() == 0,
    ensures
        batch_pass(rem, siblings, placed).1 == rem,
        forall|i: int|
            0 <= i < rem.len() ==> !siblings_placed(#[trigger] rem[i], siblings, placed),
    decreases rem.len(),
{
    if rem.len() > 0 {
        let w = rem.drop_last();
        lemma_pass_leaves_all(w, siblings, placed);
        assert(rem =~= w.push(rem.last()));
        assert(step_names(batch_pass(w, siblings, placed).0) =~= Seq::empty());
        assert(placed.union(Seq::<Seq<char>>::empty().to_set()) =~= placed);
        assert forall|i: int| 0 <= i < rem.len() implies !siblings_placed(
            #[trigger] rem[i],
            siblings,
            placed,
        ) by {
            if i < w.len() {
                assert(rem[i] == w[i]);
            }
        }
    }
}

proof fn lemma_pass_in_order(
    rem: Seq<NodeSpec>,
    siblings: Set<Seq<char>>,
    placed: Set<Seq<char>>,
)
    ensures
        ({
            let order = batch_pass(rem, siblings, placed).0;
            forall|j: int|
                0 <= j < order.len() ==> siblings_placed(
                    #[trigger] order[j],
                    siblings,
                    placed.union(step_names(order.take(j)).to_set()),
                )
        }),
    decreases rem.len(),
{
    if rem.len() > 0 {
        lemma_pass_in_order(rem.drop_last(), siblings, placed);
        let before = batch_pass(rem.drop_last(), siblings, placed).0;
        let order = batch_pass(rem, siblings, placed).0;
        assert forall|j: int| 0 <= j < order.len() implies siblings_placed(
            #[trigger] order[j],
            siblings,
            placed.union(step_names(order.take(j)).to_set()),
        ) by {
            if j < before.len() {
                assert(order[j] == before[j]);
                assert(order.take(j) =~= before.take(j));
            } else {
                assert(order.take(j) =~= before);
            }
        }
    }
}

proof fn lemma_pass_stuck(
    rem: Seq<NodeSpec>,
    siblings: Set<Seq<char>>,
    placed: Set<Seq<char>>,
    m: int,
)
    requires
        batch_pass(rem, siblings, placed).0.len() == 0,
        0 <= m < rem.len(),
    ensures
        !siblings_placed(rem[m], siblings, placed),
    decreases rem.len(),
{
    let before = batch_pass(rem.drop_last(), siblings, placed).0;
    assert(before.len() == 0);
    assert(step_names(before) =~= Seq::empty());
    assert(placed.union(step_names(before).to_set()) =~= placed);
    if m < rem.len() - 1 {
        lemma_pass_stuck(rem.drop_last(), siblings, placed, m);
    }
}

/// A batch is ordered by its dependencies: each step comes after every sibling it depends on, and
/// a step that could not be placed waits for a sibling that was not placed either.
pub proof fn law_batch_order_respects_dependencies(
    rem: Seq<NodeSpec>,
    siblings: Set<Seq<char>>,
    placed: Set<Seq<char>>,
)
    ensures
        ({
            let (order, stuck) = batch_order(rem, siblings, placed);
            &&& forall|j: int|
                0 <= j < order.len() ==> siblings_placed(
                    #[trigger] order[j],
                    siblings,
                    placed.union(step_names(order.take(j)).to_set()),
                )
            &&& forall|m: int|
                0 <= m < stuck.len() ==> !siblings_placed(
                    #[trigger] stuck[m],
                    siblings,
                    placed.union(step_names(order).to_set()),
                )
            &&& order.len() + stuck.len() == rem.len()
        }),
    decreases rem.len(),
{
    let (done, left) = batch_pass(rem, siblings, placed);
    let (order, stuck) = batch_order(rem, siblings, placed);
    lemma_pass_len(rem, siblings, placed);
    if rem.len() == 0 || done.len() == 0 {
        assert(step_names(order) =~= Seq::empty());
        assert(placed.union(step_names(order).to_set()) =~= placed);
        assert forall|m: int| 0 <= m < stuck.len() implies !siblings_placed(
            #[trigger] stuck[m],
            siblings,
            placed.union(step_names(order).to_set()),
        ) by {
            lemma_pass_stuck(rem, siblings, placed, m);
        }
    } else {
        let placed1 = placed.union(step_names(done).to_set());
        let rest = batch_order(left, siblings, placed1).0;
        law_batch_order_respects_dependencies(left, siblings, placed1);
        lemma_pass_in_order(rem, siblings, placed);
        assert(order == done + rest);
        lemma_names_concat(done, rest);
        assert(placed1.union(step_names(rest).to_set()) =~= placed.union(
            step_names(order).to_set(),
        ));
        assert forall|j: int| 0 <= j < order.len() implies siblings_placed(
            #[trigger] order[j],
            siblings,
            placed.union(step_names(order.take(j)).to_set()),
        ) by {
            let n = done.len() as int;
            if j < n {
                assert(order[j] == done[j]);
                assert(order.take(j) =~= done.take(j));
            } else {
                assert(order[j] == rest[j - n]);
                assert(order.take(j) =~= done + rest.take(j - n));
                lemma_names_concat(done, rest.take(j - n));
                assert(placed1.union(step_names(rest.take(j - n)).to_set()) =~= placed.union(
                    step_names(order.take(j)).to_set(),
                ));
            }
        }
    }
}

proof fn lemma_pass_loses_none(
    rem: Seq<NodeSpec>,
    siblings: Set<Seq<char>>,
    placed: Set<Seq<char>>,
)
    ensures
        ({
            let (order, left) = batch_pass(rem, siblings, placed);
            order.to_multiset().add(left.to_multiset()) =~= rem.to_multiset()
        }),
    decreases rem.len(),
{
    broadcast use vstd::seq_lib::group_to_multiset_ensures;

    if rem.len() > 0 {
        lemma_pass_loses_none(rem.drop_last(), siblings, placed);
        assert(rem =~= rem.drop_last().push(rem.last()));
    }
}

/// Ordering a batch loses no step and makes none up: what is placed and what is stuck are
/// together the steps of the batch, each as often as it stands there.
pub proof fn law_batch_order_loses_no_step(
    rem: Seq<NodeSpec>,
    siblings: Set<Seq<char>>,
    placed: Set<Seq<char>>,
)
    ensures
        ({
            let (order, stuck) = batch_order(rem, siblings, placed);
            order.to_multiset().add(stuck.to_multiset()) =~= rem.to_multiset()
        }),
    decreases rem.len(),
{
    broadcast use vstd::seq_lib::group_to_multiset_ensures;

    let (done, left) = batch_pass(rem, siblings, placed);
    lemma_pass_len(rem, siblings, placed);
    if rem.len() > 0 && done.len() > 0 {
        let placed1 = placed.union(step_names(done).to_set());
        let (rest, stuck) = batch_order(left, siblings, placed1);
        law_batch_order_loses_no_step(left, siblings, placed1);
        lemma_pass_loses_none(rem, siblings, placed);
        vstd::seq_lib::lemma_multiset_commutative(done, rest);
    }
}

proof fn lemma_names_concat(a: Seq<NodeSpec>, b: Seq<NodeSpec>)
    ensures
        step_names(a + b).to_set() == step_names(a).to_set().union(step_names(b).to_set()),
{
    let x = step_names(a);
    let y = step_names(b);
    let z = step_names(a + b);
    assert(z =~= x + y);
    assert forall|k: Seq<char>| z.to_set().contains(k) <==> x.to_set().union(y.to_set()).contains(
        k,
    ) by {
        if z.contains(k) {
            let i = choose|i: int| 0 <= i < z.len() && z[i] == k;
            if i < x.len() {
                assert(x[i] == k);
            } else {
                assert(y[i - x.len()] == k);
            }
        }
        if x.contains(k) {
            let i = choose|i: int| 0 <= i < x.len() && x[i] == k;
            assert(z[i] == k);
        }
        if y.contains(k) {
            let i = choose|i: int| 0 <= i < y.len() && y[i] == k;
            assert(z[x.len() + i] == k);
        }
    }
    assert(z.to_set() =~= x.to_set().union(y.to_set()));
}

} // verus!
