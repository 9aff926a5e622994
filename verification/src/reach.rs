//! What can be reached along the edges of a graph of names.

use crate::maps::NameMap;
use crate::names::ascending;
use crate::names::has;
use crate::names::insert;
use crate::names::lemma_before_asymmetric;
use crate::text::copy_strings;
use crate::text::texts;
use vstd::prelude::*;

verus! {

/// Is there an edge from `a` to `b`?
pub open spec fn edge(edges: Map<Seq<char>, Vec<String>>, a: Seq<char>, b: Seq<char>) -> bool {
    edges.contains_key(a) && texts(edges[a]@).contains(b)
}

/// The edges of a map as a relation.
pub open spec fn along(edges: Map<Seq<char>, Vec<String>>) -> spec_fn(Seq<char>, Seq<char>) -> bool {
    |a: Seq<char>, b: Seq<char>| edge(edges, a, b)
}

/// Does a walk of `n` edges lead from `a` to `b`?
pub open spec fn walk<T>(
    e: spec_fn(T, T) -> bool,
    a: T,
    b: T,
    n: nat,
) -> bool
    decreases n,
{
    if n == 0 {
        a == b
    } else {
        exists|c: T| walk(e, a, c, (n - 1) as nat) && #[trigger] e(c, b)
    }
}

/// Does some walk lead from one of the roots to `x`? A root is reached by the walk of no edges.
pub open spec fn reachable<T>(
    e: spec_fn(T, T) -> bool,
    roots: Seq<T>,
    x: T,
) -> bool {
    exists|i: int, n: nat| 0 <= i < roots.len() && #[trigger] walk(e, roots[i], x, n)
}

/// Reaching is closed under taking one more edge.
pub proof fn lemma_reach_step<T>(
    e: spec_fn(T, T) -> bool,
    roots: Seq<T>,
    x: T,
    y: T,
)
    requires
        reachable(e, roots, x),
        e(x, y),
    ensures
        reachable(e, roots, y),
{
    let (i, n) = choose|i: int, n: nat|
        0 <= i < roots.len() && #[trigger] walk(e, roots[i], x, n);
    assert(walk(e, roots[i], y, n + 1));
}

/// Every root is reached.
pub proof fn lemma_reach_root<T>(
    e: spec_fn(T, T) -> bool,
    roots: Seq<T>,
    i: int,
)
    requires
        0 <= i < roots.len(),
    ensures
        reachable(e, roots, roots[i]),
{
    assert(walk(e, roots[i], roots[i], 0));
}

/// Whatever contains the roots and is closed under edges contains everything reachable.
pub proof fn lemma_reach_least<T>(
    e: spec_fn(T, T) -> bool,
    roots: Seq<T>,
    set: Seq<T>,
    x: T,
)
    requires
        forall|i: int| 0 <= i < roots.len() ==> set.contains(#[trigger] roots[i]),
        forall|a: T, b: T|
            set.contains(a) && #[trigger] e(a, b) ==> set.contains(b),
        reachable(e, roots, x),
    ensures
        set.contains(x),
{
    let (i, n) = choose|i: int, n: nat|
        0 <= i < roots.len() && #[trigger] walk(e, roots[i], x, n);
    lemma_walk_stays(e, roots[i], set, x, n);
}

proof fn lemma_walk_stays<T>(
    e: spec_fn(T, T) -> bool,
    a: T,
    set: Seq<T>,
    x: T,
    n: nat,
)
    requires
        set.contains(a),
        forall|a: T, b: T|
            set.contains(a) && #[trigger] e(a, b) ==> set.contains(b),
        walk(e, a, x, n),
    ensures
        set.contains(x),
    decreases n,
{
    if n > 0 {
        let c = choose|c: T|
            walk(e, a, c, (n - 1) as nat) && #[trigger] e(c, x);
        lemma_walk_stays(e, a, set, c, (n - 1) as nat);
    }
}

/// Does a walk along the edges lead from `k` back to `k`?
pub open spec fn on_cycle<T>(e: spec_fn(T, T) -> bool, k: T) -> bool {
    exists|n: nat| n > 0 && #[trigger] walk(e, k, k, n)
}

/// Does an edge lead to the `i`th value from one of the values?
pub open spec fn is_led_to<T>(e: spec_fn(T, T) -> bool, s: Seq<T>, i: int) -> bool {
    exists|j: int| 0 <= j < s.len() && #[trigger] e(s[j], s[i])
}

spec fn one_before<T>(e: spec_fn(T, T) -> bool, s: Seq<T>, i: int) -> int {
    choose|j: int| 0 <= j < s.len() && #[trigger] e(s[j], s[i])
}

spec fn so_many_before<T>(e: spec_fn(T, T) -> bool, s: Seq<T>, n: nat) -> int
    decreases n,
{
    if n == 0 {
        0
    } else {
        one_before(e, s, so_many_before(e, s, (n - 1) as nat))
    }
}

proof fn lemma_walk_join<T>(e: spec_fn(T, T) -> bool, a: T, b: T, c: T, n: nat)
    requires
        e(a, b),
        walk(e, b, c, n),
    ensures
        walk(e, a, c, n + 1),
    decreases n,
{
    if n == 0 {
        assert(walk(e, a, a, 0));
    } else {
        let d = choose|d: T| walk(e, b, d, (n - 1) as nat) && #[trigger] e(d, c);
        lemma_walk_join(e, a, b, d, (n - 1) as nat);
    }
}

proof fn lemma_back<T>(e: spec_fn(T, T) -> bool, s: Seq<T>, m: nat, n: nat)
    requires
        s.len() > 0,
        forall|i: int| 0 <= i < s.len() ==> #[trigger] is_led_to(e, s, i),
        m <= n,
    ensures
        0 <= so_many_before(e, s, m) < s.len(),
        0 <= so_many_before(e, s, n) < s.len(),
        walk(e, s[so_many_before(e, s, n)], s[so_many_before(e, s, m)], (n - m) as nat),
    decreases n,
{
    if n > 0 {
        let i = so_many_before(e, s, (n - 1) as nat);
        if m < n {
            lemma_back(e, s, m, (n - 1) as nat);
        } else {
            lemma_back(e, s, (n - 1) as nat, (n - 1) as nat);
        }
        assert(is_led_to(e, s, i));
        let j = one_before(e, s, i);
        assert(e(s[j], s[i]));
        if m < n {
            lemma_walk_join(
                e,
                s[j],
                s[i],
                s[so_many_before(e, s, m)],
                (n - 1 - m) as nat,
            );
        }
    }
}

/// Where each of some values has an edge from one of them, one of them lies on a cycle.
pub proof fn lemma_some_cycle<T>(e: spec_fn(T, T) -> bool, s: Seq<T>) -> (k: int)
    requires
        s.len() > 0,
        forall|i: int| 0 <= i < s.len() ==> #[trigger] is_led_to(e, s, i),
    ensures
        0 <= k < s.len(),
        on_cycle(e, s[k]),
{
    let back = Seq::new(s.len() + 1, |n: int| so_many_before(e, s, n as nat));
    let all = Seq::new(s.len(), |i: int| i);
    assert forall|n: int| 0 <= n < back.len() implies all.contains(#[trigger] back[n]) by {
        lemma_back(e, s, n as nat, n as nat);
        assert(all[back[n]] == back[n]);
    }
    if back.no_duplicates() {
        lemma_distinct_len(back, all);
    }
    let (a, b) = choose|a: int, b: int|
        0 <= a < back.len() && 0 <= b < back.len() && a != b && back[a] == back[b];
    let (m, n) = if a < b {
        (a, b)
    } else {
        (b, a)
    };
    lemma_back(e, s, m as nat, n as nat);
    assert(walk(e, s[back[n]], s[back[n]], (n - m) as nat));
    back[n]
}

/// All the names that edges lead to.
pub open spec fn targets(e: Seq<(String, Vec<String>)>) -> Seq<Seq<char>>
    decreases e.len(),
{
    if e.len() == 0 {
        Seq::empty()
    } else {
        targets(e.drop_last()) + texts(e.last().1@)
    }
}

/// What an edge leads to is among the targets.
pub proof fn lemma_targets(e: Seq<(String, Vec<String>)>, i: int, x: Seq<char>)
    requires
        0 <= i < e.len(),
        texts(e[i].1@).contains(x),
    ensures
        targets(e).contains(x),
    decreases e.len(),
{
    let before = targets(e.drop_last());
    let last = texts(e.last().1@);
    if i == e.len() - 1 {
        let j = choose|j: int| 0 <= j < last.len() && last[j] == x;
        assert((before + last)[before.len() + j] == x);
    } else {
        lemma_targets(e.drop_last(), i, x);
        let j = choose|j: int| 0 <= j < before.len() && before[j] == x;
        assert((before + last)[j] == x);
    }
}

/// A sequence without repetition that is drawn from another is not longer than it.
pub proof fn lemma_distinct_len<T>(a: Seq<T>, universe: Seq<T>)
    requires
        a.no_duplicates(),
        forall|i: int| 0 <= i < a.len() ==> universe.contains(#[trigger] a[i]),
    ensures
        a.len() <= universe.len(),
{
    a.unique_seq_to_set();
    universe.lemma_cardinality_of_set();
    assert(a.to_set().subset_of(universe.to_set()));
    vstd::set_lib::lemma_len_subset(a.to_set(), universe.to_set());
}

/// An ascending sequence does not repeat itself.
pub proof fn lemma_ascending_distinct(a: Seq<Seq<char>>)
    requires
        ascending(a),
    ensures
        a.no_duplicates(),
{
    assert(a.no_duplicates()) by {
        assert forall|i: int, j: int| 0 <= i < a.len() && 0 <= j < a.len() && i != j implies a[i]
            != a[j] by {
            if i < j {
                lemma_before_asymmetric(a[i], a[j]);
            } else {
                lemma_before_asymmetric(a[j], a[i]);
            }
        }
    }
}

/// Everything reachable from the roots, the roots among it, in ascending order.
pub fn closure(edges: &NameMap<Vec<String>>, roots: &Vec<String>) -> (out: Vec<String>)
    requires
        edges.wf(),
    ensures
        ascending(texts(out@)),
        forall|x: Seq<char>| #[trigger]
            texts(out@).contains(x) <==> reachable(along(edges@), texts(roots@), x),
{
    let ghost rs = texts(roots@);
    let ghost universe = rs + targets(edges.entries@);
    let mut queue: Vec<String> = copy_strings(roots);
    let mut out: Vec<String> = Vec::new();
    let mut head: usize = 0;
    proof {
        assert forall|i: int| 0 <= i < rs.len() implies reachable(along(edges@), rs, #[trigger] rs[i])
            && universe.contains(rs[i]) by {
            lemma_reach_root(along(edges@), rs, i);
            assert(universe[i] == rs[i]);
        }
    }
    while head < queue.len()
        invariant
            edges.wf(),
            rs == texts(roots@),
            universe == rs + targets(edges.entries@),
            head <= queue@.len(),
            ascending(texts(out@)),
            forall|i: int|
                0 <= i < queue@.len() ==> reachable(along(edges@), rs, #[trigger] texts(queue@)[i]),
            forall|i: int| 0 <= i < queue@.len() ==> universe.contains(#[trigger] texts(queue@)[i]),
            forall|i: int| 0 <= i < rs.len() ==> texts(queue@).contains(#[trigger] rs[i]),
            forall|i: int| 0 <= i < head ==> texts(out@).contains(#[trigger] texts(queue@)[i]),
            forall|x: Seq<char>| #[trigger]
                texts(out@).contains(x) ==> reachable(along(edges@), rs, x) && universe.contains(x),
            forall|a: Seq<char>, b: Seq<char>|
                texts(out@).contains(a) && #[trigger] along(edges@)(a, b) ==> texts(
                    queue@,
                ).contains(b),
            texts(out@).len() <= universe.len(),
        decreases universe.len() - texts(out@).len(), queue@.len() - head,
    {
        let ghost q0 = texts(queue@);
        let ghost o0 = texts(out@);
        let k = queue[head].clone();
        let ghost kk = k@;
        assert(kk == q0[head as int]);
        let name = k.clone();
        let fresh = insert(&mut out, k);
        if fresh {
            match edges.get(name.as_str()) {
                Some(next) => {
                    let mut j: usize = 0;
                    let ghost ns = texts(next@);
                    while j < next.len()
                        invariant
                            j <= next@.len(),
                            ns == texts(next@),
                            texts(queue@) == q0 + ns.take(j as int),
                        decreases next@.len() - j,
                    {
                        let ghost before = texts(queue@);
                        let c = next[j].clone();
                        queue.push(c);
                        assert(texts(queue@) =~= before.push(c@));
                        assert(ns.take(j + 1) =~= ns.take(j as int).push(ns[j as int]));
                        assert(texts(queue@) =~= q0 + ns.take(j + 1));
                        j += 1;
                    }
                    assert(ns.take(ns.len() as int) =~= ns);
                    proof {
                        assert(edges@.contains_key(kk) && texts(edges@[kk]@) == ns);
                        assert forall|i: int| 0 <= i < ns.len() implies reachable(
                            along(edges@),
                            rs,
                            #[trigger] ns[i],
                        ) && universe.contains(ns[i]) by {
                            assert(ns.contains(ns[i]));
                            lemma_reach_step(along(edges@), rs, kk, ns[i]);
                            let p = edges.names().index_of(kk);
                            assert(edges.names().contains(kk));
                            edges.lemma_at(p);
                            lemma_targets(edges.entries@, p, ns[i]);
                            let ts = targets(edges.entries@);
                            let m = choose|m: int| 0 <= m < ts.len() && ts[m] == ns[i];
                            assert(universe[rs.len() + m] == ns[i]);
                        }
                    }
                },
                None => {
                    assert(texts(queue@) =~= q0 + Seq::<Seq<char>>::empty());
                },
            }
        } else {
            assert(texts(queue@) =~= q0 + Seq::<Seq<char>>::empty());
        }
        head += 1;
        proof {
            let q = texts(queue@);
            let o = texts(out@);
            let added = q.skip(q0.len() as int);
            assert(q =~= q0 + added);
            assert forall|i: int| 0 <= i < rs.len() implies q.contains(#[trigger] rs[i]) by {
                let m = choose|m: int| 0 <= m < q0.len() && q0[m] == rs[i];
                assert(q[m] == rs[i]);
            }
            assert forall|i: int| 0 <= i < head implies o.contains(#[trigger] q[i]) by {
                assert(q[i] == q0[i]);
                if i < head - 1 {
                    assert(o0.contains(q0[i]));
                }
                assert(o.contains(kk));
            }
            assert forall|a: Seq<char>, b: Seq<char>|
                o.contains(a) && #[trigger] along(edges@)(a, b) implies q.contains(b) by {
                if o0.contains(a) {
                    assert(q0.contains(b));
                    let m = choose|m: int| 0 <= m < q0.len() && q0[m] == b;
                    assert(q[m] == b);
                } else {
                    assert(a == kk);
                    let ns = texts(edges@[kk]@);
                    let m = choose|m: int| 0 <= m < ns.len() && ns[m] == b;
                    assert(q[q0.len() + m] == b);
                }
            }
            assert forall|i: int| 0 <= i < o.len() implies universe.contains(#[trigger] o[i]) by {
                assert(o.contains(o[i]));
            }
            lemma_ascending_distinct(o);
            lemma_distinct_len(o, universe);
        }
    }
    proof {
        let o = texts(out@);
        let q = texts(queue@);
        assert forall|x: Seq<char>| q.contains(x) implies #[trigger] o.contains(x) by {
            let m = choose|m: int| 0 <= m < q.len() && q[m] == x;
        }
        assert forall|x: Seq<char>| reachable(along(edges@), rs, x) implies #[trigger] o.contains(x) by {
            lemma_reach_least(along(edges@), rs, o, x);
        }
    }
    out
}

/// Does a walk along the edges lead from `k` back to `k`?
pub fn leads_back(edges: &NameMap<Vec<String>>, k: &str) -> (r: bool)
    requires
        edges.wf(),
    ensures
        r == on_cycle(along(edges@), k@),
{
    let next = match edges.get(k) {
        Some(v) => copy_strings(v),
        None => {
            proof {
                if on_cycle(along(edges@), k@) {
                    let n = choose|n: nat| n > 0 && #[trigger] walk(along(edges@), k@, k@, n);
                    lemma_first_step(along(edges@), k@, k@, n);
                }
            }
            return false;
        },
    };
    let ghost roots = texts(next@);
    let all = closure(edges, &next);
    proof {
        let e = along(edges@);
        if on_cycle(e, k@) {
            let n = choose|n: nat| n > 0 && #[trigger] walk(e, k@, k@, n);
            let c = lemma_first_step(e, k@, k@, n);
            assert(roots.contains(c));
            let i = choose|i: int| 0 <= i < roots.len() && roots[i] == c;
            assert(walk(e, roots[i], k@, (n - 1) as nat));
            assert(reachable(e, roots, k@));
        }
        if reachable(e, roots, k@) {
            let (i, n) = choose|i: int, n: nat|
                0 <= i < roots.len() && #[trigger] walk(e, roots[i], k@, n);
            assert(roots.contains(roots[i]));
            assert(e(k@, roots[i]));
            lemma_walk_join(e, k@, roots[i], k@, n);
            assert(walk(e, k@, k@, n + 1));
        }
    }
    has(&all, k)
}

proof fn lemma_first_step<T>(e: spec_fn(T, T) -> bool, a: T, b: T, n: nat) -> (c: T)
    requires
        n > 0,
        walk(e, a, b, n),
    ensures
        e(a, c),
        walk(e, c, b, (n - 1) as nat),
    decreases n,
{
    let d = choose|d: T| walk(e, a, d, (n - 1) as nat) && #[trigger] e(d, b);
    if n == 1 {
        b
    } else {
        let c = lemma_first_step(e, a, d, (n - 1) as nat);
        assert(walk(e, c, b, (n - 1) as nat));
        c
    }
}

} // verus!
