//! What a change reaches, over the references between entities.
//!
//! The walk is over reverse reference edges: if a test calls a helper that calls the changed
//! function, the test is reached. It is conservative on purpose: the cost of one extra check is
//! seconds and the cost of a missed one is a false green.

use crate::adapter::entity_views;
use crate::adapter::Entity;
use crate::adapter::EntityView;
use crate::maps::NameMap;
use crate::names::ascending;
use crate::names::lemma_listed;
use crate::names::listed;
use crate::reach::along;
use crate::reach::closure;
use crate::reach::edge;
use crate::reach::lemma_reach_least;
use crate::reach::lemma_reach_root;
use crate::reach::lemma_reach_step;
use crate::reach::reachable;
use crate::text::copy_strings;
use crate::text::texts;
use vstd::prelude::*;

verus! {

/// Is there an entity called `y` that refers to `x`?
pub open spec fn refers(es: Seq<EntityView>, x: Seq<char>, y: Seq<char>) -> bool {
    exists|k: int| 0 <= k < es.len() && (#[trigger] es[k]).id == y && es[k].refers_to(x)
}

/// From what is referred to, to what refers to it.
pub open spec fn users(es: Seq<EntityView>) -> spec_fn(Seq<char>, Seq<char>) -> bool {
    |x: Seq<char>, y: Seq<char>| refers(es, x, y)
}

/// Everything that refers to something touched, directly or through others, and what was touched.
pub open spec fn reached_set(es: Seq<EntityView>, touched: Seq<Seq<char>>) -> Set<Seq<char>> {
    Set::new(|x: Seq<char>| reachable(users(es), touched, x))
}

/// Everything that was touched is reached.
pub proof fn law_what_was_touched_is_reached(
    es: Seq<EntityView>,
    touched: Seq<Seq<char>>,
    x: Seq<char>,
)
    requires
        touched.contains(x),
    ensures
        reached_set(es, touched).contains(x),
{
    let i = choose|i: int| 0 <= i < touched.len() && touched[i] == x;
    lemma_reach_root(users(es), touched, i);
}

/// Whatever refers to something reached is reached.
pub proof fn law_users_of_the_reached_are_reached(
    es: Seq<EntityView>,
    touched: Seq<Seq<char>>,
    k: int,
    x: Seq<char>,
)
    requires
        0 <= k < es.len(),
        es[k].refers_to(x),
        reached_set(es, touched).contains(x),
    ensures
        reached_set(es, touched).contains(es[k].id),
{
    assert(refers(es, x, es[k].id));
    lemma_reach_step(users(es), touched, x, es[k].id);
}

/// Nothing is reached without a reason: any list that holds what was touched, and the users of
/// whatever it holds, holds all that is reached.
pub proof fn law_nothing_else_is_reached(
    es: Seq<EntityView>,
    touched: Seq<Seq<char>>,
    s: Seq<Seq<char>>,
    x: Seq<char>,
)
    requires
        forall|i: int| 0 <= i < touched.len() ==> s.contains(#[trigger] touched[i]),
        forall|a: Seq<char>, b: Seq<char>|
            s.contains(a) && #[trigger] refers(es, a, b) ==> s.contains(b),
        reached_set(es, touched).contains(x),
    ensures
        s.contains(x),
{
    assert forall|a: Seq<char>, b: Seq<char>| s.contains(a) && #[trigger]
        users(es)(a, b) implies s.contains(b) by {
        assert(refers(es, a, b));
    }
    lemma_reach_least(users(es), touched, s, x);
}

/// One more edge in a map of edges.
pub fn add_edge(edges: &mut NameMap<Vec<String>>, from: &str, to: &str)
    requires
        old(edges).wf(),
    ensures
        final(edges).wf(),
        forall|x: Seq<char>, y: Seq<char>| #[trigger]
            edge(final(edges)@, x, y) <==> edge(old(edges)@, x, y) || (x == from@ && y == to@),
{
    let ghost before = edges@;
    let mut list: Vec<String> = match edges.get(from) {
        Some(v) => copy_strings(v),
        None => Vec::new(),
    };
    let ghost had = list@;
    list.push(to.to_owned());
    let ghost now = list@;
    edges.insert(from.to_owned(), list);
    proof {
        assert(texts(now) =~= texts(had).push(to@));
        assert forall|x: Seq<char>, y: Seq<char>| #[trigger]
            edge(edges@, x, y) <==> edge(before, x, y) || (x == from@ && y == to@) by {
            if x == from@ {
                if texts(had).contains(y) {
                    let k = choose|k: int| 0 <= k < texts(had).len() && texts(had)[k] == y;
                    assert(texts(now)[k] == y);
                }
                assert(texts(now)[had.len() as int] == to@);
                if texts(now).contains(y) && y != to@ {
                    let k = choose|k: int| 0 <= k < texts(now).len() && texts(now)[k] == y;
                    assert(texts(had)[k] == y);
                }
                if !before.contains_key(from@) {
                    assert(texts(had) =~= Seq::<Seq<char>>::empty());
                }
            }
        }
    }
}

/// The reverse of the references between entities.
pub fn reverse_edges(es: &Vec<Entity>) -> (r: NameMap<Vec<String>>)
    ensures
        r.wf(),
        along(r@) == users(entity_views(es@)),
{
    let ghost all = entity_views(es@);
    let mut edges: NameMap<Vec<String>> = NameMap::empty();
    let mut i: usize = 0;
    while i < es.len()
        invariant
            i <= es@.len(),
            all == entity_views(es@),
            edges.wf(),
            forall|x: Seq<char>, y: Seq<char>| #[trigger]
                edge(edges@, x, y) <==> refers(all.take(i as int), x, y),
        decreases es@.len() - i,
    {
        let e = &es[i];
        let ghost upto = all.take(i as int);
        let ghost rs = texts(e.refs@);
        assert(all[i as int] == e@);
        let mut j: usize = 0;
        while j < e.refs.len()
            invariant
                j <= e.refs@.len(),
                edges.wf(),
                rs == texts(e.refs@),
                forall|x: Seq<char>, y: Seq<char>| #[trigger]
                    edge(edges@, x, y) <==> refers(upto, x, y) || (y == e.id@ && rs.take(
                        j as int,
                    ).contains(x)),
            decreases e.refs@.len() - j,
        {
            let ghost was = edges@;
            add_edge(&mut edges, e.refs[j].as_str(), e.id.as_str());
            proof {
                let a = rs.take(j as int);
                let b = rs.take(j + 1);
                assert(b =~= a.push(rs[j as int]));
                assert forall|x: Seq<char>, y: Seq<char>| #[trigger]
                    edge(edges@, x, y) <==> refers(upto, x, y) || (y == e.id@ && b.contains(
                    x,
                )) by {
                    assert(edge(was, x, y) <==> refers(upto, x, y) || (y == e.id@ && a.contains(x)));
                    if a.contains(x) {
                        let k = choose|k: int| 0 <= k < a.len() && a[k] == x;
                        assert(b[k] == x);
                    }
                    assert(b[j as int] == rs[j as int]);
                    if b.contains(x) && !a.contains(x) {
                        let k = choose|k: int| 0 <= k < b.len() && b[k] == x;
                        if k < a.len() {
                            assert(a[k] == x);
                        }
                    }
                }
            }
            j += 1;
        }
        proof {
            assert(rs.take(j as int) =~= rs);
            let now = all.take(i + 1);
            assert forall|x: Seq<char>, y: Seq<char>| #[trigger]
                edge(edges@, x, y) <==> refers(now, x, y) by {
                if refers(upto, x, y) {
                    let k = choose|k: int|
                        0 <= k < upto.len() && (#[trigger] upto[k]).id == y && upto[k].refers_to(x);
                    assert(now[k] == upto[k]);
                }
                if y == e.id@ && rs.contains(x) {
                    assert(now[i as int].id == y && now[i as int].refers_to(x));
                }
                if refers(now, x, y) {
                    let k = choose|k: int|
                        0 <= k < now.len() && (#[trigger] now[k]).id == y && now[k].refers_to(x);
                    if k < i {
                        assert(upto[k] == now[k]);
                    }
                }
            }
        }
        i += 1;
    }
    proof {
        assert(all.take(i as int) =~= all);
        let f = along(edges@);
        let g = users(all);
        assert forall|x: Seq<char>, y: Seq<char>| #[trigger] f(x, y) == g(x, y) by {
            assert(edge(edges@, x, y) <==> refers(all, x, y));
        }
        assert(f =~= g);
    }
    edges
}

/// Everything that a change reaches, in ascending order.
pub fn reached(es: &Vec<Entity>, touched: &Vec<String>) -> (r: Vec<String>)
    ensures
        texts(r@) == listed(reached_set(entity_views(es@), texts(touched@))),
        ascending(texts(r@)),
        forall|x: Seq<char>| #[trigger]
            texts(r@).contains(x) <==> reached_set(entity_views(es@), texts(touched@)).contains(x),
{
    let edges = reverse_edges(es);
    let out = closure(&edges, touched);
    proof {
        let s = reached_set(entity_views(es@), texts(touched@));
        assert forall|x: Seq<char>| #[trigger] texts(out@).contains(x) <==> s.contains(x) by {}
        lemma_listed(texts(out@), s);
    }
    out
}

} // verus!
