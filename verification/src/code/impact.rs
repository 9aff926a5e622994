//! Impact analysis: given what changed in a file, what actually has to be re-checked.
//!
//! The memo store stops work being repeated; impact analysis stops work being done in the first
//! place.

use crate::adapter::Delta;
use crate::adapter::DeltaView;
use crate::adapter::ImpactSet;
use crate::adapter::ImpactView;
use crate::adapter::Outline;
use crate::adapter::OutlineView;
use crate::impact::reached;
use crate::impact::reached_set;
use crate::names::ascending;
use crate::names::lemma_listed;
use crate::names::listed;
use crate::names::mentions;
use crate::text::same;
use crate::text::texts;
use crate::wording::after_first;
use crate::wording::tail_after_first;
use vstd::prelude::*;

verus! {

/// Everything that refers to a changed entity, directly or through others. A removed entity is a
/// cause, but it no longer exists to be checked.
pub open spec fn impacted(o: OutlineView, d: DeltaView) -> Set<Seq<char>> {
    Set::new(
        |x: Seq<char>|
            reached_set(o.entities, d.touched()).contains(x) && !(d.removed.contains(x) && !o.has(x)),
    )
}

/// The tests among some entities, each by the name that a runner takes: the qualified name without
/// the kind.
pub open spec fn tests_among(o: OutlineView, ids: Seq<Seq<char>>) -> Seq<Seq<char>>
    decreases ids.len(),
{
    if ids.len() == 0 {
        Seq::empty()
    } else {
        let rest = tests_among(o, ids.drop_last());
        match o.entity(ids.last()) {
            Some(e) => if e.kind == "test"@ {
                rest.push(after_first(e.id, ':'))
            } else {
                rest
            },
            None => rest,
        }
    }
}

/// The impact of a change on a file.
pub open spec fn analysed(o: OutlineView, d: DeltaView) -> ImpactView {
    if d.touched().len() == 0 {
        ImpactView { entities: Seq::empty(), tests: Seq::empty(), units: Seq::empty() }
    } else {
        let hit = listed(impacted(o, d));
        ImpactView { entities: hit, tests: tests_among(o, hit), units: Seq::empty() }
    }
}

/// Everything that transitively refers to the changed entities, plus the tests among them.
pub fn analyse(outline: &Outline, delta: &Delta) -> (r: ImpactSet)
    ensures
        r@ == analysed(outline@, delta@),
{
    if delta.is_empty() {
        let r = ImpactSet::default();
        assert(r@ =~= analysed(outline@, delta@));
        return r;
    }
    let touched = delta.touched();
    let seen = reached(&outline.entities, &touched);
    let ghost all = texts(seen@);
    let ghost set = impacted(outline@, delta@);
    let mut kept: Vec<String> = Vec::new();
    let mut tests: Vec<String> = Vec::new();
    let mut i: usize = 0;
    assert(texts(kept@) =~= Seq::<Seq<char>>::empty());
    assert(texts(tests@) =~= Seq::<Seq<char>>::empty());
    while i < seen.len()
        invariant
            i <= seen@.len(),
            all == texts(seen@),
            ascending(all),
            ascending(texts(kept@)),
            forall|x: Seq<char>| #[trigger]
                texts(kept@).contains(x) <==> all.take(i as int).contains(x) && !(
                delta@.removed.contains(x) && !outline@.has(x)),
            forall|k: int|
                0 <= k < kept@.len() ==> all.take(i as int).contains(#[trigger] texts(kept@)[k]),
            texts(tests@) == tests_among(outline@, texts(kept@)),
        decreases seen@.len() - i,
    {
        let id = seen[i].as_str();
        let ghost sofar = texts(kept@);
        let ghost a = all.take(i as int);
        let ghost b = all.take(i + 1);
        assert(b =~= a.push(all[i as int]));
        assert(all[i as int] == seen@[i as int]@);
        let found = outline.get(id);
        let gone = mentions(&delta.removed, id) && found.is_none();
        if !gone {
            kept.push(seen[i].clone());
            proof {
                let k2 = texts(kept@);
                assert(k2 =~= sofar.push(all[i as int]));
                assert forall|m: int, n: int| 0 <= m < n < k2.len() implies crate::names::before(
                    #[trigger] k2[m],
                    #[trigger] k2[n],
                ) by {
                    if n == sofar.len() {
                        assert(a.contains(texts(kept@)[m])) by {
                            assert(a.contains(sofar[m]));
                        }
                        let q = choose|q: int| 0 <= q < a.len() && a[q] == k2[m];
                        assert(all[q] == k2[m]);
                    } else {
                        assert(k2[m] == sofar[m] && k2[n] == sofar[n]);
                    }
                }
                assert(k2.drop_last() =~= sofar);
                assert(k2.last() == all[i as int]);
            }
            let ghost listed_tests = texts(tests@);
            match found {
                Some(e) => {
                    if same(e.kind.as_str(), "test") {
                        let t = tail_after_first(e.id.as_str(), ':');
                        tests.push(t);
                        assert(texts(tests@) =~= listed_tests.push(t@));
                    }
                },
                None => {},
            }
        }
        proof {
            let k2 = texts(kept@);
            assert forall|x: Seq<char>| #[trigger]
                k2.contains(x) <==> b.contains(x) && !(delta@.removed.contains(x)
                && !outline@.has(x)) by {
                lemma_push_contains(a, all[i as int], x);
                lemma_push_contains(sofar, all[i as int], x);
                assert(sofar.contains(x) <==> a.contains(x) && !(delta@.removed.contains(x)
                    && !outline@.has(x)));
            }
            assert forall|k: int| 0 <= k < kept@.len() implies b.contains(#[trigger] k2[k]) by {
                assert(k2.contains(k2[k]));
            }
        }
        i += 1;
    }
    proof {
        assert(all.take(i as int) =~= all);
        assert forall|x: Seq<char>| #[trigger] texts(kept@).contains(x) <==> set.contains(x) by {}
        lemma_listed(texts(kept@), set);
    }
    let r = ImpactSet { entities: kept, tests, units: Vec::new() };
    assert(r@ =~= analysed(outline@, delta@));
    r
}

pub(crate) proof fn lemma_push_contains(s: Seq<Seq<char>>, y: Seq<char>, x: Seq<char>)
    ensures
        s.push(y).contains(x) <==> s.contains(x) || x == y,
{
    let t = s.push(y);
    if s.contains(x) {
        let k = choose|k: int| 0 <= k < s.len() && s[k] == x;
        assert(t[k] == x);
    }
    assert(t[s.len() as int] == y);
    if t.contains(x) && x != y {
        let k = choose|k: int| 0 <= k < t.len() && t[k] == x;
        assert(s[k] == x);
    }
}

/// An empty change impacts nothing.
pub proof fn law_an_empty_delta_impacts_nothing(o: OutlineView, d: DeltaView)
    requires
        d.touched().len() == 0,
    ensures
        analysed(o, d).entities.len() == 0,
        analysed(o, d).tests.len() == 0,
{
}

} // verus!
