//! What each op does to a deck: which slides it changes, and which it leaves alone.

use crate::adapter::Fault;
use crate::adapter::Op;
use crate::slides::deck::element_named;
use crate::slides::deck::expected;
use crate::slides::deck::kind_count;
use crate::slides::deck::nth_of;
use crate::slides::deck::redone;
use crate::slides::deck::after_op;
use crate::slides::deck::after_ops;
use crate::slides::deck::slide_at;
use crate::slides::deck::DeckView;
use crate::slides::deck::ElementView;
use crate::slides::deck::SlideView;
use vstd::prelude::*;

verus! {

/// Is the slide at a place the first with an id?
pub open spec fn is_slide(s: Seq<SlideView>, id: Seq<char>, i: int) -> bool {
    &&& 0 <= i < s.len()
    &&& s[i].id == id
    &&& forall|k: int| 0 <= k < i ==> (#[trigger] s[k]).id != id
}

/// Has no slide an id?
pub open spec fn is_free(s: Seq<SlideView>, id: Seq<char>) -> bool {
    forall|k: int| 0 <= k < s.len() ==> (#[trigger] s[k]).id != id
}

/// The places of the elements of a kind, in order.
pub open spec fn are_places(e: Seq<ElementView>, kind: Seq<char>, at: Seq<int>) -> bool {
    &&& forall|j: int|
        0 <= j < at.len() ==> 0 <= #[trigger] at[j] < e.len() && e[at[j]].kind == kind
    &&& forall|j: int, k: int| 0 <= j < k < at.len() ==> #[trigger] at[j] < #[trigger] at[k]
    &&& forall|k: int| 0 <= k < e.len() && (#[trigger] e[k]).kind == kind ==> at.contains(k)
}

proof fn lemma_found(s: Seq<SlideView>, id: Seq<char>, i: int)
    requires
        is_slide(s, id, i),
    ensures
        slide_at(s, id) == i,
    decreases i,
{
    if i > 0 {
        let t = s.skip(1);
        assert(s[0].id != id);
        assert forall|k: int| 0 <= k < i - 1 implies (#[trigger] t[k]).id != id by {
            assert(t[k] == s[k + 1]);
        }
        lemma_found(t, id, i - 1);
    }
}

proof fn lemma_free(s: Seq<SlideView>, id: Seq<char>)
    requires
        is_free(s, id),
    ensures
        slide_at(s, id) == s.len(),
    decreases s.len(),
{
    if s.len() > 0 {
        let t = s.skip(1);
        assert(s[0].id != id);
        assert forall|k: int| 0 <= k < t.len() implies (#[trigger] t[k]).id != id by {
            assert(t[k] == s[k + 1]);
        }
        lemma_free(t, id);
    }
}

proof fn lemma_nth(e: Seq<ElementView>, kind: Seq<char>, at: Seq<int>, n: nat)
    requires
        are_places(e, kind, at),
    ensures
        kind_count(e, kind) == at.len(),
        1 <= n <= at.len() ==> nth_of(e, kind, n) == at[n - 1],
        n < 1 || n > at.len() ==> nth_of(e, kind, n) == e.len(),
    decreases e.len(),
{
    if e.len() == 0 {
        assert(at.len() == 0) by {
            if at.len() > 0 {
                assert(0 <= at[0] < e.len());
            }
        }
    } else {
        let d = e.drop_last();
        let m = e.len() - 1;
        if e[m].kind == kind {
            let j = choose|j: int| 0 <= j < at.len() && at[j] == m;
            if j < at.len() - 1 {
                assert(at[j] < at[at.len() - 1]);
            }
            let b = at.drop_last();
            assert forall|x: int| 0 <= x < b.len() implies 0 <= #[trigger] b[x] < d.len()
                && d[b[x]].kind == kind by {
                assert(b[x] == at[x]);
                assert(at[x] < at[at.len() - 1]);
            }
            assert forall|x: int, y: int| 0 <= x < y < b.len() implies #[trigger] b[x]
                < #[trigger] b[y] by {
                assert(at[x] < at[y]);
            }
            assert forall|k: int| 0 <= k < d.len() && (#[trigger] d[k]).kind == kind implies b.contains(
                k,
            ) by {
                assert(e[k].kind == kind);
                let x = choose|x: int| 0 <= x < at.len() && at[x] == k;
                assert(b[x] == k);
            }
            lemma_nth(d, kind, b, n);
        } else {
            assert forall|x: int| 0 <= x < at.len() implies 0 <= #[trigger] at[x] < d.len()
                && d[at[x]].kind == kind by {
                assert(e[at[x]].kind == kind);
            }
            assert forall|k: int| 0 <= k < d.len() && (#[trigger] d[k]).kind == kind implies at.contains(
                k,
            ) by {
                assert(e[k].kind == kind);
            }
            lemma_nth(d, kind, at, n);
        }
    }
}

proof fn lemma_kinds_differ()
    ensures
        ({
            let (a, b, c) = ("add_slide"@, "replace_element"@, "reorder"@);
            let (d, e, f) = ("apply_layout"@, "bind_chart_data"@, "delete_slide"@);
            &&& a != b && a != c && a != d && a != e && a != f
            &&& b != c && b != d && b != e && b != f
            &&& c != d && c != e && c != f
            &&& d != e && d != f
            &&& e != f
        }),
{
    reveal_strlit("add_slide");
    reveal_strlit("replace_element");
    reveal_strlit("reorder");
    reveal_strlit("apply_layout");
    reveal_strlit("bind_chart_data");
    reveal_strlit("delete_slide");
    assert("add_slide"@.len() == 9);
    assert("replace_element"@.len() == 15 && "replace_element"@[0] == 'r');
    assert("reorder"@.len() == 7);
    assert("apply_layout"@.len() == 12 && "apply_layout"@[0] == 'a');
    assert("bind_chart_data"@.len() == 15 && "bind_chart_data"@[0] == 'b');
    assert("delete_slide"@.len() == 12 && "delete_slide"@[0] == 'd');
}

proof fn lemma_one_op(op: Op, d: DeckView)
    ensures
        redone(seq![op], d) == (match after_op(&op, d.slides) {
            Ok(slides) => Ok::<DeckView, Fault>(DeckView { theme: d.theme, slides }),
            Err(e) => Err(e),
        }),
{
    let ops = seq![op];
    assert(ops.drop_last() =~= Seq::<Op>::empty());
    assert(after_ops(ops.drop_last(), d.slides) == Ok::<Seq<SlideView>, Fault>(d.slides));
}

/// A new slide stands directly behind the slide that it is put after, and every other slide is as
/// it was, in the same order. It opens with its title, and its body where one is given.
pub proof fn law_a_new_slide_follows_the_one_it_is_put_after(d: DeckView, op: Op, i: int)
    requires
        op.text("op"@) == Some("add_slide"@),
        op.text("id"@) is Some,
        op.text("layout"@) is Some,
        op.text("title"@) is Some,
        op.text("after"@) is Some,
        op.text("after"@)->0 != "start"@,
        is_free(d.slides, op.text("id"@)->0),
        expected(op.text("layout"@)->0) is Some,
        is_slide(d.slides, op.text("after"@)->0, i),
    ensures
        redone(seq![op], d) matches Ok(r) && {
            &&& r.theme == d.theme
            &&& r.slides.len() == d.slides.len() + 1
            &&& r.slides.take(i + 1) == d.slides.take(i + 1)
            &&& r.slides.skip(i + 2) == d.slides.skip(i + 1)
            &&& r.slides[i + 1].id == op.text("id"@)->0
            &&& r.slides[i + 1].layout == op.text("layout"@)->0
            &&& r.slides[i + 1].notes.len() == 0
            &&& r.slides[i + 1].elements[0] == (ElementView {
                kind: "title"@,
                text: op.text("title"@)->0,
                source: None,
            })
            &&& match op.text("body"@) {
                Some(b) => r.slides[i + 1].elements.len() == 2 && r.slides[i + 1].elements[1] == (
                ElementView { kind: "body"@, text: b, source: None }),
                None => r.slides[i + 1].elements.len() == 1,
            }
        },
{
    lemma_kinds_differ();
    lemma_one_op(op, d);
    lemma_free(d.slides, op.text("id"@)->0);
    lemma_found(d.slides, op.text("after"@)->0, i);
    let r = redone(seq![op], d)->Ok_0;
    assert(r.slides.take(i + 1) =~= d.slides.take(i + 1));
    assert(r.slides.skip(i + 2) =~= d.slides.skip(i + 1));
}

/// A new slide that is put after none, or at the start, comes first, and the others follow.
pub proof fn law_a_new_slide_can_come_first(d: DeckView, op: Op)
    requires
        op.text("op"@) == Some("add_slide"@),
        op.text("id"@) is Some,
        op.text("layout"@) is Some,
        op.text("title"@) is Some,
        op.text("after"@) is None || op.text("after"@) == Some("start"@),
        is_free(d.slides, op.text("id"@)->0),
        expected(op.text("layout"@)->0) is Some,
    ensures
        redone(seq![op], d) matches Ok(r) && {
            &&& r.theme == d.theme
            &&& r.slides.len() == d.slides.len() + 1
            &&& r.slides[0].id == op.text("id"@)->0
            &&& r.slides.skip(1) == d.slides
        },
{
    lemma_kinds_differ();
    lemma_one_op(op, d);
    lemma_free(d.slides, op.text("id"@)->0);
    let r = redone(seq![op], d)->Ok_0;
    assert(r.slides.skip(1) =~= d.slides);
}

/// Replacing an element changes its text and nothing else: every other slide, every other element
/// and the layout and notes of the slide are as they were. The element is the one that the id
/// counts among those of its kind.
pub proof fn law_replacing_an_element_changes_only_its_text(
    d: DeckView,
    op: Op,
    i: int,
    at: Seq<int>,
    n: nat,
)
    requires
        op.text("op"@) == Some("replace_element"@),
        op.text("element"@) is Some,
        op.text("text"@) is Some,
        element_named(op.text("element"@)->0) matches Ok(name) && {
            &&& is_slide(d.slides, name.slide, i)
            &&& are_places(d.slides[i].elements, name.kind, at)
            &&& name.n == n
        },
        1 <= n <= at.len(),
    ensures
        redone(seq![op], d) matches Ok(r) && {
            let (was, now) = (d.slides[i], r.slides[i]);
            let k = at[n - 1];
            &&& r.theme == d.theme
            &&& r.slides.len() == d.slides.len()
            &&& forall|j: int| 0 <= j < r.slides.len() && j != i ==> #[trigger] r.slides[j]
                == d.slides[j]
            &&& now.id == was.id && now.layout == was.layout && now.notes == was.notes
            &&& now.elements.len() == was.elements.len()
            &&& forall|j: int| 0 <= j < now.elements.len() && j != k ==> #[trigger] now.elements[j]
                == was.elements[j]
            &&& now.elements[k].text == op.text("text"@)->0
            &&& now.elements[k].kind == was.elements[k].kind
            &&& now.elements[k].source == was.elements[k].source
        },
{
    lemma_kinds_differ();
    lemma_one_op(op, d);
    let name = element_named(op.text("element"@)->0)->Ok_0;
    lemma_found(d.slides, name.slide, i);
    lemma_nth(d.slides[i].elements, name.kind, at, n);
    assert(0 <= at[n - 1] < d.slides[i].elements.len());
}

/// Binding a chart to data changes where the chart's data comes from and nothing else.
pub proof fn law_binding_a_chart_changes_only_its_source(
    d: DeckView,
    op: Op,
    i: int,
    at: Seq<int>,
    n: nat,
)
    requires
        op.text("op"@) == Some("bind_chart_data"@),
        op.text("element"@) is Some,
        op.text("source"@) is Some,
        element_named(op.text("element"@)->0) matches Ok(name) && {
            &&& is_slide(d.slides, name.slide, i)
            &&& name.kind == "chart"@
            &&& are_places(d.slides[i].elements, name.kind, at)
            &&& name.n == n
        },
        1 <= n <= at.len(),
    ensures
        redone(seq![op], d) matches Ok(r) && {
            let (was, now) = (d.slides[i], r.slides[i]);
            let k = at[n - 1];
            &&& r.theme == d.theme
            &&& r.slides.len() == d.slides.len()
            &&& forall|j: int| 0 <= j < r.slides.len() && j != i ==> #[trigger] r.slides[j]
                == d.slides[j]
            &&& now.id == was.id && now.layout == was.layout && now.notes == was.notes
            &&& now.elements.len() == was.elements.len()
            &&& forall|j: int| 0 <= j < now.elements.len() && j != k ==> #[trigger] now.elements[j]
                == was.elements[j]
            &&& now.elements[k].source == Some(op.text("source"@)->0)
            &&& now.elements[k].kind == was.elements[k].kind
            &&& now.elements[k].text == was.elements[k].text
        },
{
    lemma_kinds_differ();
    lemma_one_op(op, d);
    let name = element_named(op.text("element"@)->0)->Ok_0;
    lemma_found(d.slides, name.slide, i);
    lemma_nth(d.slides[i].elements, name.kind, at, n);
    assert(0 <= at[n - 1] < d.slides[i].elements.len());
}

/// Giving a slide another layout changes that slide's layout and nothing else.
pub proof fn law_a_layout_changes_nothing_else(d: DeckView, op: Op, i: int)
    requires
        op.text("op"@) == Some("apply_layout"@),
        op.text("slide"@) is Some,
        op.text("layout"@) is Some,
        expected(op.text("layout"@)->0) is Some,
        is_slide(d.slides, op.text("slide"@)->0, i),
    ensures
        redone(seq![op], d) matches Ok(r) && {
            let (was, now) = (d.slides[i], r.slides[i]);
            &&& r.theme == d.theme
            &&& r.slides.len() == d.slides.len()
            &&& forall|j: int| 0 <= j < r.slides.len() && j != i ==> #[trigger] r.slides[j]
                == d.slides[j]
            &&& now.layout == op.text("layout"@)->0
            &&& now.id == was.id && now.elements == was.elements && now.notes == was.notes
        },
{
    lemma_kinds_differ();
    lemma_one_op(op, d);
    lemma_found(d.slides, op.text("slide"@)->0, i);
}

/// Deleting a slide takes that slide; the others stay as they were, in the same order.
pub proof fn law_deleting_a_slide_takes_only_that_slide(d: DeckView, op: Op, i: int)
    requires
        op.text("op"@) == Some("delete_slide"@),
        op.text("slide"@) is Some,
        is_slide(d.slides, op.text("slide"@)->0, i),
    ensures
        redone(seq![op], d) == Ok::<DeckView, Fault>(
            DeckView { theme: d.theme, slides: d.slides.take(i) + d.slides.skip(i + 1) },
        ),
{
    lemma_kinds_differ();
    lemma_one_op(op, d);
    lemma_found(d.slides, op.text("slide"@)->0, i);
    assert(d.slides.remove(i) =~= d.slides.take(i) + d.slides.skip(i + 1));
}

/// A slide that is moved stands directly behind the slide that it is put after, and the others are
/// as they were, in the same order. The place is counted without the slide that moves.
pub proof fn law_a_moved_slide_follows_the_one_it_is_put_after(d: DeckView, op: Op, i: int, k: int)
    requires
        op.text("op"@) == Some("reorder"@),
        op.text("slide"@) is Some,
        op.text("after"@) is Some,
        op.text("after"@)->0 != "start"@,
        is_slide(d.slides, op.text("slide"@)->0, i),
        is_slide(d.slides.take(i) + d.slides.skip(i + 1), op.text("after"@)->0, k),
    ensures
        ({
            let rest = d.slides.take(i) + d.slides.skip(i + 1);
            redone(seq![op], d) == Ok::<DeckView, Fault>(
                DeckView {
                    theme: d.theme,
                    slides: rest.take(k + 1) + seq![d.slides[i]] + rest.skip(k + 1),
                },
            )
        }),
{
    lemma_kinds_differ();
    lemma_one_op(op, d);
    let rest = d.slides.take(i) + d.slides.skip(i + 1);
    lemma_found(d.slides, op.text("slide"@)->0, i);
    assert(d.slides.remove(i) =~= rest);
    lemma_found(rest, op.text("after"@)->0, k);
    assert(rest.insert(k + 1, d.slides[i]) =~= rest.take(k + 1) + seq![d.slides[i]] + rest.skip(
        k + 1,
    ));
}

} // verus!
