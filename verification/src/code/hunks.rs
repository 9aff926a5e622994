//! What a diff does to the lines of a file.

use crate::adapter::Fault;
use crate::code::diff::all_patched;
use crate::code::diff::bottom_up;
use crate::code::diff::law_a_hunk_goes_to_the_nearest_context;
use crate::code::diff::lined_up;
use crate::code::diff::patched;
use crate::code::diff::stands_at;
use crate::code::diff::tagged;
use crate::code::diff::HunkView;
use vstd::prelude::*;

verus! {

/// Some lines of a hunk, all with one tag.
pub open spec fn lines_with(tag: char, v: Seq<Seq<char>>) -> Seq<(char, Seq<char>)> {
    v.map_values(|x: Seq<char>| (tag, x))
}

proof fn lemma_tagged_all(tag: char, v: Seq<Seq<char>>, a: char, b: char)
    ensures
        tagged(lines_with(tag, v), a, b) == (if tag == a || tag == b {
            v
        } else {
            Seq::empty()
        }),
    decreases v.len(),
{
    let l = lines_with(tag, v);
    if v.len() > 0 {
        lemma_tagged_all(tag, v.drop_last(), a, b);
        assert(l.drop_last() =~= lines_with(tag, v.drop_last()));
        assert(v.drop_last().push(v.last()) =~= v);
    }
}

proof fn lemma_tagged_add(
    l: Seq<(char, Seq<char>)>,
    m: Seq<(char, Seq<char>)>,
    a: char,
    b: char,
)
    ensures
        tagged(l + m, a, b) == tagged(l, a, b) + tagged(m, a, b),
    decreases m.len(),
{
    if m.len() == 0 {
        assert(l + m =~= l);
        assert(tagged(l, a, b) + tagged(m, a, b) =~= tagged(l, a, b));
    } else {
        lemma_tagged_add(l, m.drop_last(), a, b);
        assert((l + m).drop_last() =~= l + m.drop_last());
        assert((l + m).last() == m.last());
        assert(tagged(l + m, a, b) =~= tagged(l, a, b) + tagged(m, a, b));
    }
}

proof fn lemma_sides(
    before: Seq<Seq<char>>,
    gone: Seq<Seq<char>>,
    new: Seq<Seq<char>>,
    after: Seq<Seq<char>>,
    tag: char,
)
    requires
        tag == '-' || tag == '+',
    ensures
        tagged(
            lines_with(' ', before) + lines_with('-', gone) + lines_with('+', new) + lines_with(
                ' ',
                after,
            ),
            ' ',
            tag,
        ) == before + (if tag == '-' {
            gone
        } else {
            new
        }) + after,
{
    let (p, q) = (lines_with(' ', before), lines_with('-', gone));
    let (r, s) = (lines_with('+', new), lines_with(' ', after));
    lemma_tagged_add(p + q + r, s, ' ', tag);
    lemma_tagged_add(p + q, r, ' ', tag);
    lemma_tagged_add(p, q, ' ', tag);
    lemma_tagged_all(' ', before, ' ', tag);
    lemma_tagged_all('-', gone, ' ', tag);
    lemma_tagged_all('+', new, ' ', tag);
    lemma_tagged_all(' ', after, ' ', tag);
    let middle = if tag == '-' {
        gone
    } else {
        new
    };
    assert(tagged(p + q + r + s, ' ', tag) =~= before + middle + after);
}

/// A hunk puts new lines in the place of old ones, between the lines of its context. Where the
/// context and the old lines stand in the file, the lines before and behind them stay as they are;
/// where they stand nowhere, the diff is refused.
pub proof fn law_a_hunk_replaces_only_what_it_names(
    file: Seq<Seq<char>>,
    start: nat,
    before: Seq<Seq<char>>,
    gone: Seq<Seq<char>>,
    new: Seq<Seq<char>>,
    after: Seq<Seq<char>>,
)
    requires
        before.len() + gone.len() + after.len() > 0,
    ensures
        ({
            let old = before + gone + after;
            let h = HunkView {
                old_start: start,
                lines: lines_with(' ', before) + lines_with('-', gone) + lines_with('+', new)
                    + lines_with(' ', after),
            };
            match all_patched(file, bottom_up(seq![h])) {
                Ok(r) => exists|at: int| #[trigger]
                    stands_at(file, old, at) && r == file.take(at) + (before + new + after)
                        + file.skip(at + old.len()),
                Err(_) => forall|at: int| !(#[trigger] stands_at(file, old, at)),
            }
        }),
{
    let old = before + gone + after;
    let h = HunkView {
        old_start: start,
        lines: lines_with(' ', before) + lines_with('-', gone) + lines_with('+', new) + lines_with(
            ' ',
            after,
        ),
    };
    lemma_sides(before, gone, new, after, '-');
    lemma_sides(before, gone, new, after, '+');
    let hint = if start > 0 {
        start - 1
    } else {
        0
    };
    law_a_hunk_goes_to_the_nearest_context(file, old, hint);
    let one = seq![h];
    let none = Seq::<HunkView>::empty();
    assert(one.drop_last() =~= none);
    assert(bottom_up(none) == none);
    assert(lined_up(none, h) =~= one);
    assert(bottom_up(one) == one);
    assert(all_patched(file, none) == Ok::<Seq<Seq<char>>, Fault>(file));
    assert(all_patched(file, one) == patched(file, h));
}

proof fn lemma_in_order(s: Seq<HunkView>, h: HunkView)
    requires
        forall|i: int, j: int|
            0 <= i < j < s.len() ==> (#[trigger] s[i]).old_start >= (#[trigger] s[j]).old_start,
    ensures
        ({
            let r = lined_up(s, h);
            &&& r.to_multiset() == s.to_multiset().insert(h)
            &&& r.len() == s.len() + 1
            &&& forall|i: int, j: int|
                0 <= i < j < r.len() ==> (#[trigger] r[i]).old_start >= (#[trigger] r[j]).old_start
            &&& forall|i: int| 0 <= i < r.len() ==> #[trigger] r[i] == h || s.contains(r[i])
        }),
    decreases s.len(),
{
    broadcast use vstd::seq_lib::group_to_multiset_ensures;

    let r = lined_up(s, h);
    if s.len() == 0 || s[0].old_start < h.old_start {
        assert(r =~= s.insert(0, h));
        assert(r.to_multiset() =~= s.to_multiset().insert(h));
        assert forall|i: int, j: int| 0 <= i < j < r.len() implies (#[trigger] r[i]).old_start >= (
        #[trigger] r[j]).old_start by {
            assert(r[j] == s[j - 1]);
            if i > 0 {
                assert(r[i] == s[i - 1]);
            } else if j > 1 {
                assert(s[0].old_start >= s[j - 1].old_start);
            }
        }
        assert forall|i: int| 0 <= i < r.len() implies #[trigger] r[i] == h || s.contains(r[i]) by {
            if i > 0 {
                assert(r[i] == s[i - 1]);
            }
        }
    } else {
        let t = s.skip(1);
        let u = lined_up(t, h);
        assert forall|i: int, j: int| 0 <= i < j < t.len() implies (#[trigger] t[i]).old_start >= (
        #[trigger] t[j]).old_start by {
            assert(s[i + 1].old_start >= s[j + 1].old_start);
        }
        lemma_in_order(t, h);
        assert forall|i: int| 0 <= i < u.len() implies (#[trigger] u[i] == h || s.contains(u[i]))
            && u[i].old_start <= s[0].old_start by {
            if u[i] != h {
                let k = choose|k: int| 0 <= k < t.len() && t[k] == u[i];
                assert(s[k + 1] == u[i]);
                assert(s[0].old_start >= s[k + 1].old_start);
            }
        }
        assert(r =~= u.insert(0, s[0]));
        assert(s =~= t.insert(0, s[0]));
        assert(r.to_multiset() =~= s.to_multiset().insert(h));
        assert forall|i: int, j: int| 0 <= i < j < r.len() implies (#[trigger] r[i]).old_start >= (
        #[trigger] r[j]).old_start by {
            assert(r[j] == u[j - 1]);
            if i > 0 {
                assert(r[i] == u[i - 1]);
            }
        }
        assert forall|i: int| 0 <= i < r.len() implies #[trigger] r[i] == h || s.contains(r[i]) by {
            if i > 0 {
                assert(r[i] == u[i - 1]);
            } else {
                assert(r[i] == s[0]);
            }
        }
    }
}

/// Hunks are applied from the bottom of the file up: each of them, as often as it is there, and
/// none before one that starts further down.
pub proof fn law_hunks_are_applied_from_the_bottom_up(s: Seq<HunkView>)
    ensures
        bottom_up(s).to_multiset() == s.to_multiset(),
        forall|i: int, j: int|
            0 <= i < j < bottom_up(s).len() ==> (#[trigger] bottom_up(s)[i]).old_start >= (
            #[trigger] bottom_up(s)[j]).old_start,
    decreases s.len(),
{
    broadcast use vstd::seq_lib::group_to_multiset_ensures;

    if s.len() > 0 {
        law_hunks_are_applied_from_the_bottom_up(s.drop_last());
        lemma_in_order(bottom_up(s.drop_last()), s.last());
        assert(s =~= s.drop_last().push(s.last()));
        assert(bottom_up(s).to_multiset() =~= s.to_multiset());
    } else {
        assert(s =~= Seq::<HunkView>::empty());
    }
}

} // verus!
