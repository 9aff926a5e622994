//! Byte-range edits, applied to a whole file at once.
//!
//! A batch of edits is all or nothing. Two edits may not touch the same bytes: that is a mistake in
//! the batch, not something to resolve by ordering. What no edit touches comes out as it went in.

use vstd::prelude::*;

verus! {

/// Replace the bytes from `start` to `end` by `text`.
pub struct Edit {
    pub start: usize,
    pub end: usize,
    pub text: Vec<u8>,
}

/// An edit, as the values it holds.
#[verifier::ext_equal]
pub ghost struct Change {
    pub start: int,
    pub end: int,
    pub text: Seq<u8>,
}

impl View for Edit {
    type V = Change;

    open spec fn view(&self) -> Change {
        Change { start: self.start as int, end: self.end as int, text: self.text@ }
    }
}

/// A run of edits, as the values they hold.
pub open spec fn changes(v: Seq<Edit>) -> Seq<Change> {
    v.map_values(|e: Edit| e@)
}

/// Does `a` come no later than `b`, by where they start and then by where they end?
pub open spec fn no_later(a: Change, b: Change) -> bool {
    a.start < b.start || (a.start == b.start && a.end <= b.end)
}

/// `s` with `e` placed before the first edit that it comes no later than.
pub open spec fn placed(s: Seq<Change>, e: Change) -> Seq<Change>
    decreases s.len(),
{
    if s.len() == 0 || no_later(e, s[0]) {
        seq![e] + s
    } else {
        seq![s[0]] + placed(s.skip(1), e)
    }
}

/// The edits in the order of the bytes they touch. Of several insertions at one place the last
/// comes first.
pub open spec fn arranged(s: Seq<Change>) -> Seq<Change>
    decreases s.len(),
{
    if s.len() == 0 {
        Seq::empty()
    } else {
        placed(arranged(s.drop_last()), s.last())
    }
}

/// Each edit comes no later than the next.
pub open spec fn in_order(s: Seq<Change>) -> bool {
    forall|i: int, j: int| 0 <= i <= j < s.len() ==> no_later(#[trigger] s[i], #[trigger] s[j])
}

/// Do two neighbouring edits touch the same bytes? Two insertions never do.
pub open spec fn clash(a: Change, b: Change) -> bool {
    a.end > b.start && !(a.start == a.end && b.start == b.end)
}

/// The position of the first edit that clashes with the one after it, or the number of edits.
pub open spec fn first_clash(s: Seq<Change>) -> int
    decreases s.len(),
{
    if s.len() < 2 {
        s.len() as int
    } else {
        let r = first_clash(s.drop_last());
        if r < s.len() - 1 {
            r
        } else if clash(s[s.len() - 2], s.last()) {
            s.len() - 2
        } else {
            s.len() as int
        }
    }
}

/// Every edit touches bytes that are there.
pub open spec fn all_within(s: Seq<Change>, len: int) -> bool {
    forall|i: int|
        0 <= i < s.len() ==> 0 <= (#[trigger] s[i]).start && s[i].start <= s[i].end && s[i].end
            <= len
}

/// The edits are in order, apart from each other, and within the bytes.
pub open spec fn fits(s: Seq<Change>, len: int) -> bool {
    &&& all_within(s, len)
    &&& forall|i: int, j: int|
        0 <= i < j < s.len() ==> (#[trigger] s[i]).end <= (#[trigger] s[j]).start
}

/// Where the last of the edits ends.
pub open spec fn reach(s: Seq<Change>) -> int {
    if s.len() == 0 {
        0
    } else {
        s.last().end
    }
}

/// The bytes up to where the last edit ends, with the edits made.
pub open spec fn built(src: Seq<u8>, s: Seq<Change>) -> Seq<u8>
    decreases s.len(),
{
    if s.len() == 0 {
        Seq::empty()
    } else {
        built(src, s.drop_last()) + src.subrange(reach(s.drop_last()), s.last().start)
            + s.last().text
    }
}

/// The bytes with the edits made.
pub open spec fn edited(src: Seq<u8>, s: Seq<Change>) -> Seq<u8> {
    built(src, s) + src.skip(reach(s))
}

/// Why a batch of edits is refused.
#[derive(Debug)]
pub enum SpliceError {
    /// Two edits touch the same bytes: where each of them starts and ends.
    Overlap { a: (usize, usize), b: (usize, usize) },
    /// An edit reaches past the end of the bytes.
    Outside,
}

/// The outcome of a batch of edits.
pub ghost enum Spliced {
    Done(Seq<u8>),
    Overlap { a: (int, int), b: (int, int) },
    Outside,
}

/// The outcome of a batch of edits on these bytes.
pub open spec fn spliced(src: Seq<u8>, batch: Seq<Change>) -> Spliced {
    let s = arranged(batch);
    let k = first_clash(s);
    if k < s.len() {
        Spliced::Overlap { a: (s[k].start, s[k].end), b: (s[k + 1].start, s[k + 1].end) }
    } else if all_within(s, src.len() as int) {
        Spliced::Done(edited(src, s))
    } else {
        Spliced::Outside
    }
}

proof fn lemma_placed(s: Seq<Change>, e: Change, i: int)
    requires
        0 <= i <= s.len(),
        forall|k: int| 0 <= k < i ==> !no_later(e, #[trigger] s[k]),
        i < s.len() ==> no_later(e, s[i]),
    ensures
        placed(s, e) == s.insert(i, e),
    decreases s.len(),
{
    if i == 0 {
        assert(s.insert(0, e) =~= seq![e] + s);
    } else {
        assert(!no_later(e, s[0]));
        let t = s.skip(1);
        assert forall|k: int| 0 <= k < i - 1 implies !no_later(e, #[trigger] t[k]) by {
            assert(t[k] == s[k + 1]);
        }
        lemma_placed(t, e, i - 1);
        assert(s.insert(i, e) =~= seq![s[0]] + t.insert(i - 1, e));
    }
}

proof fn lemma_placed_in_order(s: Seq<Change>, e: Change)
    requires
        in_order(s),
    ensures
        in_order(placed(s, e)),
        placed(s, e).len() == s.len() + 1,
    decreases s.len(),
{
    if s.len() == 0 || no_later(e, s[0]) {
        let r = placed(s, e);
        assert forall|i: int, j: int| 0 <= i <= j < r.len() implies no_later(
            #[trigger] r[i],
            #[trigger] r[j],
        ) by {
            if i > 0 {
                assert(no_later(s[i - 1], s[j - 1]));
            } else if j > 0 {
                assert(no_later(s[0], s[j - 1]));
            }
        }
    } else {
        let t = s.skip(1);
        assert forall|i: int, j: int| 0 <= i <= j < t.len() implies no_later(
            #[trigger] t[i],
            #[trigger] t[j],
        ) by {
            assert(no_later(s[i + 1], s[j + 1]));
        }
        lemma_placed_in_order(t, e);
        let p = placed(t, e);
        let r = placed(s, e);
        assert forall|i: int| 0 <= i < p.len() implies no_later(s[0], #[trigger] p[i]) by {
            lemma_placed_member(t, e, i);
            if p[i] != e {
                let k = choose|k: int| 0 <= k < t.len() && t[k] == p[i];
                assert(no_later(s[0], s[k + 1]));
            }
        }
        assert forall|i: int, j: int| 0 <= i <= j < r.len() implies no_later(
            #[trigger] r[i],
            #[trigger] r[j],
        ) by {
            if i > 0 {
                assert(no_later(p[i - 1], p[j - 1]));
            } else if j > 0 {
                assert(no_later(s[0], p[j - 1]));
            }
        }
    }
}

proof fn lemma_placed_member(s: Seq<Change>, e: Change, i: int)
    requires
        0 <= i < placed(s, e).len(),
    ensures
        placed(s, e)[i] == e || exists|k: int| 0 <= k < s.len() && s[k] == placed(s, e)[i],
    decreases s.len(),
{
    if s.len() == 0 || no_later(e, s[0]) {
        if i > 0 {
            assert(s[i - 1] == placed(s, e)[i]);
        }
    } else {
        if i == 0 {
            assert(s[0] == placed(s, e)[0]);
        } else {
            let t = s.skip(1);
            lemma_placed_member(t, e, i - 1);
            if placed(t, e)[i - 1] != e {
                let k = choose|k: int| 0 <= k < t.len() && t[k] == placed(t, e)[i - 1];
                assert(s[k + 1] == placed(s, e)[i]);
            }
        }
    }
}

/// The edits are arranged in order.
pub proof fn lemma_arranged_in_order(s: Seq<Change>)
    ensures
        in_order(arranged(s)),
        arranged(s).len() == s.len(),
    decreases s.len(),
{
    if s.len() > 0 {
        lemma_arranged_in_order(s.drop_last());
        lemma_placed_in_order(arranged(s.drop_last()), s.last());
    }
}

proof fn lemma_first_clash(s: Seq<Change>)
    ensures
        0 <= first_clash(s) <= s.len(),
        first_clash(s) < s.len() ==> first_clash(s) + 1 < s.len() && clash(
            s[first_clash(s)],
            s[first_clash(s) + 1],
        ),
        forall|i: int| 0 <= i < first_clash(s) && i + 1 < s.len() ==> !clash(#[trigger] s[i], s[i + 1]),
    decreases s.len(),
{
    if s.len() >= 2 {
        let d = s.drop_last();
        lemma_first_clash(d);
        assert forall|i: int| 0 <= i < first_clash(s) && i + 1 < s.len() implies !clash(
            #[trigger] s[i],
            s[i + 1],
        ) by {
            if i + 1 < d.len() {
                assert(d[i] == s[i] && d[i + 1] == s[i + 1]);
            }
        }
    }
}

/// Edits in order that do not clash with their neighbours keep clear of each other.
pub proof fn lemma_apart(s: Seq<Change>, len: int)
    requires
        in_order(s),
        first_clash(s) == s.len(),
        all_within(s, len),
    ensures
        fits(s, len),
{
    lemma_first_clash(s);
    assert forall|i: int, j: int| 0 <= i < j < s.len() implies (#[trigger] s[i]).end
        <= (#[trigger] s[j]).start by {
        assert(no_later(s[i], s[i + 1]));
        assert(no_later(s[i + 1], s[j]));
        assert(!clash(s[i], s[i + 1]));
    }
}

fn is_no_later(a: &Edit, b: &Edit) -> (r: bool)
    ensures
        r == no_later(a@, b@),
{
    a.start < b.start || (a.start == b.start && a.end <= b.end)
}

fn arrange(edits: Vec<Edit>) -> (r: Vec<Edit>)
    ensures
        changes(r@) == arranged(changes(edits@)),
{
    let mut rest = edits;
    let ghost all = changes(rest@);
    let mut out: Vec<Edit> = Vec::new();
    let mut done: Ghost<int> = Ghost(0);
    assert(all.take(0) =~= Seq::<Change>::empty());
    assert(changes(out@) =~= Seq::<Change>::empty());
    assert(all.skip(0) =~= all);
    while rest.len() > 0
        invariant
            0 <= done@ <= all.len(),
            changes(rest@) == all.skip(done@),
            changes(out@) == arranged(all.take(done@)),
        decreases rest@.len(),
    {
        let ghost before = rest@;
        assert(changes(before).len() == before.len());
        assert(done@ < all.len());
        let e = rest.remove(0);
        proof {
            assert(changes(before)[0] == e@);
            assert(all.skip(done@)[0] == all[done@]);
            assert(changes(rest@) =~= changes(before).skip(1));
            assert(all.skip(done@).skip(1) =~= all.skip(done@ + 1));
            assert(all[done@] == e@);
        }
        let mut i: usize = 0;
        while i < out.len() && !is_no_later(&e, &out[i])
            invariant
                i <= out@.len(),
                forall|k: int| 0 <= k < i ==> !no_later(e@, #[trigger] changes(out@)[k]),
            decreases out@.len() - i,
        {
            i += 1;
        }
        let ghost sofar = changes(out@);
        proof {
            lemma_placed(sofar, e@, i as int);
            let nn = all.take(done@ + 1);
            assert(nn.drop_last() =~= all.take(done@));
            assert(nn.last() == e@);
        }
        out.insert(i, e);
        assert(changes(out@) =~= sofar.insert(i as int, e@));
        proof {
            done@ = done@ + 1;
        }
    }
    assert(all.take(done@) =~= all);
    out
}

/// Make a batch of edits, or none of them.
pub fn splice(src: &[u8], edits: Vec<Edit>) -> (r: Result<Vec<u8>, SpliceError>)
    ensures
        match r {
            Ok(out) => spliced(src@, changes(edits@)) == Spliced::Done(out@),
            Err(SpliceError::Overlap { a, b }) => spliced(src@, changes(edits@))
                == (Spliced::Overlap { a: (a.0 as int, a.1 as int), b: (b.0 as int, b.1 as int) }),
            Err(SpliceError::Outside) => spliced(src@, changes(edits@)) == Spliced::Outside,
        },
{
    let ghost batch = changes(edits@);
    let sorted = arrange(edits);
    let ghost s = changes(sorted@);
    proof {
        lemma_arranged_in_order(batch);
    }
    let mut i: usize = 1;
    assert(s.len() > 0 ==> first_clash(s.take(1)) == 1);
    while i < sorted.len()
        invariant
            s == changes(sorted@),
            s == arranged(batch),
            batch == changes(edits@),
            1 <= i,
            s.len() > 0 ==> i <= s.len(),
            s.len() > 0 ==> first_clash(s.take(i as int)) == i,
        decreases sorted@.len() - i,
    {
        let ghost nn = s.take(i + 1);
        assert(nn.drop_last() =~= s.take(i as int));
        assert(nn.last() == s[i as int]);
        assert(nn[nn.len() - 2] == s[i - 1]);
        let a = &sorted[i - 1];
        let b = &sorted[i];
        if a.end > b.start && !(a.start == a.end && b.start == b.end) {
            proof {
                lemma_first_clash_prefix(s, i + 1);
            }
            return Err(SpliceError::Overlap { a: (a.start, a.end), b: (b.start, b.end) });
        }
        i += 1;
    }
    assert(s.len() > 0 ==> s.take(i as int) =~= s);
    let mut i: usize = 0;
    while i < sorted.len()
        invariant
            i <= sorted@.len(),
            s == changes(sorted@),
            s == arranged(batch),
            batch == changes(edits@),
            first_clash(s) == s.len(),
            forall|k: int|
                0 <= k < i ==> 0 <= (#[trigger] s[k]).start && s[k].start <= s[k].end && s[k].end
                    <= src@.len(),
        decreases sorted@.len() - i,
    {
        let e = &sorted[i];
        assert(s[i as int] == e@);
        if e.start > e.end || e.end > src.len() {
            assert(!all_within(s, src@.len() as int));
            return Err(SpliceError::Outside);
        }
        i += 1;
    }
    proof {
        lemma_apart(s, src@.len() as int);
    }
    let mut out: Vec<u8> = Vec::new();
    let mut pos: usize = 0;
    let mut i: usize = 0;
    assert(s.take(0) =~= Seq::<Change>::empty());
    while i < sorted.len()
        invariant
            i <= sorted@.len(),
            s == changes(sorted@),
            fits(s, src@.len() as int),
            pos == reach(s.take(i as int)),
            pos <= src@.len(),
            out@ == built(src@, s.take(i as int)),
        decreases sorted@.len() - i,
    {
        let ghost nn = s.take(i + 1);
        assert(nn.drop_last() =~= s.take(i as int));
        assert(nn.last() == s[i as int]);
        assert(s[i as int] == sorted@[i as int]@);
        assert(i > 0 ==> s.take(i as int).last() == s[i - 1]);
        let ghost before = out@;
        out.extend_from_slice(vstd::slice::slice_subrange(src, pos, sorted[i].start));
        out.extend_from_slice(sorted[i].text.as_slice());
        assert(out@ =~= before + src@.subrange(pos as int, sorted@[i as int].start as int)
            + sorted@[i as int].text@);
        pos = sorted[i].end;
        i += 1;
    }
    assert(s.take(i as int) =~= s);
    let ghost before = out@;
    out.extend_from_slice(vstd::slice::slice_subrange(src, pos, src.len()));
    assert(out@ =~= before + src@.skip(pos as int));
    Ok(out)
}

proof fn lemma_first_clash_prefix(s: Seq<Change>, n: int)
    requires
        0 <= n <= s.len(),
        first_clash(s.take(n)) < n,
    ensures
        first_clash(s) == first_clash(s.take(n)),
    decreases s.len(),
{
    if n == s.len() {
        assert(s.take(n) =~= s);
    } else {
        let d = s.drop_last();
        assert(d.take(n) =~= s.take(n));
        lemma_first_clash_prefix(d, n);
        assert(n >= 2);
    }
}

/// How much longer the bytes get by the edits.
pub open spec fn growth(s: Seq<Change>) -> int
    decreases s.len(),
{
    if s.len() == 0 {
        0
    } else {
        growth(s.drop_last()) + s.last().text.len() - (s.last().end - s.last().start)
    }
}

proof fn lemma_fits_prefix(s: Seq<Change>, len: int, n: int)
    requires
        fits(s, len),
        0 <= n <= s.len(),
    ensures
        fits(s.take(n), len),
{
    let t = s.take(n);
    assert forall|i: int| 0 <= i < t.len() implies 0 <= (#[trigger] t[i]).start && t[i].start
        <= t[i].end && t[i].end <= len by {
        assert(t[i] == s[i]);
    }
    assert forall|i: int, j: int| 0 <= i < j < t.len() implies (#[trigger] t[i]).end
        <= (#[trigger] t[j]).start by {
        assert(t[i] == s[i] && t[j] == s[j]);
    }
}

proof fn lemma_built_len(src: Seq<u8>, s: Seq<Change>)
    requires
        fits(s, src.len() as int),
    ensures
        built(src, s).len() == reach(s) + growth(s),
        0 <= reach(s) <= src.len(),
    decreases s.len(),
{
    if s.len() > 0 {
        let d = s.drop_last();
        lemma_fits_prefix(s, src.len() as int, s.len() - 1);
        assert(d =~= s.take(s.len() - 1));
        lemma_built_len(src, d);
        assert(s[s.len() - 1] == s.last());
        if d.len() > 0 {
            assert(d.last() == s[s.len() - 2]);
        }
    }
}

proof fn lemma_built_prefix(src: Seq<u8>, s: Seq<Change>, n: int)
    requires
        0 <= n <= s.len(),
    ensures
        built(src, s.take(n)).is_prefix_of(built(src, s)),
    decreases s.len(),
{
    if n == s.len() {
        assert(s.take(n) =~= s);
    } else {
        lemma_built_prefix(src, s.drop_last(), n);
        assert(s.drop_last().take(n) =~= s.take(n));
    }
}

/// What no edit touches comes out as it went in: a byte after the first `k` edits and before the
/// rest has only moved by what those `k` edits added or took away.
pub proof fn law_untouched_bytes_survive(src: Seq<u8>, s: Seq<Change>, k: int, i: int)
    requires
        fits(s, src.len() as int),
        0 <= k <= s.len(),
        0 <= i < src.len(),
        reach(s.take(k)) <= i,
        k < s.len() ==> i < s[k].start,
    ensures
        0 <= i + growth(s.take(k)) < edited(src, s).len(),
        edited(src, s)[i + growth(s.take(k))] == src[i],
{
    let len = src.len() as int;
    let at = i + growth(s.take(k));
    lemma_fits_prefix(s, len, k);
    lemma_built_len(src, s.take(k));
    if k == s.len() {
        assert(s.take(k) =~= s);
        assert(edited(src, s)[at] == src.skip(reach(s))[i - reach(s)]);
    } else {
        lemma_untouched_within(src, s, k, i);
    }
}

proof fn lemma_untouched_within(src: Seq<u8>, s: Seq<Change>, k: int, i: int)
    requires
        fits(s, src.len() as int),
        0 <= k < s.len(),
        0 <= reach(s.take(k)) <= i < s[k].start,
        built(src, s.take(k)).len() == reach(s.take(k)) + growth(s.take(k)),
    ensures
        0 <= i + growth(s.take(k)) < edited(src, s).len(),
        edited(src, s)[i + growth(s.take(k))] == src[i],
{
    let n = s.take(k + 1);
    assert(n.drop_last() =~= s.take(k));
    assert(n.last() == s[k]);
    let at = i + growth(s.take(k));
    let from = reach(s.take(k));
    let head = built(src, s.take(k));
    let mid = src.subrange(from, s[k].start);
    assert(s[k].start <= s[k].end <= src.len());
    assert(built(src, n) == head + mid + s[k].text);
    assert(mid[i - from] == src[i]);
    assert((head + mid + s[k].text)[at] == mid[i - from]);
    lemma_built_prefix(src, s, k + 1);
    assert(built(src, s)[at] == built(src, n)[at]);
}

/// Each edit's text stands in the result where the edit was made.
pub proof fn law_each_edit_is_made(src: Seq<u8>, s: Seq<Change>, k: int)
    requires
        fits(s, src.len() as int),
        0 <= k < s.len(),
    ensures
        ({
            let at = s[k].start + growth(s.take(k));
            0 <= at && at + s[k].text.len() <= edited(src, s).len() && edited(src, s).subrange(
                at,
                at + s[k].text.len(),
            ) == s[k].text
        }),
{
    let len = src.len() as int;
    let n = s.take(k + 1);
    lemma_fits_prefix(s, len, k);
    lemma_fits_prefix(s, len, k + 1);
    lemma_built_len(src, s.take(k));
    lemma_built_len(src, n);
    lemma_built_len(src, s);
    lemma_built_prefix(src, s, k + 1);
    assert(n.drop_last() =~= s.take(k));
    assert(n.last() == s[k]);
    if k > 0 {
        assert(s.take(k).last() == s[k - 1]);
    }
    let at = s[k].start + growth(s.take(k));
    assert(built(src, n).subrange(at, at + s[k].text.len()) =~= s[k].text);
    assert(edited(src, s).subrange(at, at + s[k].text.len()) =~= built(src, n).subrange(
        at,
        at + s[k].text.len(),
    ));
}

/// One edit puts its text in the place of the bytes it touches, and leaves what stands before and
/// behind them as it was.
pub proof fn law_one_edit_rewrites_one_place(src: Seq<u8>, c: Change)
    requires
        0 <= c.start <= c.end <= src.len(),
    ensures
        spliced(src, seq![c]) == Spliced::Done(src.take(c.start) + c.text + src.skip(c.end)),
{
    let s = seq![c];
    assert(s.drop_last() =~= Seq::<Change>::empty());
    assert(arranged(s.drop_last()) =~= Seq::<Change>::empty());
    assert(arranged(s) =~= s);
    assert(first_clash(s) == 1);
    assert(all_within(s, src.len() as int));
    assert(built(src, s.drop_last()) =~= Seq::<u8>::empty());
    assert(edited(src, s) =~= src.take(c.start) + c.text + src.skip(c.end));
}

/// Two edits that touch different bytes are both made, whichever of them is listed first.
pub proof fn law_two_edits_are_both_made(src: Seq<u8>, a: Change, b: Change)
    requires
        0 <= a.start <= a.end <= b.start <= b.end <= src.len(),
        a.start < b.start || a.end < b.end,
    ensures
        ({
            let out = src.take(a.start) + a.text + src.subrange(a.end, b.start) + b.text + src.skip(
                b.end,
            );
            &&& spliced(src, seq![a, b]) == Spliced::Done(out)
            &&& spliced(src, seq![b, a]) == Spliced::Done(out)
        }),
{
    let s = seq![a, b];
    let t = seq![b, a];
    let none = Seq::<Change>::empty();
    assert(seq![a].drop_last() =~= none);
    assert(seq![b].drop_last() =~= none);
    assert(arranged(none) =~= none);
    assert(arranged(seq![a]) =~= seq![a]);
    assert(arranged(seq![b]) =~= seq![b]);
    assert(s.drop_last() =~= seq![a]);
    assert(t.drop_last() =~= seq![b]);
    assert(seq![a].skip(1) =~= none);
    assert(placed(none, b) =~= seq![b]);
    assert(arranged(s) =~= s);
    assert(arranged(t) =~= s);
    assert(first_clash(seq![a]) == 1);
    assert(first_clash(s) == 2);
    assert(all_within(s, src.len() as int));
    assert(built(src, none) =~= Seq::<u8>::empty());
    assert(built(src, seq![a]) =~= src.take(a.start) + a.text);
    assert(edited(src, s) =~= src.take(a.start) + a.text + src.subrange(a.end, b.start) + b.text
        + src.skip(b.end));
}

} // verus!
