//! Sections: what stands from one heading to the next.
//!
//! A section is the caching unit for documents, and what makes it one is that its text alone says
//! what its blocks are called.

use crate::doc::model::blocks_from;
use crate::doc::model::blocks_of;
use crate::doc::model::body_block;
use crate::doc::model::fence_end;
use crate::doc::model::front_block;
use crate::doc::model::gap_after;
use crate::doc::model::heading_block;
use crate::doc::model::ids_in;
use crate::doc::model::is_blank;
use crate::doc::model::is_fence;
use crate::doc::model::is_heading;
use crate::doc::model::is_rule;
use crate::doc::model::kinds_in;
use crate::doc::model::law_lines_make_the_text;
use crate::doc::model::lemma_blocks_from_extends;
use crate::doc::model::lemma_blocks_well;
use crate::doc::model::lemma_cut_lines;
use crate::doc::model::lemma_ends;
use crate::doc::model::lemma_first_of;
use crate::doc::model::lemma_gap_moves;
use crate::doc::model::lemma_well_numbered_prefix;
use crate::doc::model::line_shaped;
use crate::doc::model::numbered_id;
use crate::doc::model::opens;
use crate::doc::model::pieces_of;
use crate::doc::model::rule_end;
use crate::doc::model::section_of;
use crate::doc::model::span;
use crate::doc::model::tally;
use crate::doc::model::well_numbered;
use crate::doc::model::BlockKind;
use crate::doc::model::BlockView;
use crate::utf8::byte_len;
use crate::utf8::joined;
use crate::utf8::lemma_offset_slice;
use crate::utf8::offset;
use vstd::prelude::*;
use vstd::utf8::encode_utf8;
use vstd::utf8::encode_utf8_decode_utf8;

verus! {

/// Where the section that block `k` is in ends: where the next heading starts, or with the text.
pub open spec fn section_end(text: Seq<char>, b: Seq<BlockView>, k: int) -> int
    decreases b.len() - k,
{
    if k < 0 || k + 1 >= b.len() {
        byte_len(text) as int
    } else if b[k + 1].kind is Heading {
        b[k + 1].start
    } else {
        section_end(text, b, k + 1)
    }
}

/// The bytes of a text from block `k` up to the next heading.
pub open spec fn section_source(text: Seq<char>, b: Seq<BlockView>, k: int) -> Seq<u8> {
    encode_utf8(text).subrange(b[k].start, section_end(text, b, k))
}

/// Is block `k` the one heading of a section?
pub open spec fn heads(b: Seq<BlockView>, k: int, section: Seq<char>) -> bool {
    &&& 0 <= k < b.len()
    &&& b[k].kind is Heading
    &&& b[k].section == section
    &&& forall|i: int|
        0 <= i < b.len() && i != k && (#[trigger] b[i]).kind is Heading ==> b[i].section != section
}

/// How many of these kinds are one kind.
pub open spec fn of_kind(kinds: Seq<BlockKind>, kind: BlockKind) -> nat
    decreases kinds.len(),
{
    if kinds.len() == 0 {
        0
    } else {
        of_kind(kinds.drop_last(), kind) + if kinds.last() == kind {
            1nat
        } else {
            0nat
        }
    }
}

/// What blocks of these kinds are called in a section: a heading by the section, everything else
/// by its place among its kind, counted from one.
pub open spec fn labels(kinds: Seq<BlockKind>, section: Seq<char>) -> Seq<Seq<char>>
    decreases kinds.len(),
{
    if kinds.len() == 0 {
        Seq::empty()
    } else {
        let before = kinds.drop_last();
        labels(before, section).push(
            match kinds.last() {
                BlockKind::Heading => "heading:"@ + section,
                kind => numbered_id(kind, section, of_kind(before, kind) + 1),
            },
        )
    }
}

/// The line of the next heading from line `i` on, where a block may start, or the end.
spec fn next_heading(p: Seq<Seq<char>>, i: int) -> int
    decreases p.len() - i,
    via next_heading_decreases
{
    if i < 0 || i >= p.len() || is_heading(p[i]) {
        i
    } else if is_fence(p[i]) {
        next_heading(p, fence_end(p, i + 1))
    } else if is_blank(p[i]) {
        next_heading(p, i + 1)
    } else {
        next_heading(p, gap_after(p, i))
    }
}

#[via_fn]
proof fn next_heading_decreases(p: Seq<Seq<char>>, i: int) {
    if 0 <= i < p.len() {
        lemma_ends(p, i + 1);
    }
}

/// The kinds of the blocks from line `i` up to the next heading.
spec fn kinds_from(p: Seq<Seq<char>>, i: int) -> Seq<BlockKind>
    decreases p.len() - i,
    via kinds_from_decreases
{
    if i < 0 || i >= p.len() || is_heading(p[i]) {
        Seq::empty()
    } else if is_fence(p[i]) {
        seq![BlockKind::Code] + kinds_from(p, fence_end(p, i + 1))
    } else if is_blank(p[i]) {
        kinds_from(p, i + 1)
    } else {
        seq![opens(p[i])] + kinds_from(p, gap_after(p, i))
    }
}

#[via_fn]
proof fn kinds_from_decreases(p: Seq<Seq<char>>, i: int) {
    if 0 <= i < p.len() {
        lemma_ends(p, i + 1);
    }
}

proof fn lemma_next_heading(p: Seq<Seq<char>>, i: int)
    requires
        0 <= i <= p.len(),
    ensures
        i <= next_heading(p, i) <= p.len(),
        next_heading(p, i) < p.len() ==> is_heading(p[next_heading(p, i)]),
    decreases p.len() - i,
{
    if i < p.len() && !is_heading(p[i]) {
        lemma_ends(p, i + 1);
        if is_fence(p[i]) {
            lemma_next_heading(p, fence_end(p, i + 1));
        } else if is_blank(p[i]) {
            lemma_next_heading(p, i + 1);
        } else {
            lemma_gap_moves(p, i);
            lemma_next_heading(p, gap_after(p, i));
        }
    }
}

proof fn lemma_body_kinds(p: Seq<Seq<char>>, i: int, x: int)
    requires
        0 <= i <= p.len(),
        0 <= x < kinds_from(p, i).len(),
    ensures
        !(kinds_from(p, i)[x] is Heading),
        !(kinds_from(p, i)[x] is FrontMatter),
    decreases p.len() - i,
{
    lemma_ends(p, i + 1);
    if is_fence(p[i]) {
        if x > 0 {
            lemma_body_kinds(p, fence_end(p, i + 1), x - 1);
        }
    } else if is_blank(p[i]) {
        lemma_body_kinds(p, i + 1, x);
    } else {
        lemma_gap_moves(p, i);
        if x > 0 {
            lemma_body_kinds(p, gap_after(p, i), x - 1);
        }
    }
}

/// Where fenced code ends is settled by the lines up to there.
proof fn lemma_fence_within(
    p: Seq<Seq<char>>,
    i: int,
    e: int,
    q: Seq<Seq<char>>,
    k: int,
    f: int,
)
    requires
        0 <= i <= e <= p.len(),
        0 <= k <= f <= q.len(),
        p.subrange(i, e) == q.subrange(k, f),
        fence_end(p, i) <= e,
        fence_end(q, k) <= f,
    ensures
        fence_end(p, i) - i == fence_end(q, k) - k,
    decreases e - i,
{
    assert(p.subrange(i, e).len() == e - i);
    assert(q.subrange(k, f).len() == f - k);
    if i < e {
        assert(p.subrange(i, e)[0] == p[i]);
        assert(q.subrange(k, f)[0] == q[k]);
        if !is_fence(p[i]) {
            assert(p.subrange(i + 1, e) =~= p.subrange(i, e).skip(1));
            assert(q.subrange(k + 1, f) =~= q.subrange(k, f).skip(1));
            lemma_fence_within(p, i + 1, e, q, k + 1, f);
        }
    } else {
        lemma_ends(p, i);
        lemma_ends(q, k);
    }
}

/// Where a run of lines ends in a blank one is settled by the lines up to there.
proof fn lemma_gap_within(p: Seq<Seq<char>>, i: int, e: int, q: Seq<Seq<char>>, k: int, f: int)
    requires
        0 <= i <= e <= p.len(),
        0 <= k <= f <= q.len(),
        p.subrange(i, e) == q.subrange(k, f),
        gap_after(p, i) <= e,
        gap_after(q, k) <= f,
    ensures
        gap_after(p, i) - i == gap_after(q, k) - k,
    decreases e - i,
{
    assert(p.subrange(i, e).len() == e - i);
    assert(q.subrange(k, f).len() == f - k);
    if i < e {
        assert(p.subrange(i, e)[0] == p[i]);
        assert(q.subrange(k, f)[0] == q[k]);
        if !is_blank(p[i]) {
            assert(p.subrange(i + 1, e) =~= p.subrange(i, e).skip(1));
            assert(q.subrange(k + 1, f) =~= q.subrange(k, f).skip(1));
            lemma_gap_within(p, i + 1, e, q, k + 1, f);
        }
    } else {
        lemma_ends(p, i);
        lemma_ends(q, k);
    }
}

/// Two runs of the same lines up to the next heading hold blocks of the same kinds.
proof fn lemma_same_lines_same_kinds(p: Seq<Seq<char>>, i: int, q: Seq<Seq<char>>, k: int)
    requires
        0 <= i <= p.len(),
        0 <= k <= q.len(),
        p.subrange(i, next_heading(p, i)) == q.subrange(k, next_heading(q, k)),
    ensures
        kinds_from(p, i) == kinds_from(q, k),
    decreases p.len() - i,
{
    let (e, f) = (next_heading(p, i), next_heading(q, k));
    lemma_next_heading(p, i);
    lemma_next_heading(q, k);
    let (x, y) = (p.subrange(i, e), q.subrange(k, f));
    assert(x.len() == e - i);
    assert(y.len() == f - k);
    if i < e {
        assert(x[0] == p[i]);
        assert(y[0] == q[k]);
        lemma_ends(p, i + 1);
        lemma_ends(q, k + 1);
        if is_fence(p[i]) {
            let (j, l) = (fence_end(p, i + 1), fence_end(q, k + 1));
            lemma_next_heading(p, j);
            lemma_next_heading(q, l);
            assert(p.subrange(i + 1, e) =~= x.skip(1));
            assert(q.subrange(k + 1, f) =~= y.skip(1));
            lemma_fence_within(p, i + 1, e, q, k + 1, f);
            assert(p.subrange(j, e) =~= x.skip(j - i));
            assert(q.subrange(l, f) =~= y.skip(l - k));
            lemma_same_lines_same_kinds(p, j, q, l);
        } else if is_blank(p[i]) {
            assert(p.subrange(i + 1, e) =~= x.skip(1));
            assert(q.subrange(k + 1, f) =~= y.skip(1));
            lemma_same_lines_same_kinds(p, i + 1, q, k + 1);
        } else {
            lemma_gap_moves(p, i);
            lemma_gap_moves(q, k);
            let (j, l) = (gap_after(p, i), gap_after(q, k));
            lemma_next_heading(p, j);
            lemma_next_heading(q, l);
            lemma_gap_within(p, i, e, q, k, f);
            assert(p.subrange(j, e) =~= x.skip(j - i));
            assert(q.subrange(l, f) =~= y.skip(l - k));
            lemma_same_lines_same_kinds(p, j, q, l);
        }
    } else {
        assert(kinds_from(p, i) =~= Seq::<BlockKind>::empty());
        assert(kinds_from(q, k) =~= Seq::<BlockKind>::empty());
    }
}

/// The blocks found so far stay in front.
proof fn lemma_sofar_stays(
    p: Seq<Seq<char>>,
    i: int,
    section: Seq<char>,
    sofar: Seq<BlockView>,
)
    requires
        0 <= i <= p.len(),
    ensures
        sofar.len() <= blocks_from(p, i, section, sofar).len(),
        blocks_from(p, i, section, sofar).take(sofar.len() as int) == sofar,
{
    let b = blocks_from(p, i, section, sofar);
    let n = sofar.len() as int;
    if n > 0 {
        lemma_blocks_from_extends(p, i, section, sofar, n - 1);
    }
    assert forall|k: int| 0 <= k < n implies b[k] == sofar[k] by {
        lemma_blocks_from_extends(p, i, section, sofar, k);
    }
    assert(b.take(n) =~= sofar);
}

/// Behind a heading the rest of the blocks are those of the lines behind it.
proof fn lemma_resume(
    p: Seq<Seq<char>>,
    i: int,
    section: Seq<char>,
    sofar: Seq<BlockView>,
    k: int,
) -> (l: int)
    requires
        0 <= i <= p.len(),
        sofar.len() <= k < blocks_from(p, i, section, sofar).len(),
        blocks_from(p, i, section, sofar)[k].kind is Heading,
    ensures
        i <= l < p.len(),
        is_heading(p[l]),
        ({
            let b = blocks_from(p, i, section, sofar);
            &&& b[k] == heading_block(p, l)
            &&& blocks_from(p, l + 1, section_of(p[l]), b.take(k + 1)) == b
        }),
    decreases p.len() - i,
{
    let n = sofar.len() as int;
    lemma_ends(p, i + 1);
    if is_heading(p[i]) {
        let x = heading_block(p, i);
        lemma_sofar_stays(p, i + 1, section_of(p[i]), sofar.push(x));
        if k == n {
            i
        } else {
            lemma_resume(p, i + 1, section_of(p[i]), sofar.push(x), k)
        }
    } else if is_fence(p[i]) {
        let j = fence_end(p, i + 1);
        let x = body_block(p, i, j, BlockKind::Code, section, sofar);
        lemma_blocks_from_extends(p, j, section, sofar.push(x), n);
        lemma_resume(p, j, section, sofar.push(x), k)
    } else if is_blank(p[i]) {
        lemma_resume(p, i + 1, section, sofar, k)
    } else {
        lemma_gap_moves(p, i);
        let j = gap_after(p, i);
        let x = body_block(p, i, j, opens(p[i]), section, sofar);
        lemma_blocks_from_extends(p, j, section, sofar.push(x), n);
        lemma_resume(p, j, section, sofar.push(x), k)
    }
}

/// The next heading of the blocks stands on the next heading of the lines.
proof fn lemma_section_ends(
    text: Seq<char>,
    i: int,
    section: Seq<char>,
    b: Seq<BlockView>,
    k: int,
)
    requires
        0 <= i <= pieces_of(text).len(),
        0 <= k < b.len(),
        blocks_from(pieces_of(text), i, section, b.take(k + 1)) == b,
    ensures
        section_end(text, b, k) == offset(pieces_of(text), next_heading(pieces_of(text), i)),
    decreases pieces_of(text).len() - i,
{
    let p = pieces_of(text);
    let sofar = b.take(k + 1);
    if i >= p.len() {
        law_lines_make_the_text(text);
        lemma_offset_slice(p, 0, 0);
    } else if is_heading(p[i]) {
        lemma_blocks_from_extends(
            p,
            i + 1,
            section_of(p[i]),
            sofar.push(heading_block(p, i)),
            k + 1,
        );
    } else if is_blank(p[i]) && !is_fence(p[i]) {
        lemma_section_ends(text, i + 1, section, b, k);
    } else {
        lemma_ends(p, i + 1);
        let (j, kind) = if is_fence(p[i]) {
            (fence_end(p, i + 1), BlockKind::Code)
        } else {
            lemma_gap_moves(p, i);
            (gap_after(p, i), opens(p[i]))
        };
        let x = body_block(p, i, j, kind, section, sofar);
        lemma_blocks_from_extends(p, j, section, sofar.push(x), k + 1);
        assert(b[k + 1] == x);
        assert(b.take(k + 2) =~= sofar.push(x));
        lemma_section_ends(text, j, section, b, k + 1);
    }
}

proof fn lemma_kinds_push(b: Seq<BlockView>, x: BlockView, section: Seq<char>)
    ensures
        kinds_in(b.push(x), section) == if x.section == section {
            kinds_in(b, section).push(x.kind)
        } else {
            kinds_in(b, section)
        },
{
    assert(b.push(x).drop_last() =~= b);
}

/// Past its heading a section holds what stands before the next one, and nothing after that.
proof fn lemma_kinds_of_the_rest(
    p: Seq<Seq<char>>,
    i: int,
    current: Seq<char>,
    sofar: Seq<BlockView>,
    section: Seq<char>,
)
    requires
        0 <= i <= p.len(),
        forall|k: int|
            sofar.len() <= k < blocks_from(p, i, current, sofar).len() && (#[trigger] blocks_from(
                p,
                i,
                current,
                sofar,
            )[k]).kind is Heading ==> blocks_from(p, i, current, sofar)[k].section != section,
    ensures
        kinds_in(blocks_from(p, i, current, sofar), section) == kinds_in(sofar, section) + if current
            == section {
            kinds_from(p, i)
        } else {
            Seq::empty()
        },
    decreases p.len() - i,
{
    let b = blocks_from(p, i, current, sofar);
    let had = kinds_in(sofar, section);
    let n = sofar.len() as int;
    if i >= p.len() {
        assert(had + Seq::<BlockKind>::empty() =~= had);
    } else if is_heading(p[i]) {
        let x = heading_block(p, i);
        let next = section_of(p[i]);
        lemma_blocks_from_extends(p, i + 1, next, sofar.push(x), n);
        assert(b[n] == x);
        lemma_kinds_push(sofar, x, section);
        lemma_kinds_of_the_rest(p, i + 1, next, sofar.push(x), section);
        assert(had + Seq::<BlockKind>::empty() =~= had);
    } else if is_blank(p[i]) && !is_fence(p[i]) {
        lemma_kinds_of_the_rest(p, i + 1, current, sofar, section);
    } else {
        lemma_ends(p, i + 1);
        let (j, kind) = if is_fence(p[i]) {
            (fence_end(p, i + 1), BlockKind::Code)
        } else {
            lemma_gap_moves(p, i);
            (gap_after(p, i), opens(p[i]))
        };
        let x = body_block(p, i, j, kind, current, sofar);
        lemma_kinds_push(sofar, x, section);
        lemma_kinds_of_the_rest(p, j, current, sofar.push(x), section);
        assert(had.push(kind) + kinds_from(p, j) =~= had + (seq![kind] + kinds_from(p, j)));
        assert(had + Seq::<BlockKind>::empty() =~= had);
    }
}

/// Is a section opened by one of these blocks, or the one that a document starts in?
spec fn is_headed(b: Seq<BlockView>, n: int, section: Seq<char>) -> bool {
    section == "root"@ || exists|h: int|
        0 <= h < n && (#[trigger] b[h]).kind is Heading && b[h].section == section
}

spec fn all_headed(b: Seq<BlockView>) -> bool {
    forall|k: int| 0 <= k < b.len() ==> is_headed(b, k + 1, (#[trigger] b[k]).section)
}

proof fn lemma_headed_push(b: Seq<BlockView>, x: BlockView)
    requires
        all_headed(b),
        is_headed(b, b.len() as int, x.section) || x.kind is Heading,
    ensures
        all_headed(b.push(x)),
        forall|s: Seq<char>| #[trigger]
            is_headed(b, b.len() as int, s) ==> is_headed(b.push(x), b.push(x).len() as int, s),
        is_headed(b.push(x), b.push(x).len() as int, x.section),
{
    let c = b.push(x);
    let n = b.len() as int;
    assert(c[n] == x);
    assert forall|s: Seq<char>, m: int| 0 <= m <= n && #[trigger] is_headed(b, m, s) implies {
        &&& is_headed(c, m, s)
        &&& is_headed(c, n + 1, s)
    } by {
        if s != "root"@ {
            let h = choose|h: int|
                0 <= h < m && (#[trigger] b[h]).kind is Heading && b[h].section == s;
            assert(c[h] == b[h]);
        }
    }
    assert forall|k: int| 0 <= k < c.len() implies is_headed(
        c,
        k + 1,
        (#[trigger] c[k]).section,
    ) by {
        if k < n {
            assert(c[k] == b[k]);
            assert(is_headed(b, k + 1, b[k].section));
        }
    }
}

proof fn lemma_blocks_from_headed(
    p: Seq<Seq<char>>,
    i: int,
    section: Seq<char>,
    sofar: Seq<BlockView>,
)
    requires
        0 <= i <= p.len(),
        all_headed(sofar),
        is_headed(sofar, sofar.len() as int, section),
    ensures
        all_headed(blocks_from(p, i, section, sofar)),
    decreases p.len() - i,
{
    if i < p.len() {
        lemma_ends(p, i + 1);
        if is_heading(p[i]) {
            let x = heading_block(p, i);
            lemma_headed_push(sofar, x);
            lemma_blocks_from_headed(p, i + 1, section_of(p[i]), sofar.push(x));
        } else if is_fence(p[i]) {
            let j = fence_end(p, i + 1);
            let x = body_block(p, i, j, BlockKind::Code, section, sofar);
            lemma_headed_push(sofar, x);
            lemma_blocks_from_headed(p, j, section, sofar.push(x));
        } else if is_blank(p[i]) {
            lemma_blocks_from_headed(p, i + 1, section, sofar);
        } else {
            lemma_gap_moves(p, i);
            let j = gap_after(p, i);
            let x = body_block(p, i, j, opens(p[i]), section, sofar);
            lemma_headed_push(sofar, x);
            lemma_blocks_from_headed(p, j, section, sofar.push(x));
        }
    }
}

proof fn lemma_none_in(b: Seq<BlockView>, section: Seq<char>)
    requires
        forall|k: int| 0 <= k < b.len() ==> (#[trigger] b[k]).section != section,
    ensures
        kinds_in(b, section).len() == 0,
    decreases b.len(),
{
    if b.len() > 0 {
        assert(b[b.len() - 1].section != section);
        assert forall|k: int| 0 <= k < b.len() - 1 implies (#[trigger] b.drop_last()[k]).section
            != section by {
            assert(b[k].section != section);
        }
        lemma_none_in(b.drop_last(), section);
    }
}

/// A section with one heading is on a run of lines: its bytes are theirs, and its blocks are the
/// heading and what the lines behind it make up.
proof fn lemma_section_lines(text: Seq<char>, k: int, section: Seq<char>) -> (l: int)
    requires
        section != "root"@,
        heads(blocks_of(pieces_of(text)), k, section),
    ensures
        ({
            let p = pieces_of(text);
            let b = blocks_of(p);
            let e = next_heading(p, l + 1);
            &&& 0 <= l < e <= p.len()
            &&& section_source(text, b, k) == encode_utf8(span(p, l, e))
            &&& kinds_in(b, section) == seq![BlockKind::Heading] + kinds_from(p, l + 1)
        }),
{
    let p = pieces_of(text);
    let b = blocks_of(p);
    let none = Seq::<BlockView>::empty();
    lemma_ends(p, 0);
    let fronted = p.len() > 0 && is_rule(p[0]);
    let (i, sofar) = if fronted {
        lemma_ends(p, 1);
        (rule_end(p, 1), seq![front_block(p)])
    } else {
        (0, none)
    };
    if fronted {
        lemma_headed_push(none, front_block(p));
        assert(none.push(front_block(p)) =~= sofar);
        lemma_blocks_from_extends(p, i, "root"@, sofar, 0);
        assert(b[0] == front_block(p));
    }
    assert(all_headed(sofar));
    lemma_blocks_from_headed(p, i, "root"@, sofar);
    let l = lemma_resume(p, i, "root"@, sofar, k);
    let e = next_heading(p, l + 1);
    let upto = b.take(k + 1);
    let earlier = b.take(k);
    lemma_next_heading(p, l + 1);
    lemma_section_ends(text, l + 1, section, b, k);
    law_lines_make_the_text(text);
    lemma_offset_slice(p, l, e);
    assert forall|x: int| 0 <= x < earlier.len() implies (#[trigger] earlier[x]).section
        != section by {
        assert(earlier[x] == b[x]);
        assert(is_headed(b, x + 1, b[x].section));
        if b[x].section == section {
            let h = choose|h: int|
                0 <= h < x + 1 && (#[trigger] b[h]).kind is Heading && b[h].section == section;
            assert(b[h].section != section);
        }
    }
    lemma_none_in(earlier, section);
    assert(upto =~= earlier.push(b[k]));
    lemma_kinds_push(earlier, b[k], section);
    assert(kinds_in(upto, section) =~= seq![BlockKind::Heading]);
    lemma_kinds_of_the_rest(p, l + 1, section, upto, section);
    l
}

/// A text can be cut into lines in one way only.
proof fn lemma_one_cut(x: Seq<Seq<char>>, y: Seq<Seq<char>>)
    requires
        line_shaped(x),
        line_shaped(y),
        joined(x) == joined(y),
    ensures
        x == y,
    decreases x.len(),
{
    if x.len() > 0 {
        lemma_first_of(x);
    }
    if y.len() > 0 {
        lemma_first_of(y);
    }
    if x.len() > 0 && y.len() > 0 {
        let (u, v) = (joined(x.skip(1)), joined(y.skip(1)));
        assert((x[0] + u).skip(x[0].len() as int) =~= u);
        assert((y[0] + v).skip(y[0].len() as int) =~= v);
        lemma_one_cut(x.skip(1), y.skip(1));
        assert(x =~= seq![x[0]] + x.skip(1));
        assert(y =~= seq![y[0]] + y.skip(1));
    } else if x.len() > 0 {
        assert(joined(x).len() > 0);
    } else if y.len() > 0 {
        assert(joined(y).len() > 0);
    } else {
        assert(x =~= y);
    }
}

proof fn lemma_labels(b: Seq<BlockView>, section: Seq<char>)
    requires
        well_numbered(b),
        forall|x: int|
            0 <= x < kinds_in(b, section).len() ==> !(#[trigger] kinds_in(b, section)[x] is FrontMatter),
    ensures
        ids_in(b, section) == labels(kinds_in(b, section), section),
        forall|kind: BlockKind| #[trigger]
            tally(b, section, kind) == of_kind(kinds_in(b, section), kind),
    decreases b.len(),
{
    if b.len() > 0 {
        let before = b.drop_last();
        let kinds = kinds_in(before, section);
        assert(before.push(b.last()) =~= b);
        lemma_kinds_push(before, b.last(), section);
        assert forall|x: int| 0 <= x < kinds.len() implies !(#[trigger] kinds[x] is FrontMatter) by {
            assert(kinds_in(b, section)[x] == kinds[x]);
        }
        lemma_well_numbered_prefix(b);
        lemma_labels(before, section);
        assert forall|kind: BlockKind| #[trigger] tally(b, section, kind) == of_kind(
            kinds_in(b, section),
            kind,
        ) by {
            assert(tally(before, section, kind) == of_kind(kinds, kind));
            assert(kinds.push(b.last().kind).drop_last() =~= kinds);
        }
        if b.last().section == section {
            let all = kinds_in(b, section);
            assert(all.drop_last() =~= kinds);
            assert(all[all.len() - 1] == b.last().kind);
            assert(b.take(b.len() - 1) =~= before);
            assert(b[b.len() - 1] == b.last());
        }
    }
}

/// A section's text alone says what its blocks are called. Take two documents in which a section,
/// other than the one that a document starts in, has one heading, and in which the text from that
/// heading up to the next is the same. Whatever else differs between them, the section's blocks
/// have the same ids in both, in the same order: the heading goes by the section, and everything
/// else by its place among its kind, counted from one.
pub proof fn law_the_text_of_a_section_names_its_blocks(
    before: Seq<char>,
    after: Seq<char>,
    section: Seq<char>,
    k: int,
    m: int,
)
    requires
        section != "root"@,
        heads(blocks_of(pieces_of(before)), k, section),
        heads(blocks_of(pieces_of(after)), m, section),
        section_source(before, blocks_of(pieces_of(before)), k) == section_source(
            after,
            blocks_of(pieces_of(after)),
            m,
        ),
    ensures
        ids_in(blocks_of(pieces_of(before)), section) == ids_in(
            blocks_of(pieces_of(after)),
            section,
        ),
        ({
            let kinds = kinds_in(blocks_of(pieces_of(after)), section);
            &&& kinds.len() > 0
            &&& kinds[0] is Heading
            &&& forall|x: int| 0 < x < kinds.len() ==> !(#[trigger] kinds[x] is Heading)
            &&& ids_in(blocks_of(pieces_of(after)), section) == labels(kinds, section)
        }),
{
    let (p, q) = (pieces_of(before), pieces_of(after));
    let i = lemma_section_lines(before, k, section);
    let j = lemma_section_lines(after, m, section);
    let (e, f) = (next_heading(p, i + 1), next_heading(q, j + 1));
    encode_utf8_decode_utf8(span(p, i, e));
    encode_utf8_decode_utf8(span(q, j, f));
    lemma_cut_lines(before, i, e);
    lemma_cut_lines(after, j, f);
    let (x, y) = (p.subrange(i, e), q.subrange(j, f));
    lemma_one_cut(x, y);
    assert(p.subrange(i + 1, e) =~= x.skip(1));
    assert(q.subrange(j + 1, f) =~= y.skip(1));
    lemma_same_lines_same_kinds(p, i + 1, q, j + 1);
    let rest = kinds_from(q, j + 1);
    let kinds = kinds_in(blocks_of(q), section);
    assert forall|z: int| 0 < z < kinds.len() implies !(#[trigger] kinds[z] is Heading) && !(
    kinds[z] is FrontMatter) by {
        lemma_body_kinds(q, j + 1, z - 1);
        assert(kinds[z] == rest[z - 1]);
    }
    lemma_blocks_well(p);
    lemma_blocks_well(q);
    lemma_labels(blocks_of(p), section);
    lemma_labels(blocks_of(q), section);
}

} // verus!
