//! What each op does to a document, byte for byte.

use crate::adapter::text_of;
use crate::adapter::Fault;
use crate::adapter::Op;
use crate::doc::after_newlines;
use crate::doc::edits_of;
use crate::doc::edits_of_op;
use crate::doc::front_matter;
use crate::doc::model::document;
use crate::doc::model::find_block;
use crate::doc::model::law_blocks_keep_apart;
use crate::doc::model::law_ranges_slice_back;
use crate::doc::model::BlockView;
use crate::doc::newlines_before;
use crate::doc::rewritten;
use crate::doc::MAX_OP_WORDS;
use crate::splice::law_one_edit_rewrites_one_place;
use crate::splice::law_two_edits_are_both_made;
use crate::splice::Change;
use crate::text::trim_end_of;
use crate::text::trim_of;
use crate::wording::copies;
use crate::wording::skip_char;
use crate::wording::word_total;
use vstd::prelude::*;
use vstd::utf8::encode_utf8;

verus! {

/// The document as text, in bytes.
pub open spec fn source(bytes: Seq<u8>) -> Seq<u8> {
    encode_utf8(text_of(bytes))
}

/// Is the block at a place the first with an id?
pub open spec fn is_first(b: Seq<BlockView>, id: Seq<char>, i: int) -> bool {
    &&& 0 <= i < b.len()
    &&& b[i].id == id
    &&& forall|k: int| 0 <= k < i ==> (#[trigger] b[k]).id != id
}

/// Are the bytes from one place to another newlines, and is the next byte, where there is one,
/// none?
pub open spec fn newlines_fill(src: Seq<u8>, from: int, to: int) -> bool {
    &&& from <= to <= src.len()
    &&& forall|x: int| from <= x < to ==> #[trigger] src[x] == 10u8
    &&& to < src.len() ==> src[to] != 10u8
}

/// Is this the number of newlines directly before a place?
pub open spec fn newlines_end(src: Seq<u8>, end: int, n: nat) -> bool {
    &&& n <= end <= src.len()
    &&& forall|x: int| end - n <= x < end ==> #[trigger] src[x] == 10u8
    &&& n < end ==> src[end - n - 1] != 10u8
}

proof fn lemma_all_kinds_differ()
    ensures
        "replace_block"@ != "insert_block"@,
        "replace_block"@ != "delete_block"@,
        "replace_block"@ != "move_block"@,
        "replace_block"@ != "set_style"@,
        "replace_block"@ != "set_metadata"@,
        "insert_block"@ != "delete_block"@,
        "insert_block"@ != "move_block"@,
        "insert_block"@ != "set_style"@,
        "insert_block"@ != "set_metadata"@,
        "delete_block"@ != "move_block"@,
        "delete_block"@ != "set_style"@,
        "delete_block"@ != "set_metadata"@,
        "move_block"@ != "set_style"@,
        "move_block"@ != "set_metadata"@,
        "set_style"@ != "set_metadata"@,
{
    reveal_strlit("replace_block");
    reveal_strlit("insert_block");
    reveal_strlit("delete_block");
    reveal_strlit("move_block");
    reveal_strlit("set_style");
    reveal_strlit("set_metadata");
    assert("replace_block"@.len() == 13);
    assert("insert_block"@.len() == 12 && "insert_block"@[0] == 'i');
    assert("delete_block"@.len() == 12 && "delete_block"@[0] == 'd');
    assert("move_block"@.len() == 10);
    assert("set_style"@.len() == 9);
    assert("set_metadata"@.len() == 12 && "set_metadata"@[0] == 's');
}

proof fn lemma_find(b: Seq<BlockView>, id: Seq<char>, i: int)
    requires
        is_first(b, id, i),
    ensures
        find_block(b, id) == i,
    decreases b.len(),
{
    let d = b.drop_last();
    if i < b.len() - 1 {
        assert(d[i] == b[i]);
        assert forall|k: int| 0 <= k < i implies (#[trigger] d[k]).id != id by {
            assert(d[k] == b[k]);
        }
        lemma_find(d, id, i);
    } else {
        lemma_not_found(d, id);
    }
}

proof fn lemma_not_found(b: Seq<BlockView>, id: Seq<char>)
    requires
        forall|k: int| 0 <= k < b.len() ==> (#[trigger] b[k]).id != id,
    ensures
        find_block(b, id) == b.len(),
    decreases b.len(),
{
    if b.len() > 0 {
        let d = b.drop_last();
        assert(b[b.len() - 1].id != id);
        assert forall|k: int| 0 <= k < d.len() implies (#[trigger] d[k]).id != id by {
            assert(d[k] == b[k]);
        }
        lemma_not_found(d, id);
    }
}

proof fn lemma_newlines_fill(src: Seq<u8>, end: int)
    requires
        0 <= end <= src.len(),
    ensures
        newlines_fill(src, end, after_newlines(src, end)),
    decreases src.len() - end,
{
    if end < src.len() && src[end] == 10u8 {
        lemma_newlines_fill(src, end + 1);
    }
}

proof fn lemma_newlines_end(src: Seq<u8>, end: int)
    requires
        0 <= end <= src.len(),
    ensures
        newlines_end(src, end, newlines_before(src, end)),
    decreases end,
{
    if end > 0 && src[end - 1] == 10u8 {
        lemma_newlines_end(src, end - 1);
    }
}

proof fn lemma_one_op(bytes: Seq<u8>, op: Op)
    ensures
        edits_of(seq![op], document(bytes), source(bytes)) == edits_of_op(
            &op,
            document(bytes),
            source(bytes),
        ),
{
    let ops = seq![op];
    assert(ops.drop_last() =~= Seq::<Op>::empty());
    let b = document(bytes);
    let src = source(bytes);
    assert(edits_of(ops.drop_last(), b, src) == Ok::<Seq<Change>, Fault>(Seq::empty()));
    if let Ok(more) = edits_of_op(&op, b, src) {
        assert(Seq::<Change>::empty() + more =~= more);
    }
}

proof fn lemma_one_change(bytes: Seq<u8>, op: Op, c: Change)
    requires
        edits_of_op(&op, document(bytes), source(bytes)) == Ok::<Seq<Change>, Fault>(seq![c]),
        0 <= c.start <= c.end <= source(bytes).len(),
    ensures
        rewritten(bytes, seq![op]) == Ok::<Seq<u8>, Fault>(
            source(bytes).take(c.start) + c.text + source(bytes).skip(c.end),
        ),
{
    lemma_one_op(bytes, op);
    law_one_edit_rewrites_one_place(source(bytes), c);
}

/// Replacing a block changes that block and nothing else: what stands before it and behind it is
/// byte for byte as it was, and in between stands the new text, ended by the newlines that the old
/// one ended with.
pub proof fn law_replacing_a_block_changes_nothing_else(bytes: Seq<u8>, op: Op, i: int, n: nat)
    requires
        op.text("op"@) == Some("replace_block"@),
        op.text("block"@) is Some,
        op.text("text"@) is Some,
        word_total(op.text("text"@)->0) <= MAX_OP_WORDS,
        is_first(document(bytes), op.text("block"@)->0, i),
        newlines_end(source(bytes), document(bytes)[i].end, n),
    ensures
        rewritten(bytes, seq![op]) == Ok::<Seq<u8>, Fault>(
            source(bytes).take(document(bytes)[i].start) + encode_utf8(
                trim_end_of(op.text("text"@)->0) + copies('\n', n),
            ) + source(bytes).skip(document(bytes)[i].end),
        ),
{
    let b = document(bytes);
    let src = source(bytes);
    lemma_all_kinds_differ();
    lemma_find(b, op.text("block"@)->0, i);
    law_ranges_slice_back(text_of(bytes), i);
    lemma_newlines_end(src, b[i].end);
    lemma_same_count(src, b[i].end, n, newlines_before(src, b[i].end));
    let c = edits_of_op(&op, b, src)->Ok_0[0];
    lemma_one_change(bytes, op, c);
}

proof fn lemma_same_count(src: Seq<u8>, end: int, n: nat, m: nat)
    requires
        newlines_end(src, end, n),
        newlines_end(src, end, m),
    ensures
        n == m,
{
    if n < m {
        assert(src[end - n - 1] == 10u8);
    } else if m < n {
        assert(src[end - m - 1] == 10u8);
    }
}

/// Inserting a block leaves every byte of the document: what stood up to the end of the block that
/// it goes behind still stands there, the new text follows as a block of its own, parted by a
/// blank line, and what followed follows it.
pub proof fn law_inserting_a_block_keeps_every_byte(bytes: Seq<u8>, op: Op, i: int)
    requires
        op.text("op"@) == Some("insert_block"@),
        op.text("after"@) is Some,
        op.text("after"@)->0 != "start"@,
        op.text("text"@) is Some,
        word_total(op.text("text"@)->0) <= MAX_OP_WORDS,
        is_first(document(bytes), op.text("after"@)->0, i),
    ensures
        ({
            let src = source(bytes);
            let end = document(bytes)[i].end;
            rewritten(bytes, seq![op]) == Ok::<Seq<u8>, Fault>(
                src.take(end) + encode_utf8(
                    (if end > 0 && src[end - 1] == 10u8 {
                        "\n"@
                    } else {
                        "\n\n"@
                    }) + trim_end_of(op.text("text"@)->0) + "\n"@,
                ) + src.skip(end),
            )
        }),
{
    let b = document(bytes);
    let src = source(bytes);
    lemma_all_kinds_differ();
    lemma_find(b, op.text("after"@)->0, i);
    law_ranges_slice_back(text_of(bytes), i);
    let c = edits_of_op(&op, b, src)->Ok_0[0];
    lemma_one_change(bytes, op, c);
}

/// A block inserted at the start comes before everything else.
pub proof fn law_a_block_can_come_first(bytes: Seq<u8>, op: Op)
    requires
        op.text("op"@) == Some("insert_block"@),
        op.text("after"@) == Some("start"@),
        op.text("text"@) is Some,
        word_total(op.text("text"@)->0) <= MAX_OP_WORDS,
    ensures
        rewritten(bytes, seq![op]) == Ok::<Seq<u8>, Fault>(
            encode_utf8(trim_end_of(op.text("text"@)->0) + "\n\n"@) + source(bytes),
        ),
{
    let src = source(bytes);
    lemma_all_kinds_differ();
    let c = edits_of_op(&op, document(bytes), src)->Ok_0[0];
    lemma_one_change(bytes, op, c);
    assert(src.take(0) + c.text + src.skip(0) =~= c.text + src);
}

/// Deleting a block takes the block and the newlines behind it, and nothing else.
pub proof fn law_deleting_a_block_takes_only_that_block(bytes: Seq<u8>, op: Op, i: int, to: int)
    requires
        op.text("op"@) == Some("delete_block"@),
        op.text("block"@) is Some,
        is_first(document(bytes), op.text("block"@)->0, i),
        newlines_fill(source(bytes), document(bytes)[i].end, to),
    ensures
        rewritten(bytes, seq![op]) == Ok::<Seq<u8>, Fault>(
            source(bytes).take(document(bytes)[i].start) + source(bytes).skip(to),
        ),
{
    let b = document(bytes);
    let src = source(bytes);
    lemma_all_kinds_differ();
    lemma_find(b, op.text("block"@)->0, i);
    law_ranges_slice_back(text_of(bytes), i);
    lemma_newlines_fill(src, b[i].end);
    lemma_same_fill(src, b[i].end, to, after_newlines(src, b[i].end));
    let c = edits_of_op(&op, b, src)->Ok_0[0];
    lemma_one_change(bytes, op, c);
    lemma_no_text();
    assert(src.take(c.start) + c.text + src.skip(c.end) =~= src.take(c.start) + src.skip(c.end));
}

proof fn lemma_no_text()
    ensures
        encode_utf8(Seq::<char>::empty()) == Seq::<u8>::empty(),
{
    let none = Seq::<char>::empty();
    crate::utf8::lemma_encode_add(none, none);
    assert(none + none =~= none);
    assert(encode_utf8(none).len() == 0);
    assert(encode_utf8(none) =~= Seq::<u8>::empty());
}

proof fn lemma_same_fill(src: Seq<u8>, from: int, a: int, b: int)
    requires
        newlines_fill(src, from, a),
        newlines_fill(src, from, b),
    ensures
        a == b,
{
    if a < b {
        assert(src[a] == 10u8);
    } else if b < a {
        assert(src[b] == 10u8);
    }
}

/// Moving a block loses nothing and doubles nothing. The block's own bytes, with the newlines
/// behind them, are gone from where they stood; its own text stands directly behind the block that
/// it was moved behind, parted by a blank line; and every other byte is there as it was, in its
/// order. The text that comes in is the one that went out.
pub proof fn law_moving_a_block_keeps_every_block(bytes: Seq<u8>, op: Op, i: int, k: int, to: int)
    requires
        op.text("op"@) == Some("move_block"@),
        op.text("block"@) is Some,
        op.text("after"@) is Some,
        is_first(document(bytes), op.text("block"@)->0, i),
        is_first(document(bytes), op.text("after"@)->0, k),
        i != k,
        newlines_fill(source(bytes), document(bytes)[i].end, to),
        i < k ==> exists|x: int|
            document(bytes)[k].start <= x < document(bytes)[k].end && #[trigger] source(bytes)[x]
                != 10u8,
    ensures
        ({
            let src = source(bytes);
            let (moved, other) = (document(bytes)[i], document(bytes)[k]);
            let text = encode_utf8("\n\n"@ + moved.text + "\n"@);
            rewritten(bytes, seq![op]) == Ok::<Seq<u8>, Fault>(
                if i < k {
                    src.take(moved.start) + src.subrange(to, other.end) + text + src.skip(other.end)
                } else {
                    src.take(other.end) + text + src.subrange(other.end, moved.start) + src.skip(to)
                },
            )
        }),
        exists|u: Seq<char>|
            source(bytes).subrange(document(bytes)[i].start, document(bytes)[i].end)
                == #[trigger] encode_utf8(u) && trim_end_of(u) == trim_end_of(
                document(bytes)[i].text,
            ),
{
    let b = document(bytes);
    let src = source(bytes);
    let text = text_of(bytes);
    lemma_all_kinds_differ();
    lemma_find(b, op.text("block"@)->0, i);
    lemma_find(b, op.text("after"@)->0, k);
    law_ranges_slice_back(text, i);
    law_ranges_slice_back(text, k);
    lemma_newlines_fill(src, b[i].end);
    lemma_same_fill(src, b[i].end, to, after_newlines(src, b[i].end));
    if b[i].id == b[k].id {
        if i < k {
            assert(b[i].id != op.text("after"@)->0);
        } else {
            assert(b[k].id != op.text("block"@)->0);
        }
    }
    let e = edits_of_op(&op, b, src)->Ok_0;
    lemma_one_op(bytes, op);
    lemma_no_text();
    assert(e =~= seq![e[0], e[1]]);
    if i < k {
        law_blocks_keep_apart(text, i, k);
        let x = choose|x: int| b[k].start <= x < b[k].end && #[trigger] src[x] != 10u8;
        assert(to <= x);
        law_two_edits_are_both_made(src, e[0], e[1]);
        assert(src.take(b[i].start) + e[0].text + src.subrange(to, b[k].end) + e[1].text + src.skip(
            b[k].end,
        ) =~= src.take(b[i].start) + src.subrange(to, b[k].end) + e[1].text + src.skip(b[k].end));
    } else {
        law_blocks_keep_apart(text, k, i);
        law_two_edits_are_both_made(src, e[1], e[0]);
        assert(src.take(b[k].end) + e[1].text + src.subrange(b[k].end, b[i].start) + e[0].text
            + src.skip(to) =~= src.take(b[k].end) + e[1].text + src.subrange(
            b[k].end,
            b[i].start,
        ) + src.skip(to));
    }
}

/// A heading keeps its title when its level is set, and nothing else of the document changes.
pub proof fn law_setting_a_level_keeps_the_title(bytes: Seq<u8>, op: Op, i: int, n: nat)
    requires
        op.text("op"@) == Some("set_style"@),
        op.text("block"@) is Some,
        op.whole("level"@) is Some,
        op.whole("level"@)->0 <= usize::MAX,
        is_first(document(bytes), op.text("block"@)->0, i),
        document(bytes)[i].kind is Heading,
        newlines_end(source(bytes), document(bytes)[i].end, n),
    ensures
        rewritten(bytes, seq![op]) == Ok::<Seq<u8>, Fault>(
            source(bytes).take(document(bytes)[i].start) + encode_utf8(
                copies('#', op.whole("level"@)->0 as nat) + " "@ + trim_of(
                    skip_char(document(bytes)[i].text, '#'),
                ) + copies('\n', n),
            ) + source(bytes).skip(document(bytes)[i].end),
        ),
{
    let b = document(bytes);
    let src = source(bytes);
    lemma_all_kinds_differ();
    lemma_find(b, op.text("block"@)->0, i);
    law_ranges_slice_back(text_of(bytes), i);
    lemma_newlines_end(src, b[i].end);
    lemma_same_count(src, b[i].end, n, newlines_before(src, b[i].end));
    let c = edits_of_op(&op, b, src)->Ok_0[0];
    lemma_one_change(bytes, op, c);
}

proof fn lemma_no_front(b: Seq<BlockView>)
    requires
        forall|k: int| 0 <= k < b.len() ==> !((#[trigger] b[k]).kind is FrontMatter),
    ensures
        front_matter(b) == b.len(),
    decreases b.len(),
{
    if b.len() > 0 {
        let d = b.drop_last();
        assert(!(b[b.len() - 1].kind is FrontMatter));
        assert forall|k: int| 0 <= k < d.len() implies !((#[trigger] d[k]).kind is FrontMatter) by {
            assert(d[k] == b[k]);
        }
        lemma_no_front(d);
    }
}

/// A document without front matter gets it in front, and keeps every byte that it had.
pub proof fn law_metadata_comes_first(bytes: Seq<u8>, op: Op)
    requires
        op.text("op"@) == Some("set_metadata"@),
        op.text("text"@) is Some,
        word_total(op.text("text"@)->0) <= MAX_OP_WORDS,
        forall|k: int|
            0 <= k < document(bytes).len() ==> !((#[trigger] document(bytes)[k]).kind
                is FrontMatter),
    ensures
        rewritten(bytes, seq![op]) == Ok::<Seq<u8>, Fault>(
            encode_utf8("---\n"@ + trim_of(op.text("text"@)->0) + "\n---\n\n"@) + source(bytes),
        ),
{
    let src = source(bytes);
    lemma_all_kinds_differ();
    lemma_no_front(document(bytes));
    let c = edits_of_op(&op, document(bytes), src)->Ok_0[0];
    lemma_one_change(bytes, op, c);
    assert(src.take(0) + c.text + src.skip(0) =~= c.text + src);
}

} // verus!
