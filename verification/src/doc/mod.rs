//! Documents as typed blocks under headings.
//!
//! The adapter edits whole blocks. An op names the block it changes, its text is short, and the
//! rest of the document comes out byte for byte as it went in. Pages are the impact unit: a changed
//! block re-renders the pages it is on, not the document.

pub mod changes;
pub mod model;
pub mod rungs;
pub mod sections;

use crate::adapter::bad_op;
use crate::adapter::delta_between;
use crate::adapter::delta_from;
use crate::adapter::delta_of;
use crate::adapter::delta_since;
use crate::adapter::fitted;
use crate::adapter::text_of;
use crate::adapter::unknown;
use crate::adapter::with_part;
use crate::adapter::Adapter;
use crate::adapter::AdapterError;
use crate::adapter::Applied;
use crate::adapter::Artifact;
use crate::adapter::Delta;
use crate::adapter::Entity;
use crate::adapter::EntityView;
use crate::adapter::Fault;
use crate::adapter::ImpactSet;
use crate::adapter::ImpactView;
use crate::adapter::Op;
use crate::adapter::Outline;
use crate::adapter::Pack;
use crate::adapter::PackRequest;
use crate::adapter::Part;
use crate::splice::changes;
use crate::splice::splice;
use crate::splice::spliced;
use crate::splice::Change;
use crate::splice::Edit;
use crate::splice::SpliceError;
use crate::splice::Spliced;
use crate::text::decimal;
use crate::text::ends;
use crate::text::ends_with;
use crate::text::join;
use crate::text::join_of;
use crate::text::same;
use crate::text::show;
use crate::text::texts;
use crate::text::trim;
use crate::text::trim_end;
use crate::text::trim_end_of;
use crate::text::trim_of;
use crate::wording::copies;
use crate::wording::count_words;
use crate::wording::lower_of;
use crate::wording::repeat;
use crate::wording::skip_char;
use crate::wording::strip_leading;
use crate::wording::to_lower;
use crate::wording::word_total;
use model::block_position;
use model::block_views;
use model::dirty_pages;
use model::document;
use model::find_block;
use model::kind_of_tag;
use model::layout;
use model::lemma_block_bounds;
use model::outline_of;
use model::pages_for;
use model::paginate;
use model::Block;
use model::BlockKind;
use model::BlockView;
use rungs::DocRung;
use rungs::FullRender;
use rungs::Lint;
use rungs::RenderChangedPages;
use rungs::TreeValid;
use rungs::VisionCheck;
use vstd::prelude::*;
use vstd::utf8::encode_utf8;

verus! {

/// How many words one op may carry.
pub const MAX_OP_WORDS: usize = 400;

/// What the executor model may emit for a document.
pub const OP_SCHEMA: &'static str = r#"{
  "$schema": "https://json-schema.org/draft/2020-12/schema",
  "title": "flash doc ops",
  "type": "array",
  "minItems": 1,
  "maxItems": 64,
  "items": {
    "type": "object",
    "required": [
      "op"
    ],
    "oneOf": [
      {
        "properties": {
          "op": {
            "const": "replace_block"
          },
          "block": {
            "type": "string"
          },
          "text": {
            "type": "string"
          }
        },
        "required": [
          "op",
          "block",
          "text"
        ],
        "additionalProperties": false
      },
      {
        "properties": {
          "op": {
            "const": "insert_block"
          },
          "after": {
            "type": "string",
            "description": "block id, or \"start\""
          },
          "text": {
            "type": "string"
          }
        },
        "required": [
          "op",
          "after",
          "text"
        ],
        "additionalProperties": false
      },
      {
        "properties": {
          "op": {
            "const": "delete_block"
          },
          "block": {
            "type": "string"
          }
        },
        "required": [
          "op",
          "block"
        ],
        "additionalProperties": false
      },
      {
        "properties": {
          "op": {
            "const": "move_block"
          },
          "block": {
            "type": "string"
          },
          "after": {
            "type": "string"
          }
        },
        "required": [
          "op",
          "block",
          "after"
        ],
        "additionalProperties": false
      },
      {
        "properties": {
          "op": {
            "const": "set_style"
          },
          "block": {
            "type": "string"
          },
          "level": {
            "type": "integer",
            "minimum": 1,
            "maximum": 6
          }
        },
        "required": [
          "op",
          "block",
          "level"
        ],
        "additionalProperties": false
      },
      {
        "properties": {
          "op": {
            "const": "set_metadata"
          },
          "text": {
            "type": "string"
          }
        },
        "required": [
          "op",
          "text"
        ],
        "additionalProperties": false
      }
    ]
  }
}"#;

pub struct DocAdapter;

impl Default for DocAdapter {
    fn default() -> (r: Self)
        ensures
            r == DocAdapter,
    {
        DocAdapter
    }
}

/// How many newlines stand directly before position `end`.
pub open spec fn newlines_before(src: Seq<u8>, end: int) -> nat
    decreases end,
{
    if end <= 0 || end > src.len() || src[end - 1] != 10u8 {
        0
    } else {
        1 + newlines_before(src, end - 1)
    }
}

/// Where the run of newlines that starts at `end` is over.
pub open spec fn after_newlines(src: Seq<u8>, end: int) -> int
    decreases src.len() - end,
{
    if end < 0 || end >= src.len() || src[end] != 10u8 {
        end
    } else {
        after_newlines(src, end + 1)
    }
}

/// The newlines that a block's byte range ends with.
///
/// A block's range takes in the newline that ends it but not the blank line that separates it from
/// the next block. Replacing a block with text that has lost that newline would glue it to
/// whatever follows.
pub open spec fn trail(src: Seq<u8>, end: int) -> Seq<char> {
    copies('\n', newlines_before(src, end))
}

/// The fault of an op text that is too long, where it is.
pub open spec fn too_long(text: Seq<char>) -> Option<Fault> {
    if word_total(text) > MAX_OP_WORDS {
        Some(
            Fault::BadOp(
                "op text is "@ + decimal(word_total(text)) + " words, over the "@ + decimal(
                    MAX_OP_WORDS as nat,
                ) + " word cap: a long section is many ops, which stream in and paint live"@,
            ),
        )
    } else {
        None
    }
}

/// A change of the bytes from `start` to `end` into a text.
pub open spec fn rewrite(start: int, end: int, text: Seq<char>) -> Change {
    Change { start, end, text: encode_utf8(text) }
}

/// The edits that a `replace_block` op makes.
pub open spec fn replace_block(op: &Op, b: Seq<BlockView>, src: Seq<u8>) -> Result<
    Seq<Change>,
    Fault,
> {
    match op.demand("block"@) {
        Err(e) => Err(e),
        Ok(id) => match op.demand("text"@) {
            Err(e) => Err(e),
            Ok(text) => match too_long(text) {
                Some(e) => Err(e),
                None => {
                    let i = find_block(b, id);
                    if i < b.len() {
                        Ok(
                            seq![
                                rewrite(
                                    b[i].start,
                                    b[i].end,
                                    trim_end_of(text) + trail(src, b[i].end),
                                ),
                            ],
                        )
                    } else {
                        Err(Fault::UnknownEntity(id))
                    }
                },
            },
        },
    }
}

/// The edits that an `insert_block` op makes.
pub open spec fn insert_block(op: &Op, b: Seq<BlockView>, src: Seq<u8>) -> Result<
    Seq<Change>,
    Fault,
> {
    match op.demand("after"@) {
        Err(e) => Err(e),
        Ok(after) => match op.demand("text"@) {
            Err(e) => Err(e),
            Ok(text) => match too_long(text) {
                Some(e) => Err(e),
                None => if after == "start"@ {
                    Ok(seq![rewrite(0, 0, trim_end_of(text) + "\n\n"@)])
                } else {
                    let i = find_block(b, after);
                    if i < b.len() {
                        let opener = if newlines_before(src, b[i].end) == 0 {
                            "\n\n"@
                        } else {
                            "\n"@
                        };
                        Ok(
                            seq![
                                rewrite(
                                    b[i].end,
                                    b[i].end,
                                    opener + trim_end_of(text) + "\n"@,
                                ),
                            ],
                        )
                    } else {
                        Err(Fault::UnknownEntity(after))
                    }
                },
            },
        },
    }
}

/// The edits that a `delete_block` op makes: the block goes, and the newlines after it.
pub open spec fn delete_block(op: &Op, b: Seq<BlockView>, src: Seq<u8>) -> Result<
    Seq<Change>,
    Fault,
> {
    match op.demand("block"@) {
        Err(e) => Err(e),
        Ok(id) => {
            let i = find_block(b, id);
            if i < b.len() {
                Ok(seq![rewrite(b[i].start, after_newlines(src, b[i].end), Seq::empty())])
            } else {
                Err(Fault::UnknownEntity(id))
            }
        },
    }
}

/// The edits that a `move_block` op makes: the block goes from its place and comes in after the
/// other.
pub open spec fn move_block(op: &Op, b: Seq<BlockView>, src: Seq<u8>) -> Result<
    Seq<Change>,
    Fault,
> {
    match op.demand("block"@) {
        Err(e) => Err(e),
        Ok(id) => match op.demand("after"@) {
            Err(e) => Err(e),
            Ok(after) => {
                let i = find_block(b, id);
                let k = find_block(b, after);
                if i >= b.len() {
                    Err(Fault::UnknownEntity(id))
                } else if k >= b.len() {
                    Err(Fault::UnknownEntity(after))
                } else if b[i].id == b[k].id {
                    Err(Fault::BadOp("a block cannot move after itself"@))
                } else {
                    Ok(
                        seq![
                            rewrite(b[i].start, after_newlines(src, b[i].end), Seq::empty()),
                            rewrite(b[k].end, b[k].end, "\n\n"@ + b[i].text + "\n"@),
                        ],
                    )
                }
            },
        },
    }
}

/// The edits that a `set_style` op makes.
pub open spec fn set_style(op: &Op, b: Seq<BlockView>, src: Seq<u8>) -> Result<
    Seq<Change>,
    Fault,
> {
    match op.demand("block"@) {
        Err(e) => Err(e),
        Ok(id) => match op.whole("level"@) {
            None => Err(Fault::BadOp("set_style needs a level"@)),
            Some(level) => {
                let i = find_block(b, id);
                if i >= b.len() {
                    Err(Fault::UnknownEntity(id))
                } else if b[i].kind != BlockKind::Heading {
                    Err(Fault::BadOp(id + " is not a heading"@))
                } else {
                    Ok(
                        seq![
                            rewrite(
                                b[i].start,
                                b[i].end,
                                copies('#', (level as usize) as nat) + " "@ + trim_of(
                                    skip_char(b[i].text, '#'),
                                ) + trail(src, b[i].end),
                            ),
                        ],
                    )
                }
            },
        },
    }
}

/// The position of the first front matter, or the number of blocks.
pub open spec fn front_matter(b: Seq<BlockView>) -> int
    decreases b.len(),
{
    if b.len() == 0 {
        0
    } else {
        let r = front_matter(b.drop_last());
        if r < b.len() - 1 {
            r
        } else if b.last().kind == BlockKind::FrontMatter {
            b.len() - 1
        } else {
            b.len() as int
        }
    }
}

/// The edits that a `set_metadata` op makes.
pub open spec fn set_metadata(op: &Op, b: Seq<BlockView>, src: Seq<u8>) -> Result<
    Seq<Change>,
    Fault,
> {
    match op.demand("text"@) {
        Err(e) => Err(e),
        Ok(text) => match too_long(text) {
            Some(e) => Err(e),
            None => {
                let i = front_matter(b);
                let body = "---\n"@ + trim_of(text);
                if i < b.len() {
                    Ok(
                        seq![
                            rewrite(
                                b[i].start,
                                b[i].end,
                                body + "\n---"@ + trail(src, b[i].end),
                            ),
                        ],
                    )
                } else {
                    Ok(seq![rewrite(0, 0, body + "\n---\n\n"@)])
                }
            },
        },
    }
}

/// The edits that one op makes in a document of these blocks.
pub open spec fn edits_of_op(op: &Op, b: Seq<BlockView>, src: Seq<u8>) -> Result<
    Seq<Change>,
    Fault,
> {
    match op.text("op"@) {
        None => Err(Fault::BadOp("unknown op "@ + "<missing>"@)),
        Some(k) => if k == "replace_block"@ {
            replace_block(op, b, src)
        } else if k == "insert_block"@ {
            insert_block(op, b, src)
        } else if k == "delete_block"@ {
            delete_block(op, b, src)
        } else if k == "move_block"@ {
            move_block(op, b, src)
        } else if k == "set_style"@ {
            set_style(op, b, src)
        } else if k == "set_metadata"@ {
            set_metadata(op, b, src)
        } else {
            Err(Fault::BadOp("unknown op "@ + k))
        },
    }
}

/// The edits that a batch of ops makes, or the fault of the first op that is refused.
pub open spec fn edits_of(ops: Seq<Op>, b: Seq<BlockView>, src: Seq<u8>) -> Result<
    Seq<Change>,
    Fault,
>
    decreases ops.len(),
{
    if ops.len() == 0 {
        Ok(Seq::empty())
    } else {
        match edits_of(ops.drop_last(), b, src) {
            Err(e) => Err(e),
            Ok(sofar) => match edits_of_op(&ops.last(), b, src) {
                Err(e) => Err(e),
                Ok(more) => Ok(sofar + more),
            },
        }
    }
}

/// The content that a batch of ops makes of some content, or the fault that refuses the batch.
pub open spec fn rewritten(bytes: Seq<u8>, ops: Seq<Op>) -> Result<Seq<u8>, Fault> {
    let src = encode_utf8(text_of(bytes));
    if ops.len() == 0 {
        Err(Fault::BadOp("empty op batch"@))
    } else {
        match edits_of(ops, document(bytes), src) {
            Err(e) => Err(e),
            Ok(edits) => match spliced(src, edits) {
                Spliced::Done(out) => Ok(out),
                Spliced::Overlap { a, b } => Err(Fault::BadOp("two ops edit overlapping blocks"@)),
                Spliced::Outside => Err(Fault::BadOp("op range is outside the document"@)),
            },
        }
    }
}

fn count_trail(src: &[u8], end: usize) -> (n: usize)
    requires
        end <= src@.len(),
    ensures
        n == newlines_before(src@, end as int),
{
    let mut n: usize = 0;
    while n < end && src[end - 1 - n] == 10u8
        invariant
            n <= end <= src@.len(),
            newlines_before(src@, end as int) == n + newlines_before(src@, end - n),
        decreases end - n,
    {
        n += 1;
    }
    n
}

fn skip_newlines(src: &[u8], end: usize) -> (r: usize)
    requires
        end <= src@.len(),
    ensures
        r == after_newlines(src@, end as int),
        end <= r <= src@.len(),
{
    let mut r: usize = end;
    while r < src.len() && src[r] == 10u8
        invariant
            end <= r <= src@.len(),
            after_newlines(src@, end as int) == after_newlines(src@, r as int),
        decreases src@.len() - r,
    {
        r += 1;
    }
    r
}

fn check_words(text: &str) -> (r: Result<(), AdapterError>)
    ensures
        r is Ok <==> too_long(text@) is None,
        r matches Err(e) ==> too_long(text@) == Some(e@),
{
    let words: usize = count_words(text);
    if words > MAX_OP_WORDS {
        let mut m = "op text is ".to_owned();
        let w = show(words as u64);
        m.push_str(w.as_str());
        m.push_str(" words, over the ");
        let c = show(MAX_OP_WORDS as u64);
        m.push_str(c.as_str());
        m.push_str(" word cap: a long section is many ops, which stream in and paint live");
        return Err(AdapterError::BadOp(m));
    }
    Ok(())
}

fn rewriting(start: usize, end: usize, text: &str) -> (e: Edit)
    ensures
        e@ == rewrite(start as int, end as int, text@),
{
    Edit { start, end, text: vstd::slice::slice_to_vec(text.as_bytes()) }
}

fn add_edit(edits: &mut Vec<Edit>, e: Edit)
    ensures
        changes(final(edits)@) == changes(old(edits)@).push(e@),
{
    let ghost before = changes(edits@);
    edits.push(e);
    assert(changes(edits@) =~= before.push(e@));
}

fn front_position(b: &Vec<Block>) -> (i: usize)
    ensures
        i == front_matter(block_views(b@)),
        i <= b@.len(),
{
    let ghost all = block_views(b@);
    let mut i: usize = 0;
    assert(all.take(0) =~= Seq::<BlockView>::empty());
    while i < b.len()
        invariant
            i <= b@.len(),
            all == block_views(b@),
            front_matter(all.take(i as int)) == i,
        decreases b@.len() - i,
    {
        let ghost nn = all.take(i + 1);
        assert(nn.drop_last() =~= all.take(i as int));
        assert(nn.last() == b@[i as int]@);
        if b[i].kind == BlockKind::FrontMatter {
            proof {
                lemma_front_matter_prefix(all, i + 1);
            }
            return i;
        }
        i += 1;
    }
    assert(all.take(i as int) =~= all);
    i
}

proof fn lemma_front_matter_prefix(b: Seq<BlockView>, n: int)
    requires
        0 <= n <= b.len(),
    ensures
        front_matter(b.take(n)) < n ==> front_matter(b) == front_matter(b.take(n)),
    decreases b.len(),
{
    if n == b.len() {
        assert(b.take(n) =~= b);
    } else {
        lemma_front_matter_prefix(b.drop_last(), n);
        assert(b.drop_last().take(n) =~= b.take(n));
    }
}

/// The blocks end within the bytes.
spec fn bounded(b: Seq<BlockView>, src: Seq<u8>) -> bool {
    forall|k: int| 0 <= k < b.len() ==> 0 <= (#[trigger] b[k]).start && b[k].end <= src.len()
}

fn do_replace_block(op: &Op, b: &Vec<Block>, src: &[u8], edits: &mut Vec<Edit>) -> (r: Result<
    (),
    AdapterError,
>)
    requires
        bounded(block_views(b@), src@),
    ensures
        match r {
            Ok(_) => replace_block(op, block_views(b@), src@) is Ok && changes(final(edits)@)
                == changes(old(edits)@) + replace_block(op, block_views(b@), src@)->Ok_0,
            Err(e) => replace_block(op, block_views(b@), src@) == Err::<Seq<Change>, Fault>(e@),
        },
{
    let id = op.str_field("block")?;
    let text = op.str_field("text")?;
    check_words(text)?;
    let i: usize = block_position(b, id);
    if i == b.len() {
        return Err(unknown(id));
    }
    assert(block_views(b@)[i as int] == b@[i as int]@);
    let n: usize = count_trail(src, b[i].end);
    let mut t = trim_end(text);
    let tail = repeat('\n', n);
    t.push_str(tail.as_str());
    let ghost before = changes(edits@);
    add_edit(edits, rewriting(b[i].start, b[i].end, t.as_str()));
    assert(changes(edits@) =~= before + replace_block(op, block_views(b@), src@)->Ok_0);
    Ok(())
}

fn do_insert_block(op: &Op, b: &Vec<Block>, src: &[u8], edits: &mut Vec<Edit>) -> (r: Result<
    (),
    AdapterError,
>)
    requires
        bounded(block_views(b@), src@),
    ensures
        match r {
            Ok(_) => insert_block(op, block_views(b@), src@) is Ok && changes(final(edits)@)
                == changes(old(edits)@) + insert_block(op, block_views(b@), src@)->Ok_0,
            Err(e) => insert_block(op, block_views(b@), src@) == Err::<Seq<Change>, Fault>(e@),
        },
{
    let after = op.str_field("after")?;
    let text = op.str_field("text")?;
    check_words(text)?;
    let ghost before = changes(edits@);
    let body = trim_end(text);
    if same(after, "start") {
        let mut t = body;
        t.push_str("\n\n");
        add_edit(edits, rewriting(0, 0, t.as_str()));
    } else {
        let i: usize = block_position(b, after);
        if i == b.len() {
            return Err(unknown(after));
        }
        assert(block_views(b@)[i as int] == b@[i as int]@);
        let n: usize = count_trail(src, b[i].end);
        let mut t = (if n == 0 { "\n\n" } else { "\n" }).to_owned();
        t.push_str(body.as_str());
        t.push_str("\n");
        add_edit(edits, rewriting(b[i].end, b[i].end, t.as_str()));
    }
    assert(changes(edits@) =~= before + insert_block(op, block_views(b@), src@)->Ok_0);
    Ok(())
}

fn do_delete_block(op: &Op, b: &Vec<Block>, src: &[u8], edits: &mut Vec<Edit>) -> (r: Result<
    (),
    AdapterError,
>)
    requires
        bounded(block_views(b@), src@),
    ensures
        match r {
            Ok(_) => delete_block(op, block_views(b@), src@) is Ok && changes(final(edits)@)
                == changes(old(edits)@) + delete_block(op, block_views(b@), src@)->Ok_0,
            Err(e) => delete_block(op, block_views(b@), src@) == Err::<Seq<Change>, Fault>(e@),
        },
{
    let id = op.str_field("block")?;
    let i: usize = block_position(b, id);
    if i == b.len() {
        return Err(unknown(id));
    }
    assert(block_views(b@)[i as int] == b@[i as int]@);
    let end: usize = skip_newlines(src, b[i].end);
    let ghost before = changes(edits@);
    let none = String::new();
    add_edit(edits, rewriting(b[i].start, end, none.as_str()));
    assert(changes(edits@) =~= before + delete_block(op, block_views(b@), src@)->Ok_0);
    Ok(())
}

fn do_move_block(op: &Op, b: &Vec<Block>, src: &[u8], edits: &mut Vec<Edit>) -> (r: Result<
    (),
    AdapterError,
>)
    requires
        bounded(block_views(b@), src@),
    ensures
        match r {
            Ok(_) => move_block(op, block_views(b@), src@) is Ok && changes(final(edits)@)
                == changes(old(edits)@) + move_block(op, block_views(b@), src@)->Ok_0,
            Err(e) => move_block(op, block_views(b@), src@) == Err::<Seq<Change>, Fault>(e@),
        },
{
    let id = op.str_field("block")?;
    let after = op.str_field("after")?;
    let i: usize = block_position(b, id);
    if i == b.len() {
        return Err(unknown(id));
    }
    let k: usize = block_position(b, after);
    if k == b.len() {
        return Err(unknown(after));
    }
    assert(block_views(b@)[i as int] == b@[i as int]@);
    assert(block_views(b@)[k as int] == b@[k as int]@);
    if same(b[i].id.as_str(), b[k].id.as_str()) {
        return Err(bad_op("a block cannot move after itself"));
    }
    let end: usize = skip_newlines(src, b[i].end);
    let ghost before = changes(edits@);
    let none = String::new();
    add_edit(edits, rewriting(b[i].start, end, none.as_str()));
    let mut t = "\n\n".to_owned();
    t.push_str(b[i].text.as_str());
    t.push_str("\n");
    add_edit(edits, rewriting(b[k].end, b[k].end, t.as_str()));
    assert(changes(edits@) =~= before + move_block(op, block_views(b@), src@)->Ok_0);
    Ok(())
}

fn do_set_style(op: &Op, b: &Vec<Block>, src: &[u8], edits: &mut Vec<Edit>) -> (r: Result<
    (),
    AdapterError,
>)
    requires
        bounded(block_views(b@), src@),
    ensures
        match r {
            Ok(_) => set_style(op, block_views(b@), src@) is Ok && changes(final(edits)@)
                == changes(old(edits)@) + set_style(op, block_views(b@), src@)->Ok_0,
            Err(e) => set_style(op, block_views(b@), src@) == Err::<Seq<Change>, Fault>(e@),
        },
{
    let id = op.str_field("block")?;
    let level: u64 = match op.opt_whole("level") {
        Some(n) => n,
        None => {
            return Err(bad_op("set_style needs a level"));
        },
    };
    let i: usize = block_position(b, id);
    if i == b.len() {
        return Err(unknown(id));
    }
    assert(block_views(b@)[i as int] == b@[i as int]@);
    if b[i].kind != BlockKind::Heading {
        let mut m = id.to_owned();
        m.push_str(" is not a heading");
        return Err(AdapterError::BadOp(m));
    }
    let bare = strip_leading(b[i].text.as_str(), '#');
    let title = trim(bare.as_str());
    let n: usize = count_trail(src, b[i].end);
    let mut t = repeat('#', level as usize);
    t.push_str(" ");
    t.push_str(title.as_str());
    let tail = repeat('\n', n);
    t.push_str(tail.as_str());
    let ghost before = changes(edits@);
    add_edit(edits, rewriting(b[i].start, b[i].end, t.as_str()));
    assert(changes(edits@) =~= before + set_style(op, block_views(b@), src@)->Ok_0);
    Ok(())
}

fn do_set_metadata(op: &Op, b: &Vec<Block>, src: &[u8], edits: &mut Vec<Edit>) -> (r: Result<
    (),
    AdapterError,
>)
    requires
        bounded(block_views(b@), src@),
    ensures
        match r {
            Ok(_) => set_metadata(op, block_views(b@), src@) is Ok && changes(final(edits)@)
                == changes(old(edits)@) + set_metadata(op, block_views(b@), src@)->Ok_0,
            Err(e) => set_metadata(op, block_views(b@), src@) == Err::<Seq<Change>, Fault>(e@),
        },
{
    let text = op.str_field("text")?;
    check_words(text)?;
    let ghost before = changes(edits@);
    let mut t = "---\n".to_owned();
    let body = trim(text);
    t.push_str(body.as_str());
    let i: usize = front_position(b);
    if i < b.len() {
        assert(block_views(b@)[i as int] == b@[i as int]@);
        t.push_str("\n---");
        let n: usize = count_trail(src, b[i].end);
        let tail = repeat('\n', n);
        t.push_str(tail.as_str());
        add_edit(edits, rewriting(b[i].start, b[i].end, t.as_str()));
    } else {
        t.push_str("\n---\n\n");
        add_edit(edits, rewriting(0, 0, t.as_str()));
    }
    assert(changes(edits@) =~= before + set_metadata(op, block_views(b@), src@)->Ok_0);
    Ok(())
}

fn do_op(op: &Op, b: &Vec<Block>, src: &[u8], edits: &mut Vec<Edit>) -> (r: Result<
    (),
    AdapterError,
>)
    requires
        bounded(block_views(b@), src@),
    ensures
        match r {
            Ok(_) => edits_of_op(op, block_views(b@), src@) is Ok && changes(final(edits)@)
                == changes(old(edits)@) + edits_of_op(op, block_views(b@), src@)->Ok_0,
            Err(e) => edits_of_op(op, block_views(b@), src@) == Err::<Seq<Change>, Fault>(e@),
        },
{
    match op.kind() {
        None => {
            let mut m = "unknown op ".to_owned();
            m.push_str("<missing>");
            Err(AdapterError::BadOp(m))
        },
        Some(k) => {
            if same(k, "replace_block") {
                do_replace_block(op, b, src, edits)
            } else if same(k, "insert_block") {
                do_insert_block(op, b, src, edits)
            } else if same(k, "delete_block") {
                do_delete_block(op, b, src, edits)
            } else if same(k, "move_block") {
                do_move_block(op, b, src, edits)
            } else if same(k, "set_style") {
                do_set_style(op, b, src, edits)
            } else if same(k, "set_metadata") {
                do_set_metadata(op, b, src, edits)
            } else {
                let mut m = "unknown op ".to_owned();
                m.push_str(k);
                Err(AdapterError::BadOp(m))
            }
        },
    }
}

proof fn lemma_first_fault(ops: Seq<Op>, b: Seq<BlockView>, src: Seq<u8>, n: int)
    requires
        0 <= n <= ops.len(),
        edits_of(ops.take(n), b, src) is Err,
    ensures
        edits_of(ops, b, src) == edits_of(ops.take(n), b, src),
    decreases ops.len(),
{
    if n == ops.len() {
        assert(ops.take(n) =~= ops);
    } else {
        assert(ops.drop_last().take(n) =~= ops.take(n));
        lemma_first_fault(ops.drop_last(), b, src, n);
    }
}

impl DocAdapter {
    pub fn new() -> (r: Self)
        ensures
            r == DocAdapter,
    {
        DocAdapter
    }

    pub fn outline(&self, artifact: &Artifact) -> (r: Result<Outline, AdapterError>)
        ensures
            r matches Ok(o) && o@ == outline_of(artifact.path@, artifact.bytes@),
    {
        Ok(model::outline(artifact))
    }

    /// Deterministically apply ops. All or nothing: a rejected op leaves the artifact untouched.
    pub fn apply(&self, artifact: &Artifact, ops: &Vec<Op>) -> (r: Result<Applied, AdapterError>)
        ensures
            match r {
                Ok(done) => {
                    &&& rewritten(artifact.bytes@, ops@) == Ok::<Seq<u8>, Fault>(
                        done.artifact.bytes@,
                    )
                    &&& done.artifact.path@ == artifact.path@
                    &&& done.delta@ == delta_of(
                        outline_of(artifact.path@, artifact.bytes@),
                        outline_of(artifact.path@, done.artifact.bytes@),
                        artifact.bytes@,
                        done.artifact.bytes@,
                    )
                },
                Err(e) => rewritten(artifact.bytes@, ops@) == Err::<Seq<u8>, Fault>(e@),
            },
    {
        if ops.len() == 0 {
            return Err(bad_op("empty op batch"));
        }
        let before_blocks = model::parse(artifact);
        let before = model::outline(artifact);
        let text = artifact.text();
        let src = text.as_str().as_bytes();
        let ghost b = block_views(before_blocks@);
        proof {
            assert forall|k: int| 0 <= k < b.len() implies 0 <= (#[trigger] b[k]).start && b[k].end
                <= src@.len() by {
                lemma_block_bounds(artifact.bytes@, k);
            }
        }
        let mut edits: Vec<Edit> = Vec::new();
        let mut i: usize = 0;
        assert(changes(edits@) =~= Seq::<Change>::empty());
        while i < ops.len()
            invariant
                i <= ops@.len(),
                ops@.len() > 0,
                b == block_views(before_blocks@),
                b == document(artifact.bytes@),
                src@ == encode_utf8(text_of(artifact.bytes@)),
                bounded(b, src@),
                edits_of(ops@.take(i as int), b, src@) == Ok::<Seq<Change>, Fault>(
                    changes(edits@),
                ),
            decreases ops@.len() - i,
        {
            let ghost nn = ops@.take(i + 1);
            assert(nn.drop_last() =~= ops@.take(i as int));
            assert(nn.last() == ops@[i as int]);
            match do_op(&ops[i], &before_blocks, src, &mut edits) {
                Ok(_) => {},
                Err(e) => {
                    proof {
                        lemma_first_fault(ops@, b, src@, i + 1);
                    }
                    return Err(e);
                },
            }
            i += 1;
        }
        assert(ops@.take(i as int) =~= ops@);
        let out = match splice(src, edits) {
            Ok(out) => out,
            Err(SpliceError::Overlap { a, b: _ }) => {
                return Err(bad_op("two ops edit overlapping blocks"));
            },
            Err(SpliceError::Outside) => {
                return Err(bad_op("op range is outside the document"));
            },
        };
        let candidate = Artifact { path: artifact.path.clone(), bytes: out };
        let after = model::outline(&candidate);
        let delta = delta_between(&before, &after, artifact, &candidate);
        Ok(Applied { artifact: candidate, delta })
    }
}


/// An entity as the block it stands for.
pub open spec fn block_of(e: EntityView) -> Option<BlockView> {
    match kind_of_tag(e.kind) {
        None => None,
        Some(kind) => Some(
            BlockView {
                id: e.id,
                kind,
                level: 0,
                section: match e.parent {
                    Some(p) => p,
                    None => "root"@,
                },
                text: match e.signature {
                    Some(s) => s,
                    None => Seq::empty(),
                },
                start: e.start,
                end: e.end,
            },
        ),
    }
}

/// The blocks that some entities stand for.
pub open spec fn blocks_behind(es: Seq<EntityView>) -> Seq<BlockView>
    decreases es.len(),
{
    if es.len() == 0 {
        Seq::empty()
    } else {
        let rest = blocks_behind(es.drop_last());
        match block_of(es.last()) {
            Some(b) => rest.push(b),
            None => rest,
        }
    }
}

/// Does an entity refer to any of these?
pub open spec fn refers_to_any(e: EntityView, ids: Seq<Seq<char>>) -> bool {
    exists|k: int| 0 <= k < e.refs.len() && ids.contains(#[trigger] e.refs[k])
}

/// What was touched, and then each entity that refers to something touched.
pub open spec fn spread(touched: Seq<Seq<char>>, es: Seq<EntityView>) -> Seq<Seq<char>>
    decreases es.len(),
{
    if es.len() == 0 {
        touched
    } else {
        let r = spread(touched, es.drop_last());
        if refers_to_any(es.last(), touched) && !r.contains(es.last().id) {
            r.push(es.last().id)
        } else {
            r
        }
    }
}

/// A page as a render unit.
pub open spec fn page_unit(n: int) -> Seq<char> {
    "page:"@ + decimal(n as nat)
}

/// What a change to a document has to re-render: the blocks under a rewritten heading besides the
/// touched blocks themselves, and the pages that any of them are on.
pub open spec fn impact_of(es: Seq<EntityView>, touched: Seq<Seq<char>>) -> ImpactView {
    let hit = spread(touched, es);
    ImpactView {
        entities: hit,
        tests: Seq::empty(),
        units: dirty_pages(layout(blocks_behind(es)).0, hit).map_values(|n: int| page_unit(n)),
    }
}

fn refers(e: &Entity, ids: &Vec<String>) -> (b: bool)
    ensures
        b == refers_to_any(e@, texts(ids@)),
{
    let mut i: usize = 0;
    while i < e.refs.len()
        invariant
            i <= e.refs@.len(),
            forall|k: int| 0 <= k < i ==> !texts(ids@).contains(#[trigger] e@.refs[k]),
        decreases e.refs@.len() - i,
    {
        assert(e@.refs[i as int] == e.refs@[i as int]@);
        if crate::names::mentions(ids, e.refs[i].as_str()) {
            return true;
        }
        i += 1;
    }
    false
}

fn entity_to_block(e: &Entity) -> (r: Option<Block>)
    ensures
        r is Some <==> block_of(e@) is Some,
        r matches Some(b) ==> block_of(e@) == Some(b@),
{
    match BlockKind::from_tag(e.kind.as_str()) {
        None => None,
        Some(kind) => Some(
            Block {
                id: e.id.clone(),
                kind,
                level: 0,
                section: match &e.parent {
                    Some(p) => p.clone(),
                    None => "root".to_owned(),
                },
                text: match &e.signature {
                    Some(s) => s.clone(),
                    None => String::new(),
                },
                start: e.start,
                end: e.end,
            },
        ),
    }
}

fn blocks_of_entities(es: &Vec<Entity>) -> (r: Vec<Block>)
    ensures
        block_views(r@) == blocks_behind(crate::adapter::entity_views(es@)),
{
    let ghost all = crate::adapter::entity_views(es@);
    let mut out: Vec<Block> = Vec::new();
    let mut i: usize = 0;
    assert(all.take(0) =~= Seq::<EntityView>::empty());
    assert(block_views(out@) =~= Seq::<BlockView>::empty());
    while i < es.len()
        invariant
            i <= es@.len(),
            all == crate::adapter::entity_views(es@),
            block_views(out@) == blocks_behind(all.take(i as int)),
        decreases es@.len() - i,
    {
        let ghost nn = all.take(i + 1);
        assert(nn.drop_last() =~= all.take(i as int));
        assert(nn.last() == es@[i as int]@);
        let ghost before = block_views(out@);
        match entity_to_block(&es[i]) {
            Some(b) => {
                out.push(b);
                assert(block_views(out@) =~= before.push(b@));
            },
            None => {},
        }
        i += 1;
    }
    assert(all.take(i as int) =~= all);
    out
}

impl DocAdapter {
    /// What has to be re-checked after a delta.
    pub fn impact(&self, outline: &Outline, delta: &Delta) -> (r: ImpactSet)
        ensures
            r@ == impact_of(outline@.entities, delta@.touched()),
    {
        let touched = delta.touched();
        let mut entities = delta.touched();
        let ghost es = outline@.entities;
        let mut i: usize = 0;
        assert(es.take(0) =~= Seq::<EntityView>::empty());
        while i < outline.entities.len()
            invariant
                i <= outline.entities@.len(),
                es == outline@.entities,
                texts(touched@) == delta@.touched(),
                texts(entities@) == spread(delta@.touched(), es.take(i as int)),
            decreases outline.entities@.len() - i,
        {
            let ghost nn = es.take(i + 1);
            assert(nn.drop_last() =~= es.take(i as int));
            assert(nn.last() == outline.entities@[i as int]@);
            let ghost before = texts(entities@);
            let e = &outline.entities[i];
            if refers(e, &touched) && !crate::names::mentions(&entities, e.id.as_str()) {
                entities.push(e.id.clone());
                assert(texts(entities@) =~= before.push(e.id@));
            }
            i += 1;
        }
        assert(es.take(i as int) =~= es);
        let blocks = blocks_of_entities(&outline.entities);
        let pages = paginate(&blocks);
        let dirty = pages_for(&pages, &entities);
        let mut units: Vec<String> = Vec::new();
        let ghost numbers = dirty@.map_values(|n: usize| n as int);
        let ghost named = numbers.map_values(|n: int| page_unit(n));
        let mut i: usize = 0;
        assert(texts(units@) =~= named.take(0));
        while i < dirty.len()
            invariant
                i <= dirty@.len(),
                numbers == dirty@.map_values(|n: usize| n as int),
                named == numbers.map_values(|n: int| page_unit(n)),
                texts(units@) == named.take(i as int),
            decreases dirty@.len() - i,
        {
            let ghost before = texts(units@);
            let mut u = "page:".to_owned();
            let n = show(dirty[i] as u64);
            u.push_str(n.as_str());
            units.push(u);
            assert(u@ == named[i as int]);
            assert(texts(units@) =~= before.push(u@));
            assert(named.take(i + 1) =~= named.take(i as int).push(named[i as int]));
            i += 1;
        }
        assert(named.take(i as int) =~= named);
        let r = ImpactSet { entities, tests: Vec::new(), units };
        assert(r@ =~= impact_of(outline@.entities, delta@.touched()));
        r
    }
}

/// One line for each heading: its text, and its id in brackets.
pub open spec fn heading_lines(b: Seq<BlockView>) -> Seq<Seq<char>>
    decreases b.len(),
{
    if b.len() == 0 {
        Seq::empty()
    } else {
        let rest = heading_lines(b.drop_last());
        let x = b.last();
        if x.kind == BlockKind::Heading {
            rest.push(trim_of(x.text) + " ("@ + x.id + ")"@)
        } else {
            rest
        }
    }
}

/// The sections that the headings open, in order.
pub open spec fn heading_sections(b: Seq<BlockView>) -> Seq<Seq<char>>
    decreases b.len(),
{
    if b.len() == 0 {
        Seq::empty()
    } else {
        let rest = heading_sections(b.drop_last());
        if b.last().kind == BlockKind::Heading {
            rest.push(b.last().section)
        } else {
            rest
        }
    }
}

/// Each block of one section, under a comment that gives its id.
pub open spec fn section_parts(b: Seq<BlockView>, section: Seq<char>) -> Seq<Seq<char>>
    decreases b.len(),
{
    if b.len() == 0 {
        Seq::empty()
    } else {
        let rest = section_parts(b.drop_last(), section);
        let x = b.last();
        if x.section == section {
            rest.push("<!-- "@ + x.id + " -->\n"@ + x.text)
        } else {
            rest
        }
    }
}

/// The tables and figures of one section.
pub open spec fn section_data(b: Seq<BlockView>, section: Seq<char>) -> Seq<Seq<char>>
    decreases b.len(),
{
    if b.len() == 0 {
        Seq::empty()
    } else {
        let rest = section_data(b.drop_last(), section);
        let x = b.last();
        if x.section == section && (x.kind == BlockKind::Table || x.kind == BlockKind::Figure) {
            rest.push(x.text)
        } else {
            rest
        }
    }
}

/// The first place of a name in a list, or the length of the list.
pub open spec fn place_of(v: Seq<Seq<char>>, x: Seq<char>) -> int
    decreases v.len(),
{
    if v.len() == 0 || v[0] == x {
        0
    } else {
        1 + place_of(v.skip(1), x)
    }
}

/// The text of the heading that first opens a section.
pub open spec fn heading_text(b: Seq<BlockView>, section: Seq<char>) -> Option<Seq<char>>
    decreases b.len(),
{
    if b.len() == 0 {
        None
    } else {
        match heading_text(b.drop_last(), section) {
            Some(t) => Some(t),
            None => if b.last().kind == BlockKind::Heading && b.last().section == section {
                Some(trim_of(b.last().text))
            } else {
                None
            },
        }
    }
}

/// The headings of the sections before and after the one at `i` in the list of sections.
pub open spec fn neighbours(b: Seq<BlockView>, sections: Seq<Seq<char>>, i: int) -> Seq<Seq<char>> {
    let before = if i > 0 {
        match heading_text(b, sections[i - 1]) {
            Some(t) => seq![t],
            None => Seq::empty(),
        }
    } else {
        Seq::empty()
    };
    let after = if i + 1 < sections.len() {
        match heading_text(b, sections[i + 1]) {
            Some(t) => seq![t],
            None => Seq::empty(),
        }
    } else {
        Seq::empty()
    };
    before + after
}

/// The pack for a block of a document: the outline, the block's section, the neighbouring
/// sections, the metadata, and the data that the prose has to agree with.
pub open spec fn pack_of(b: Seq<BlockView>, target: BlockView, budget: nat) -> Seq<Part> {
    let sections = heading_sections(b);
    let i = place_of(sections, target.section);
    let front = front_matter(b);
    let p1 = with_part(Seq::empty(), "outline"@, join_of(heading_lines(b), "\n"@));
    let p2 = with_part(p1, "section"@, join_of(section_parts(b, target.section), "\n\n"@));
    let p3 = if i < sections.len() {
        with_part(p2, "neighbouring sections"@, join_of(neighbours(b, sections, i), "\n"@))
    } else {
        p2
    };
    let p4 = if front < b.len() {
        with_part(p3, "metadata"@, b[front].text)
    } else {
        p3
    };
    let p5 = with_part(
        p4,
        "data in this section"@,
        join_of(section_data(b, target.section), "\n\n"@),
    );
    fitted(
        p5,
        if budget > 1000 {
            budget
        } else {
            1000
        },
        2,
    )
}

fn list_heading_lines(b: &Vec<Block>) -> (r: Vec<String>)
    ensures
        texts(r@) == heading_lines(block_views(b@)),
{
    let ghost all = block_views(b@);
    let mut out: Vec<String> = Vec::new();
    let mut i: usize = 0;
    assert(all.take(0) =~= Seq::<BlockView>::empty());
    assert(texts(out@) =~= Seq::<Seq<char>>::empty());
    while i < b.len()
        invariant
            i <= b@.len(),
            all == block_views(b@),
            texts(out@) == heading_lines(all.take(i as int)),
        decreases b@.len() - i,
    {
        let ghost nn = all.take(i + 1);
        assert(nn.drop_last() =~= all.take(i as int));
        assert(nn.last() == b@[i as int]@);
        let ghost before = texts(out@);
        if b[i].kind == BlockKind::Heading {
            let mut line = trim(b[i].text.as_str());
            line.push_str(" (");
            line.push_str(b[i].id.as_str());
            line.push_str(")");
            out.push(line);
            assert(texts(out@) =~= before.push(line@));
        }
        i += 1;
    }
    assert(all.take(i as int) =~= all);
    out
}

fn list_heading_sections(b: &Vec<Block>) -> (r: Vec<String>)
    ensures
        texts(r@) == heading_sections(block_views(b@)),
{
    let ghost all = block_views(b@);
    let mut out: Vec<String> = Vec::new();
    let mut i: usize = 0;
    assert(all.take(0) =~= Seq::<BlockView>::empty());
    assert(texts(out@) =~= Seq::<Seq<char>>::empty());
    while i < b.len()
        invariant
            i <= b@.len(),
            all == block_views(b@),
            texts(out@) == heading_sections(all.take(i as int)),
        decreases b@.len() - i,
    {
        let ghost nn = all.take(i + 1);
        assert(nn.drop_last() =~= all.take(i as int));
        assert(nn.last() == b@[i as int]@);
        let ghost before = texts(out@);
        if b[i].kind == BlockKind::Heading {
            out.push(b[i].section.clone());
            assert(texts(out@) =~= before.push(b@[i as int].section@));
        }
        i += 1;
    }
    assert(all.take(i as int) =~= all);
    out
}

fn list_section_parts(b: &Vec<Block>, section: &str) -> (r: Vec<String>)
    ensures
        texts(r@) == section_parts(block_views(b@), section@),
{
    let ghost all = block_views(b@);
    let mut out: Vec<String> = Vec::new();
    let mut i: usize = 0;
    assert(all.take(0) =~= Seq::<BlockView>::empty());
    assert(texts(out@) =~= Seq::<Seq<char>>::empty());
    while i < b.len()
        invariant
            i <= b@.len(),
            all == block_views(b@),
            texts(out@) == section_parts(all.take(i as int), section@),
        decreases b@.len() - i,
    {
        let ghost nn = all.take(i + 1);
        assert(nn.drop_last() =~= all.take(i as int));
        assert(nn.last() == b@[i as int]@);
        let ghost before = texts(out@);
        if same(b[i].section.as_str(), section) {
            let mut part = "<!-- ".to_owned();
            part.push_str(b[i].id.as_str());
            part.push_str(" -->\n");
            part.push_str(b[i].text.as_str());
            out.push(part);
            assert(texts(out@) =~= before.push(part@));
        }
        i += 1;
    }
    assert(all.take(i as int) =~= all);
    out
}

fn list_section_data(b: &Vec<Block>, section: &str) -> (r: Vec<String>)
    ensures
        texts(r@) == section_data(block_views(b@), section@),
{
    let ghost all = block_views(b@);
    let mut out: Vec<String> = Vec::new();
    let mut i: usize = 0;
    assert(all.take(0) =~= Seq::<BlockView>::empty());
    assert(texts(out@) =~= Seq::<Seq<char>>::empty());
    while i < b.len()
        invariant
            i <= b@.len(),
            all == block_views(b@),
            texts(out@) == section_data(all.take(i as int), section@),
        decreases b@.len() - i,
    {
        let ghost nn = all.take(i + 1);
        assert(nn.drop_last() =~= all.take(i as int));
        assert(nn.last() == b@[i as int]@);
        let ghost before = texts(out@);
        if same(b[i].section.as_str(), section) && (b[i].kind == BlockKind::Table || b[i].kind
            == BlockKind::Figure) {
            out.push(b[i].text.clone());
            assert(texts(out@) =~= before.push(b@[i as int].text@));
        }
        i += 1;
    }
    assert(all.take(i as int) =~= all);
    out
}

fn find_place(v: &Vec<String>, x: &str) -> (i: usize)
    ensures
        i == place_of(texts(v@), x@),
        i <= v@.len(),
{
    let ghost all = texts(v@);
    let mut i: usize = 0;
    assert(all.skip(0) =~= all);
    while i < v.len()
        invariant
            i <= v@.len(),
            all == texts(v@),
            place_of(all, x@) == i + place_of(all.skip(i as int), x@),
        decreases v@.len() - i,
    {
        assert(all.skip(i as int)[0] == v@[i as int]@);
        assert(all.skip(i as int).skip(1) =~= all.skip(i + 1));
        if same(v[i].as_str(), x) {
            return i;
        }
        i += 1;
    }
    i
}

proof fn lemma_heading_text_prefix(b: Seq<BlockView>, section: Seq<char>, n: int)
    requires
        0 <= n <= b.len(),
    ensures
        heading_text(b.take(n), section) is Some ==> heading_text(b, section) == heading_text(
            b.take(n),
            section,
        ),
    decreases b.len(),
{
    if n == b.len() {
        assert(b.take(n) =~= b);
    } else {
        lemma_heading_text_prefix(b.drop_last(), section, n);
        assert(b.drop_last().take(n) =~= b.take(n));
    }
}

fn find_heading_text(b: &Vec<Block>, section: &str) -> (r: Option<String>)
    ensures
        r is Some <==> heading_text(block_views(b@), section@) is Some,
        r matches Some(t) ==> heading_text(block_views(b@), section@) == Some(t@),
{
    let ghost all = block_views(b@);
    let mut i: usize = 0;
    assert(all.take(0) =~= Seq::<BlockView>::empty());
    while i < b.len()
        invariant
            i <= b@.len(),
            all == block_views(b@),
            heading_text(all.take(i as int), section@) is None,
        decreases b@.len() - i,
    {
        let ghost nn = all.take(i + 1);
        assert(nn.drop_last() =~= all.take(i as int));
        assert(nn.last() == b@[i as int]@);
        if b[i].kind == BlockKind::Heading && same(b[i].section.as_str(), section) {
            proof {
                lemma_heading_text_prefix(all, section@, i + 1);
            }
            return Some(trim(b[i].text.as_str()));
        }
        i += 1;
    }
    assert(all.take(i as int) =~= all);
    None
}

fn list_neighbours(b: &Vec<Block>, sections: &Vec<String>, i: usize) -> (r: Vec<String>)
    requires
        i < sections@.len(),
    ensures
        texts(r@) == neighbours(block_views(b@), texts(sections@), i as int),
{
    let mut out: Vec<String> = Vec::new();
    let ghost s = texts(sections@);
    assert(texts(out@) =~= Seq::<Seq<char>>::empty());
    if i > 0 {
        assert(s[i - 1] == sections@[i - 1]@);
        match find_heading_text(b, sections[i - 1].as_str()) {
            Some(t) => {
                out.push(t);
                assert(texts(out@) =~= seq![t@]);
            },
            None => {},
        }
    }
    let ghost before = texts(out@);
    if i < sections.len() - 1 {
        assert(s[i + 1] == sections@[i + 1]@);
        match find_heading_text(b, sections[i + 1].as_str()) {
            Some(t) => {
                out.push(t);
                assert(texts(out@) =~= before + seq![t@]);
            },
            None => {},
        }
    }
    assert(texts(out@) =~= neighbours(block_views(b@), s, i as int));
    out
}

/// The checks for a document, cheapest first, each at the level that counts those before it.
pub open spec fn rungs() -> Seq<DocRung> {
    seq![
        DocRung::Tree(TreeValid),
        DocRung::Lint(Lint),
        DocRung::Pages(RenderChangedPages),
        DocRung::Vision(VisionCheck { model: None }),
        DocRung::Full(FullRender),
    ]
}

impl DocAdapter {
    /// The context pack for one block: its section and the outline, not the whole document.
    pub fn pack(&self, req: &PackRequest<'_>) -> (r: Result<Pack, AdapterError>)
        ensures
            ({
                let b = document(req.artifact.bytes@);
                let i = find_block(b, req.target@);
                match r {
                    Ok(p) => i < b.len() && p@ == pack_of(b, b[i], req.budget_chars as nat),
                    Err(e) => i >= b.len() && e@ == Fault::UnknownEntity(req.target@),
                }
            }),
    {
        let blocks = model::parse(req.artifact);
        let i: usize = block_position(&blocks, req.target);
        if i == blocks.len() {
            return Err(unknown(req.target));
        }
        assert(block_views(blocks@)[i as int] == blocks@[i as int]@);
        let section = blocks[i].section.clone();
        let mut pack = Pack::default();
        let headings = list_heading_lines(&blocks);
        let part = join(&headings, "\n");
        pack.push("outline", part.as_str());
        let inside = list_section_parts(&blocks, section.as_str());
        let part = join(&inside, "\n\n");
        pack.push("section", part.as_str());
        let sections = list_heading_sections(&blocks);
        assert(texts(sections@).len() == sections@.len());
        let at: usize = find_place(&sections, section.as_str());
        if at < sections.len() {
            let near = list_neighbours(&blocks, &sections, at);
            let part = join(&near, "\n");
            pack.push("neighbouring sections", part.as_str());
        }
        let front: usize = front_position(&blocks);
        if front < blocks.len() {
            assert(block_views(blocks@)[front as int] == blocks@[front as int]@);
            pack.push("metadata", blocks[front].text.as_str());
        }
        let data = list_section_data(&blocks, section.as_str());
        let part = join(&data, "\n\n");
        pack.push("data in this section", part.as_str());
        let limit: usize = if req.budget_chars > 1000 { req.budget_chars } else { 1000 };
        pack.fit(limit, 2);
        Ok(pack)
    }

    /// What a document changed since it was as it was before, and what that reaches: what a verify
    /// node holds its file to.
    pub fn since(&self, before: Option<&Artifact>, artifact: &Artifact, outline: &Outline) -> (r: (
        Delta,
        ImpactSet,
    ))
        ensures
            r.0@ == delta_from(
                match before {
                    Some(b) => Some((outline_of(b.path@, b.bytes@), b.bytes@)),
                    None => None,
                },
                outline@,
                artifact.bytes@,
            ),
            r.1@ == impact_of(outline@.entities, r.0@.touched()),
    {
        let delta = match before {
            Some(b) => {
                let o = model::outline(b);
                delta_since(Some((&o, b)), outline, artifact)
            },
            None => delta_since(None, outline, artifact),
        };
        let reached = self.impact(outline, &delta);
        (delta, reached)
    }

    /// The checks for a document, cheapest first.
    pub fn ladder(&self) -> (r: Vec<DocRung>)
        ensures
            r@ == rungs(),
    {
        let mut r: Vec<DocRung> = Vec::new();
        r.push(DocRung::Tree(TreeValid));
        r.push(DocRung::Lint(Lint));
        r.push(DocRung::Pages(RenderChangedPages));
        r.push(DocRung::Vision(VisionCheck { model: None }));
        r.push(DocRung::Full(FullRender));
        r
    }

    /// The check at a level of the ladder, where there is one.
    pub fn rung_at(&self, level: u8) -> (r: Option<DocRung>)
        ensures
            r == if level < rungs().len() {
                Some(rungs()[level as int])
            } else {
                None
            },
    {
        let mut all = self.ladder();
        if (level as usize) < all.len() {
            Some(all.remove(level as usize))
        } else {
            None
        }
    }
}

impl Adapter for DocAdapter {
    open spec fn covers(&self, path: Seq<char>) -> bool {
        let p = lower_of(path);
        ends(p, ".md"@) || ends(p, ".markdown"@) || ends(p, ".docx"@)
    }

    fn name(&self) -> (r: &'static str)
        ensures
            r@ == "doc"@,
    {
        "doc"
    }

    fn version(&self) -> (r: &'static str)
        ensures
            r@ == "doc-v1"@,
    {
        "doc-v1"
    }

    fn handles(&self, path: &str) -> (r: bool) {
        let p = to_lower(path);
        ends_with(p.as_str(), ".md") || ends_with(p.as_str(), ".markdown") || ends_with(
            p.as_str(),
            ".docx",
        )
    }

    fn op_schema(&self) -> (r: &'static str)
        ensures
            r@ == OP_SCHEMA@,
    {
        OP_SCHEMA
    }
}

/// Everything touched has to be re-checked, and everything that refers to it.
pub proof fn law_impact_covers_what_was_touched(
    es: Seq<EntityView>,
    touched: Seq<Seq<char>>,
    x: Seq<char>,
)
    requires
        touched.contains(x) || exists|k: int|
            0 <= k < es.len() && (#[trigger] es[k]).id == x && refers_to_any(es[k], touched),
    ensures
        impact_of(es, touched).entities.contains(x),
{
    lemma_spread(es, touched, x);
}

/// Nothing else has to be re-checked.
pub proof fn law_impact_leaves_the_rest_alone(
    es: Seq<EntityView>,
    touched: Seq<Seq<char>>,
    x: Seq<char>,
)
    requires
        impact_of(es, touched).entities.contains(x),
    ensures
        touched.contains(x) || exists|k: int|
            0 <= k < es.len() && (#[trigger] es[k]).id == x && refers_to_any(es[k], touched),
{
    lemma_spread(es, touched, x);
}

proof fn lemma_spread(es: Seq<EntityView>, touched: Seq<Seq<char>>, x: Seq<char>)
    ensures
        spread(touched, es).contains(x) <==> (touched.contains(x) || exists|k: int|
            0 <= k < es.len() && (#[trigger] es[k]).id == x && refers_to_any(es[k], touched)),
    decreases es.len(),
{
    if es.len() > 0 {
        let d = es.drop_last();
        lemma_spread(d, touched, x);
        let r = spread(touched, d);
        let all = spread(touched, es);
        if exists|k: int|
            0 <= k < d.len() && (#[trigger] d[k]).id == x && refers_to_any(d[k], touched) {
            let k = choose|k: int|
                0 <= k < d.len() && (#[trigger] d[k]).id == x && refers_to_any(d[k], touched);
            assert(es[k] == d[k]);
        }
        if exists|k: int|
            0 <= k < es.len() && (#[trigger] es[k]).id == x && refers_to_any(es[k], touched) {
            let k = choose|k: int|
                0 <= k < es.len() && (#[trigger] es[k]).id == x && refers_to_any(es[k], touched);
            if k < d.len() {
                assert(d[k] == es[k]);
            }
        }
        if r.contains(x) {
            let k = choose|k: int| 0 <= k < r.len() && r[k] == x;
            assert(all[k] == x);
        }
        if all.contains(x) && !r.contains(x) {
            let k = choose|k: int| 0 <= k < all.len() && all[k] == x;
            if k < r.len() {
                assert(r[k] == x);
            }
            assert(es[es.len() - 1].id == x);
        }
        if refers_to_any(es.last(), touched) && es.last().id == x {
            assert(es[es.len() - 1] == es.last());
            if !r.contains(x) {
                assert(all[all.len() - 1] == x);
            }
        }
    }
}

} // verus!
