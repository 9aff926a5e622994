//! Named-entity ops and the materializer that applies them.
//!
//! An op names what it changes and supplies only that, instead of restating a file or guessing line
//! numbers. Three rules make materialization deterministic:
//!
//! 1. All or nothing. A batch that contains one bad op changes nothing.
//! 2. No overlapping edits. Two ops touching the same bytes is a mistake in the batch.
//! 3. Parse-clean or rejected. If the ops turn a file that parsed into one that does not, the batch
//!    is refused.

use crate::adapter::bad_op;
use crate::adapter::entity_views;
use crate::adapter::fresh_ids;
use crate::adapter::least;
use crate::adapter::unknown;
use crate::adapter::AdapterError;
use crate::adapter::Applied;
use crate::adapter::Artifact;
use crate::adapter::Delta;
use crate::adapter::DeltaView;
use crate::adapter::Entity;
use crate::adapter::EntityView;
use crate::adapter::Fault;
use crate::adapter::Op;
use crate::adapter::Outline;
use crate::adapter::OutlineView;
use crate::code::diff::apply_unified;
use crate::code::diff::diffed;
use crate::code::lang::Lang;
use crate::code::lang::LangSpec;
use crate::code::symbols::extract;
use crate::code::symbols::read;
use crate::code::symbols::read_of;
use crate::code::symbols::simple_name;
use crate::code::symbols::simple_of;
use crate::code::symbols::symbols_of;
use crate::code::syntax::flaw_views;
use crate::code::syntax::flaws;
use crate::code::syntax::no_tree;
use crate::code::syntax::parse;
use crate::code::syntax::syntax_errors;
use crate::code::syntax::tree_of;
use crate::code::syntax::Syn;
use crate::splice::changes;
use crate::splice::splice;
use crate::splice::spliced;
use crate::splice::Change;
use crate::splice::Edit;
use crate::splice::SpliceError;
use crate::splice::Spliced;
use crate::text::begins;
use crate::text::decimal;
use crate::text::ends;
use crate::text::ends_with;
use crate::text::from_chars;
use crate::text::join;
use crate::text::join_of;
use crate::text::leading_space;
use crate::text::lines;
use crate::text::lines_of;
use crate::text::same;
use crate::text::show;
use crate::text::starts_with;
use crate::text::texts;
use crate::text::to_chars;
use crate::text::trim;
use crate::text::trim_of;
use crate::text::trim_start;
use crate::text::trim_start_of;
use crate::utf8::byte_len;
use crate::utf8::len_in_bytes;
use vstd::prelude::*;
use vstd::utf8::encode_utf8;

verus! {

/// How many lines one op may carry.
pub const MAX_OP_LINES: usize = 120;

/// What the executor model may emit for a source file.
pub const OP_SCHEMA: &'static str = r#"{
  "$schema": "https://json-schema.org/draft/2020-12/schema",
  "title": "flash code ops",
  "type": "array",
  "minItems": 1,
  "maxItems": 32,
  "items": {
    "type": "object",
    "required": [
      "op"
    ],
    "oneOf": [
      {
        "properties": {
          "op": {
            "const": "replace_body"
          },
          "entity": {
            "type": "string",
            "description": "entity id, e.g. fn:Parser::parse"
          },
          "body": {
            "type": "string",
            "description": "the interior of the body, without the outer braces"
          }
        },
        "required": [
          "op",
          "entity",
          "body"
        ],
        "additionalProperties": false
      },
      {
        "properties": {
          "op": {
            "const": "replace_signature"
          },
          "entity": {
            "type": "string"
          },
          "signature": {
            "type": "string"
          }
        },
        "required": [
          "op",
          "entity",
          "signature"
        ],
        "additionalProperties": false
      },
      {
        "properties": {
          "op": {
            "const": "insert_after"
          },
          "entity": {
            "type": "string"
          },
          "code": {
            "type": "string"
          }
        },
        "required": [
          "op",
          "entity",
          "code"
        ],
        "additionalProperties": false
      },
      {
        "properties": {
          "op": {
            "const": "add_import"
          },
          "import": {
            "type": "string",
            "description": "the whole import statement"
          }
        },
        "required": [
          "op",
          "import"
        ],
        "additionalProperties": false
      },
      {
        "properties": {
          "op": {
            "const": "add_test"
          },
          "name": {
            "type": "string"
          },
          "code": {
            "type": "string",
            "description": "the test body interior"
          }
        },
        "required": [
          "op",
          "name",
          "code"
        ],
        "additionalProperties": false
      },
      {
        "properties": {
          "op": {
            "const": "rename"
          },
          "entity": {
            "type": "string"
          },
          "to": {
            "type": "string"
          }
        },
        "required": [
          "op",
          "entity",
          "to"
        ],
        "additionalProperties": false
      },
      {
        "properties": {
          "op": {
            "const": "delete"
          },
          "entity": {
            "type": "string"
          }
        },
        "required": [
          "op",
          "entity"
        ],
        "additionalProperties": false
      },
      {
        "properties": {
          "op": {
            "const": "unified_diff"
          },
          "diff": {
            "type": "string",
            "description": "fallback only, one file"
          }
        },
        "required": [
          "op",
          "diff"
        ],
        "additionalProperties": false
      }
    ]
  }
}"#;

/// The json schema the executor model is constrained to.
pub fn schema() -> (r: &'static str)
    ensures
        r@ == OP_SCHEMA@,
{
    OP_SCHEMA
}

/// The fault of an op text that is too long, where it is.
pub open spec fn too_long(text: Seq<char>) -> Option<Fault> {
    let n = lines_of(text).len();
    if n > MAX_OP_LINES {
        Some(
            Fault::BadOp(
                "op text is "@ + decimal(n) + " lines, over the "@ + decimal(MAX_OP_LINES as nat)
                    + " line cap: split it into several ops"@,
            ),
        )
    } else {
        None
    }
}

/// Where the line that holds position `p` starts: after the last newline before it.
pub open spec fn line_start(src: Seq<u8>, p: int) -> int
    decreases p,
{
    if p <= 0 || p > src.len() || src[p - 1] == 10u8 {
        p
    } else {
        line_start(src, p - 1)
    }
}

/// The white space that a text starts with.
pub open spec fn margin(s: Seq<char>) -> Seq<char> {
    s.take(s.len() - trim_start_of(s).len())
}

/// The indentation of the line that position `pos` is on.
pub open spec fn indent_of(src: Seq<u8>, pos: int) -> Seq<char> {
    let p = least(pos, src.len() as int);
    margin(read_of(src, line_start(src, p), p))
}

/// A text without the characters that its first `n` bytes belong to.
pub open spec fn past_bytes(s: Seq<char>, n: int) -> Seq<char>
    decreases s.len(),
{
    if n <= 0 || s.len() == 0 {
        s
    } else {
        past_bytes(s.skip(1), n - byte_len(seq![s[0]]))
    }
}

/// The least indentation, in bytes, of the lines that are not blank.
pub open spec fn common_margin(l: Seq<Seq<char>>) -> Option<nat>
    decreases l.len(),
{
    if l.len() == 0 {
        None
    } else {
        let m = common_margin(l.drop_last());
        let x = l.last();
        if trim_of(x).len() == 0 {
            m
        } else {
            let n = byte_len(margin(x));
            match m {
                Some(k) => if n < k {
                    Some(n)
                } else {
                    Some(k)
                },
                None => Some(n),
            }
        }
    }
}

/// One line moved to a new indentation; a blank line becomes empty.
pub open spec fn shifted(line: Seq<char>, base: nat, indent: Seq<char>) -> Seq<char> {
    if trim_of(line).len() == 0 {
        Seq::empty()
    } else {
        indent + past_bytes(line, base as int)
    }
}

/// A text with its indentation brought to that of the code around it, its inner indentation kept.
pub open spec fn reindented(text: Seq<char>, indent: Seq<char>) -> Seq<char> {
    let l = lines_of(text);
    let base = match common_margin(l) {
        Some(n) => n,
        None => 0,
    };
    join_of(l.map_values(|x: Seq<char>| shifted(x, base, indent)), "\n"@)
}

/// Is a line part of a comment block, or empty?
pub open spec fn is_comment(line: Seq<char>) -> bool {
    let t = trim_start_of(line);
    begins(t, "//"@) || (t.len() > 0 && t[0] == '#') || t.len() == 0
}

/// How many bytes the comment lines from line `i` on take, each with a newline.
pub open spec fn comment_bytes(l: Seq<Seq<char>>, i: int) -> nat
    decreases l.len() - i,
{
    if i < 0 || i >= l.len() || !is_comment(l[i]) {
        0
    } else {
        byte_len(l[i]) + 1 + comment_bytes(l, i + 1)
    }
}

/// Where the file's leading comment block ends, so that an import lands after the licence header.
pub open spec fn comment_end(src: Seq<char>) -> int {
    least(comment_bytes(lines_of(src), 0) as int, byte_len(src) as int)
}

/// A change of the bytes from `start` to `end` into a text.
pub open spec fn rewrite(start: int, end: int, text: Seq<char>) -> Change {
    Change { start, end, text: encode_utf8(text) }
}

/// What a batch of ops comes to: edits of the bytes, and words to rename afterwards.
#[verifier::ext_equal]
pub ghost struct Work {
    pub edits: Seq<Change>,
    pub renames: Seq<(Seq<char>, Seq<char>)>,
}

impl Work {
    pub open spec fn none() -> Work {
        Work { edits: Seq::empty(), renames: Seq::empty() }
    }

    pub open spec fn edit(self, c: Change) -> Work {
        Work { edits: self.edits.push(c), ..self }
    }

    pub open spec fn rename(self, from: Seq<char>, to: Seq<char>) -> Work {
        Work { renames: self.renames.push((from, to)), ..self }
    }
}

/// What the ops are applied to: the language, the outline before, and the text.
pub ghost struct Scene {
    pub lang: Lang,
    pub sep: Seq<char>,
    pub braced: bool,
    pub before: OutlineView,
    pub text: Seq<char>,
}

impl Scene {
    pub open spec fn src(self) -> Seq<u8> {
        encode_utf8(self.text)
    }
}

/// The entity that an op names in a field, or the fault that it is not there.
pub open spec fn named(s: Scene, id: Seq<char>) -> Result<EntityView, Fault> {
    match s.before.entity(id) {
        Some(e) => Ok(e),
        None => Err(Fault::UnknownEntity(id)),
    }
}

pub open spec fn replace_body(s: Scene, op: &Op, w: Work) -> Result<Work, Fault> {
    match op.demand("entity"@) {
        Err(e) => Err(e),
        Ok(id) => match op.demand("body"@) {
            Err(e) => Err(e),
            Ok(body) => match too_long(body) {
                Some(e) => Err(e),
                None => match named(s, id) {
                    Err(e) => Err(e),
                    Ok(e) => match e.body {
                        None => Err(Fault::BadOp(id + " has no replaceable body"@)),
                        Some((a, b)) => {
                            let outer = indent_of(s.src(), e.start);
                            let inside = reindented(body, outer + "    "@);
                            let text = if s.braced {
                                "{\n"@ + inside + "\n"@ + outer + "}"@
                            } else {
                                "\n"@ + inside
                            };
                            Ok(w.edit(rewrite(a, b, text)))
                        },
                    },
                },
            },
        },
    }
}

pub open spec fn replace_signature(s: Scene, op: &Op, w: Work) -> Result<Work, Fault> {
    match op.demand("entity"@) {
        Err(e) => Err(e),
        Ok(id) => match op.demand("signature"@) {
            Err(e) => Err(e),
            Ok(signature) => match too_long(signature) {
                Some(e) => Err(e),
                None => match named(s, id) {
                    Err(e) => Err(e),
                    Ok(e) => match e.body {
                        None => Err(
                            Fault::BadOp(
                                id + " has no body, so it has no signature to replace"@,
                            ),
                        ),
                        Some((a, b)) => Ok(
                            w.edit(rewrite(e.start, a, trim_of(signature) + " "@)),
                        ),
                    },
                },
            },
        },
    }
}

pub open spec fn insert_after(s: Scene, op: &Op, w: Work) -> Result<Work, Fault> {
    match op.demand("entity"@) {
        Err(e) => Err(e),
        Ok(id) => match op.demand("code"@) {
            Err(e) => Err(e),
            Ok(code) => match too_long(code) {
                Some(e) => Err(e),
                None => match named(s, id) {
                    Err(e) => Err(e),
                    Ok(e) => Ok(
                        w.edit(
                            rewrite(
                                e.end,
                                e.end,
                                "\n\n"@ + reindented(code, indent_of(s.src(), e.start)),
                            ),
                        ),
                    ),
                },
            },
        },
    }
}

/// Is an import with this text among the entities?
pub open spec fn imported(es: Seq<EntityView>, text: Seq<char>) -> bool {
    exists|k: int|
        0 <= k < es.len() && (#[trigger] es[k]).kind == "import"@ && es[k].signature == Some(text)
}

/// Where the last of the imports ends, where there is one.
pub open spec fn imports_end(es: Seq<EntityView>) -> Option<int>
    decreases es.len(),
{
    if es.len() == 0 {
        None
    } else {
        let m = imports_end(es.drop_last());
        if es.last().kind == "import"@ {
            match m {
                Some(k) => if k > es.last().end {
                    Some(k)
                } else {
                    Some(es.last().end)
                },
                None => Some(es.last().end),
            }
        } else {
            m
        }
    }
}

/// Adding an import that is already there changes nothing, so a retry converges instead of
/// duplicating.
pub open spec fn add_import(s: Scene, op: &Op, w: Work) -> Result<Work, Fault> {
    match op.demand("import"@) {
        Err(e) => Err(e),
        Ok(raw) => {
            let text = trim_of(raw);
            if imported(s.before.entities, text) {
                Ok(w)
            } else {
                let at = match imports_end(s.before.entities) {
                    Some(k) => k,
                    None => comment_end(s.text),
                };
                Ok(w.edit(rewrite(at, at, "\n"@ + text)))
            }
        },
    }
}

/// The first module of tests, or the number of entities.
pub open spec fn tests_module(es: Seq<EntityView>) -> int
    decreases es.len(),
{
    if es.len() == 0 {
        0
    } else {
        let r = tests_module(es.drop_last());
        if r < es.len() - 1 {
            r
        } else if es.last().kind == "mod"@ && ends(es.last().id, "tests"@) {
            es.len() - 1
        } else {
            es.len() as int
        }
    }
}

/// Where a new test goes: into the module of tests if there is one, to the end otherwise.
pub open spec fn test_edit(s: Scene, name: Seq<char>, code: Seq<char>) -> Result<Change, Fault> {
    let end = s.src().len() as int;
    match s.lang {
        Lang::Rust => {
            let i = tests_module(s.before.entities);
            let body = reindented(code, "        "@);
            if i < s.before.entities.len() {
                match s.before.entities[i].body {
                    None => Err(Fault::BadOp("tests module has no body"@)),
                    Some((_, b)) => {
                        let at = if b > 0 {
                            b - 1
                        } else {
                            0
                        };
                        Ok(
                            rewrite(
                                at,
                                at,
                                "\n    #[test]\n    fn "@ + name + "() {\n"@ + body + "\n    }\n"@,
                            ),
                        )
                    },
                }
            } else {
                Ok(
                    rewrite(
                        end,
                        end,
                        "\n#[cfg(test)]\nmod tests {\n    use super::*;\n\n    #[test]\n    fn "@
                            + name + "() {\n"@ + body + "\n    }\n}\n"@,
                    ),
                )
            }
        },
        Lang::Python => Ok(
            rewrite(
                end,
                end,
                "\n\ndef "@ + name + "():\n"@ + reindented(code, "    "@) + "\n"@,
            ),
        ),
        Lang::TypeScript => Ok(
            rewrite(
                end,
                end,
                "\n\nexport function "@ + name + "() {\n"@ + reindented(code, "  "@) + "\n}\n"@,
            ),
        ),
    }
}

pub open spec fn add_test(s: Scene, op: &Op, w: Work) -> Result<Work, Fault> {
    match op.demand("name"@) {
        Err(e) => Err(e),
        Ok(name) => match op.demand("code"@) {
            Err(e) => Err(e),
            Ok(code) => match too_long(code) {
                Some(e) => Err(e),
                None => match test_edit(s, name, code) {
                    Err(e) => Err(e),
                    Ok(c) => Ok(w.edit(c)),
                },
            },
        },
    }
}

pub open spec fn rename(s: Scene, op: &Op, w: Work) -> Result<Work, Fault> {
    match op.demand("entity"@) {
        Err(e) => Err(e),
        Ok(id) => match op.demand("to"@) {
            Err(e) => Err(e),
            Ok(to) => match named(s, id) {
                Err(e) => Err(e),
                Ok(e) => {
                    let from = simple_of(e.id, s.sep);
                    if from.len() == 0 {
                        Err(Fault::BadOp("cannot rename "@ + id))
                    } else {
                        Ok(w.rename(from, trim_of(to)))
                    }
                },
            },
        },
    }
}

/// A deleted entity takes its newline with it, so that no blank gap is left.
pub open spec fn delete(s: Scene, op: &Op, w: Work) -> Result<Work, Fault> {
    match op.demand("entity"@) {
        Err(e) => Err(e),
        Ok(id) => match named(s, id) {
            Err(e) => Err(e),
            Ok(e) => {
                let end = if 0 <= e.end < s.src().len() && s.src()[e.end] == 10u8 {
                    e.end + 1
                } else {
                    e.end
                };
                Ok(w.edit(rewrite(e.start, end, Seq::empty())))
            },
        },
    }
}

/// What one op adds to the work.
pub open spec fn op_work(s: Scene, op: &Op, w: Work) -> Result<Work, Fault> {
    match op.text("op"@) {
        None => Err(Fault::BadOp("unknown op "@ + "<missing>"@)),
        Some(k) => if k == "replace_body"@ {
            replace_body(s, op, w)
        } else if k == "replace_signature"@ {
            replace_signature(s, op, w)
        } else if k == "insert_after"@ {
            insert_after(s, op, w)
        } else if k == "add_import"@ {
            add_import(s, op, w)
        } else if k == "add_test"@ {
            add_test(s, op, w)
        } else if k == "rename"@ {
            rename(s, op, w)
        } else if k == "delete"@ {
            delete(s, op, w)
        } else {
            Err(Fault::BadOp("unknown op "@ + k))
        },
    }
}

/// What a batch of ops comes to, or the fault of the first op that is refused.
pub open spec fn batch_work(s: Scene, ops: Seq<Op>) -> Result<Work, Fault>
    decreases ops.len(),
{
    if ops.len() == 0 {
        Ok(Work::none())
    } else {
        match batch_work(s, ops.drop_last()) {
            Err(e) => Err(e),
            Ok(w) => op_work(s, &ops.last(), w),
        }
    }
}

/// A byte of a letter, a digit or an underscore.
pub open spec fn word_byte(b: u8) -> bool {
    (97 <= b <= 122) || (65 <= b <= 90) || (48 <= b <= 57) || b == 95
}

/// A byte that an identifier can start with.
pub open spec fn first_byte(b: u8) -> bool {
    (97 <= b <= 122) || (65 <= b <= 90) || b == 95
}

/// Where the run of word bytes that starts at `i` is over.
pub open spec fn run_end(src: Seq<u8>, i: int) -> int
    decreases src.len() - i,
{
    if i < 0 || i >= src.len() || !word_byte(src[i]) {
        i
    } else {
        run_end(src, i + 1)
    }
}

proof fn lemma_run_end(src: Seq<u8>, i: int)
    requires
        0 <= i <= src.len(),
    ensures
        i <= run_end(src, i) <= src.len(),
    decreases src.len() - i,
{
    if i < src.len() && word_byte(src[i]) {
        lemma_run_end(src, i + 1);
    }
}

/// The bytes from `i` on with one whole word exchanged for another. What is part of no word stays
/// as it is.
pub open spec fn renamed_from(src: Seq<u8>, i: int, from: Seq<u8>, to: Seq<u8>) -> Seq<u8>
    decreases src.len() - i,
    via renamed_from_decreases
{
    if i < 0 || i >= src.len() {
        Seq::empty()
    } else if first_byte(src[i]) {
        let e = run_end(src, i);
        let w = src.subrange(i, e);
        (if w == from {
            to
        } else {
            w
        }) + renamed_from(src, e, from, to)
    } else {
        seq![src[i]] + renamed_from(src, i + 1, from, to)
    }
}

#[via_fn]
proof fn renamed_from_decreases(src: Seq<u8>, i: int, from: Seq<u8>, to: Seq<u8>) {
    if 0 <= i < src.len() {
        lemma_run_end(src, i + 1);
    }
}

/// The bytes with words renamed, one rename after the other.
pub open spec fn all_renamed(src: Seq<u8>, renames: Seq<(Seq<char>, Seq<char>)>) -> Seq<u8>
    decreases renames.len(),
{
    if renames.len() == 0 {
        src
    } else {
        let r = renames.last();
        renamed_from(
            all_renamed(src, renames.drop_last()),
            0,
            encode_utf8(r.0),
            encode_utf8(r.1),
        )
    }
}

/// The position of the first op of the fallback kind, or the number of ops.
pub open spec fn diff_op(ops: Seq<Op>) -> int
    decreases ops.len(),
{
    if ops.len() == 0 || ops[0].text("op"@) == Some("unified_diff"@) {
        0
    } else {
        1 + diff_op(ops.skip(1))
    }
}

/// A range of bytes in words.
pub open spec fn range_text(r: (int, int)) -> Seq<char> {
    decimal(r.0 as nat) + ".."@ + decimal(r.1 as nat)
}

/// The content that a batch of ops makes, or the fault that refuses the batch. The diff fallback
/// replaces the whole file, so it cannot be mixed with entity ops.
pub open spec fn materialized(s: Scene, ops: Seq<Op>) -> Result<Seq<u8>, Fault> {
    let d = diff_op(ops);
    if d < ops.len() {
        if ops.len() > 1 {
            Err(
                Fault::BadOp(
                    "unified_diff is a fallback for one whole file and cannot be batched with entity ops"@,
                ),
            )
        } else {
            match ops[d].demand("diff"@) {
                Err(e) => Err(e),
                Ok(diff) => match diffed(s.text, diff) {
                    Err(e) => Err(e),
                    Ok(text) => Ok(encode_utf8(text)),
                },
            }
        }
    } else {
        match batch_work(s, ops) {
            Err(e) => Err(e),
            Ok(w) => match spliced(s.src(), w.edits) {
                Spliced::Overlap { a, b } => Err(
                    Fault::BadOp(
                        "two ops edit overlapping ranges ("@ + range_text(a) + " and "@
                            + range_text(b) + ")"@,
                    ),
                ),
                Spliced::Outside => Err(Fault::BadOp("op range is outside the file"@)),
                Spliced::Done(out) => Ok(all_renamed(out, w.renames)),
            },
        }
    }
}

fn check_size(text: &str) -> (r: Result<(), AdapterError>)
    ensures
        r is Ok <==> too_long(text@) is None,
        r matches Err(e) ==> too_long(text@) == Some(e@),
{
    let all = lines(text);
    assert(texts(all@).len() == all@.len());
    let n: usize = all.len();
    if n > MAX_OP_LINES {
        let mut m = "op text is ".to_owned();
        let a = show(n as u64);
        m.push_str(a.as_str());
        m.push_str(" lines, over the ");
        let b = show(MAX_OP_LINES as u64);
        m.push_str(b.as_str());
        m.push_str(" line cap: split it into several ops");
        return Err(AdapterError::BadOp(m));
    }
    Ok(())
}

fn find_margin(s: &str) -> (r: String)
    ensures
        r@ == margin(s@),
{
    let v = to_chars(s);
    let n: usize = leading_space(v.as_slice());
    let part = vstd::slice::slice_subrange(v.as_slice(), 0, n);
    assert(part@ =~= margin(s@));
    from_chars(part)
}

fn indent_at(src: &[u8], pos: usize) -> (r: String)
    ensures
        r@ == indent_of(src@, pos as int),
{
    let p: usize = if pos < src.len() { pos } else { src.len() };
    let mut ls: usize = p;
    while ls > 0 && src[ls - 1] != 10u8
        invariant
            ls <= p <= src@.len(),
            line_start(src@, p as int) == line_start(src@, ls as int),
        decreases ls,
    {
        ls -= 1;
    }
    let t = read(src, ls, p);
    find_margin(t.as_str())
}

fn skip_bytes(line: &str, base: usize) -> (r: String)
    ensures
        r@ == past_bytes(line@, base as int),
{
    let v = to_chars(line);
    let mut i: usize = 0;
    let mut left: usize = base;
    let ghost mut owed: int = base as int;
    assert(v@.skip(0) =~= v@);
    while i < v.len() && left > 0
        invariant
            i <= v@.len(),
            v@ == line@,
            past_bytes(line@, base as int) == past_bytes(v@.skip(i as int), owed),
            left == (if owed > 0 {
                owed
            } else {
                0
            }),
        decreases v@.len() - i,
    {
        let one = from_chars(vstd::slice::slice_subrange(v.as_slice(), i, i + 1));
        assert(one@ =~= seq![v@[i as int]]);
        let w: usize = len_in_bytes(one.as_str());
        assert(v@.skip(i as int)[0] == v@[i as int]);
        assert(v@.skip(i as int).skip(1) =~= v@.skip(i + 1));
        proof {
            owed = owed - w;
        }
        left = if w < left { left - w } else { 0 };
        i += 1;
    }
    let rest = vstd::slice::slice_subrange(v.as_slice(), i, v.len());
    assert(rest@ =~= v@.skip(i as int));
    from_chars(rest)
}

fn reindent(text: &str, indent: &str) -> (r: String)
    ensures
        r@ == reindented(text@, indent@),
{
    let all = lines(text);
    let ghost l = texts(all@);
    let mut least_margin: Option<usize> = None;
    let mut i: usize = 0;
    assert(l.take(0) =~= Seq::<Seq<char>>::empty());
    while i < all.len()
        invariant
            i <= all@.len(),
            l == texts(all@),
            match least_margin {
                Some(n) => common_margin(l.take(i as int)) == Some(n as nat),
                None => common_margin(l.take(i as int)) is None,
            },
        decreases all@.len() - i,
    {
        let ghost nn = l.take(i + 1);
        assert(nn.drop_last() =~= l.take(i as int));
        assert(nn.last() == all@[i as int]@);
        let t = trim(all[i].as_str());
        if !t.as_str().is_empty() {
            let m = find_margin(all[i].as_str());
            let n: usize = len_in_bytes(m.as_str());
            least_margin = match least_margin {
                Some(k) => if n < k {
                    Some(n)
                } else {
                    Some(k)
                },
                None => Some(n),
            };
        }
        i += 1;
    }
    assert(l.take(i as int) =~= l);
    let base: usize = match least_margin {
        Some(n) => n,
        None => 0,
    };
    let ghost moved = l.map_values(|x: Seq<char>| shifted(x, base as nat, indent@));
    let mut out: Vec<String> = Vec::new();
    let mut i: usize = 0;
    assert(texts(out@) =~= moved.take(0));
    while i < all.len()
        invariant
            i <= all@.len(),
            l == texts(all@),
            moved == l.map_values(|x: Seq<char>| shifted(x, base as nat, indent@)),
            texts(out@) == moved.take(i as int),
        decreases all@.len() - i,
    {
        let ghost sofar = texts(out@);
        assert(l[i as int] == all@[i as int]@);
        let t = trim(all[i].as_str());
        let mut line = String::new();
        if !t.as_str().is_empty() {
            line.push_str(indent);
            let rest = skip_bytes(all[i].as_str(), base);
            line.push_str(rest.as_str());
            assert(line@ =~= indent@ + rest@);
        }
        assert(line@ =~= moved[i as int]);
        out.push(line);
        assert(texts(out@) =~= sofar.push(line@));
        assert(moved.take(i + 1) =~= moved.take(i as int).push(moved[i as int]));
        i += 1;
    }
    assert(moved.take(i as int) =~= moved);
    join(&out, "\n")
}

fn comment(line: &str) -> (b: bool)
    ensures
        b == is_comment(line@),
{
    let t = trim_start(line);
    let v = to_chars(t.as_str());
    starts_with(t.as_str(), "//") || (v.len() > 0 && v[0] == '#') || v.len() == 0
}

fn leading_comment_end(src: &str) -> (r: usize)
    ensures
        r == comment_end(src@),
{
    let all = lines(src);
    let ghost l = texts(all@);
    let len: usize = len_in_bytes(src);
    let mut pos: usize = 0;
    let ghost mut sum: nat = 0;
    let mut i: usize = 0;
    while i < all.len() && comment(all[i].as_str())
        invariant
            i <= all@.len(),
            l == texts(all@),
            comment_bytes(l, 0) == sum + comment_bytes(l, i as int),
            pos == sum || (pos == usize::MAX && sum > usize::MAX),
        decreases all@.len() - i,
    {
        assert(l[i as int] == all@[i as int]@);
        let n: usize = len_in_bytes(all[i].as_str());
        pos = pos.saturating_add(n).saturating_add(1);
        proof {
            sum = sum + byte_len(l[i as int]) + 1;
        }
        i += 1;
    }
    if i < all.len() {
        assert(l[i as int] == all@[i as int]@);
    }
    assert(l.len() == all@.len());
    if pos < len {
        pos
    } else {
        len
    }
}

/// The edits and renames gathered so far.
struct Todo {
    edits: Vec<Edit>,
    renames: Vec<(String, String)>,
}

impl View for Todo {
    type V = Work;

    closed spec fn view(&self) -> Work {
        Work {
            edits: changes(self.edits@),
            renames: self.renames@.map_values(|r: (String, String)| (r.0@, r.1@)),
        }
    }
}

impl Todo {
    fn edit(&mut self, start: usize, end: usize, text: &str)
        ensures
            final(self)@ == old(self)@.edit(rewrite(start as int, end as int, text@)),
    {
        let ghost sofar = changes(self.edits@);
        let e = Edit { start, end, text: vstd::slice::slice_to_vec(text.as_bytes()) };
        self.edits.push(e);
        assert(changes(self.edits@) =~= sofar.push(e@));
    }

    fn rename(&mut self, from: String, to: String)
        ensures
            final(self)@ == old(self)@.rename(from@, to@),
    {
        let ghost sofar = self@.renames;
        self.renames.push((from, to));
        assert(self@.renames =~= sofar.push((from@, to@)));
    }
}

/// What the ops are applied to.
struct Setting<'a> {
    spec: &'a LangSpec,
    before: &'a Outline,
    text: &'a str,
    src: &'a [u8],
}

impl View for Setting<'_> {
    type V = Scene;

    closed spec fn view(&self) -> Scene {
        Scene {
            lang: self.spec.lang,
            sep: self.spec.sep@,
            braced: self.spec.braced,
            before: self.before@,
            text: self.text@,
        }
    }
}

impl Setting<'_> {
    spec fn wf(&self) -> bool {
        self.src@ == encode_utf8(self.text@)
    }

    fn entity(&self, id: &str) -> (r: Result<&Entity, AdapterError>)
        ensures
            match r {
                Ok(e) => named(self@, id@) == Ok::<EntityView, Fault>(e@),
                Err(e) => named(self@, id@) == Err::<EntityView, Fault>(e@),
            },
    {
        match self.before.get(id) {
            Some(e) => Ok(e),
            None => Err(unknown(id)),
        }
    }
}

fn do_replace_body(s: &Setting<'_>, op: &Op, w: &mut Todo) -> (r: Result<(), AdapterError>)
    requires
        s.wf(),
    ensures
        match r {
            Ok(_) => replace_body(s@, op, old(w)@) == Ok::<Work, Fault>(final(w)@),
            Err(e) => replace_body(s@, op, old(w)@) == Err::<Work, Fault>(e@),
        },
{
    let id = op.str_field("entity")?;
    let body = op.str_field("body")?;
    check_size(body)?;
    let e = s.entity(id)?;
    match e.body {
        None => {
            let mut m = id.to_owned();
            m.push_str(" has no replaceable body");
            Err(AdapterError::BadOp(m))
        },
        Some((a, b)) => {
            let outer = indent_at(s.src, e.start);
            let mut inner = outer.clone();
            inner.push_str("    ");
            let inside = reindent(body, inner.as_str());
            let mut t = (if s.spec.braced { "{\n" } else { "\n" }).to_owned();
            t.push_str(inside.as_str());
            if s.spec.braced {
                t.push_str("\n");
                t.push_str(outer.as_str());
                t.push_str("}");
            }
            w.edit(a, b, t.as_str());
            Ok(())
        },
    }
}

fn do_replace_signature(s: &Setting<'_>, op: &Op, w: &mut Todo) -> (r: Result<(), AdapterError>)
    requires
        s.wf(),
    ensures
        match r {
            Ok(_) => replace_signature(s@, op, old(w)@) == Ok::<Work, Fault>(final(w)@),
            Err(e) => replace_signature(s@, op, old(w)@) == Err::<Work, Fault>(e@),
        },
{
    let id = op.str_field("entity")?;
    let signature = op.str_field("signature")?;
    check_size(signature)?;
    let e = s.entity(id)?;
    match e.body {
        None => {
            let mut m = id.to_owned();
            m.push_str(" has no body, so it has no signature to replace");
            Err(AdapterError::BadOp(m))
        },
        Some((a, _)) => {
            let mut t = trim(signature);
            t.push_str(" ");
            w.edit(e.start, a, t.as_str());
            Ok(())
        },
    }
}

fn do_insert_after(s: &Setting<'_>, op: &Op, w: &mut Todo) -> (r: Result<(), AdapterError>)
    requires
        s.wf(),
    ensures
        match r {
            Ok(_) => insert_after(s@, op, old(w)@) == Ok::<Work, Fault>(final(w)@),
            Err(e) => insert_after(s@, op, old(w)@) == Err::<Work, Fault>(e@),
        },
{
    let id = op.str_field("entity")?;
    let code = op.str_field("code")?;
    check_size(code)?;
    let e = s.entity(id)?;
    let indent = indent_at(s.src, e.start);
    let inside = reindent(code, indent.as_str());
    let mut t = "\n\n".to_owned();
    t.push_str(inside.as_str());
    w.edit(e.end, e.end, t.as_str());
    Ok(())
}

fn is_imported(es: &Vec<Entity>, text: &str) -> (b: bool)
    ensures
        b == imported(entity_views(es@), text@),
{
    let ghost all = entity_views(es@);
    let mut i: usize = 0;
    while i < es.len()
        invariant
            i <= es@.len(),
            all == entity_views(es@),
            forall|k: int|
                0 <= k < i ==> !((#[trigger] all[k]).kind == "import"@ && all[k].signature == Some(
                    text@,
                )),
        decreases es@.len() - i,
    {
        assert(all[i as int] == es@[i as int]@);
        if same(es[i].kind.as_str(), "import") {
            match &es[i].signature {
                Some(s) => {
                    if same(s.as_str(), text) {
                        return true;
                    }
                },
                None => {},
            }
        }
        i += 1;
    }
    false
}

fn find_imports_end(es: &Vec<Entity>) -> (r: Option<usize>)
    ensures
        match r {
            Some(k) => imports_end(entity_views(es@)) == Some(k as int),
            None => imports_end(entity_views(es@)) is None,
        },
{
    let ghost all = entity_views(es@);
    let mut best: Option<usize> = None;
    let mut i: usize = 0;
    assert(all.take(0) =~= Seq::<EntityView>::empty());
    while i < es.len()
        invariant
            i <= es@.len(),
            all == entity_views(es@),
            match best {
                Some(k) => imports_end(all.take(i as int)) == Some(k as int),
                None => imports_end(all.take(i as int)) is None,
            },
        decreases es@.len() - i,
    {
        let ghost nn = all.take(i + 1);
        assert(nn.drop_last() =~= all.take(i as int));
        assert(nn.last() == es@[i as int]@);
        if same(es[i].kind.as_str(), "import") {
            best = match best {
                Some(k) => if k > es[i].end {
                    Some(k)
                } else {
                    Some(es[i].end)
                },
                None => Some(es[i].end),
            };
        }
        i += 1;
    }
    assert(all.take(i as int) =~= all);
    best
}

fn do_add_import(s: &Setting<'_>, op: &Op, w: &mut Todo) -> (r: Result<(), AdapterError>)
    requires
        s.wf(),
    ensures
        match r {
            Ok(_) => add_import(s@, op, old(w)@) == Ok::<Work, Fault>(final(w)@),
            Err(e) => add_import(s@, op, old(w)@) == Err::<Work, Fault>(e@),
        },
{
    let raw = op.str_field("import")?;
    let text = trim(raw);
    if is_imported(&s.before.entities, text.as_str()) {
        return Ok(());
    }
    let at: usize = match find_imports_end(&s.before.entities) {
        Some(k) => k,
        None => leading_comment_end(s.text),
    };
    let mut t = "\n".to_owned();
    t.push_str(text.as_str());
    w.edit(at, at, t.as_str());
    Ok(())
}

proof fn lemma_tests_module_prefix(es: Seq<EntityView>, n: int)
    requires
        0 <= n <= es.len(),
    ensures
        tests_module(es.take(n)) < n ==> tests_module(es) == tests_module(es.take(n)),
    decreases es.len(),
{
    if n == es.len() {
        assert(es.take(n) =~= es);
    } else {
        lemma_tests_module_prefix(es.drop_last(), n);
        assert(es.drop_last().take(n) =~= es.take(n));
    }
}

fn find_tests_module(es: &Vec<Entity>) -> (i: usize)
    ensures
        i == tests_module(entity_views(es@)),
        i <= es@.len(),
{
    let ghost all = entity_views(es@);
    let mut i: usize = 0;
    assert(all.take(0) =~= Seq::<EntityView>::empty());
    while i < es.len()
        invariant
            i <= es@.len(),
            all == entity_views(es@),
            tests_module(all.take(i as int)) == i,
        decreases es@.len() - i,
    {
        let ghost nn = all.take(i + 1);
        assert(nn.drop_last() =~= all.take(i as int));
        assert(nn.last() == es@[i as int]@);
        if same(es[i].kind.as_str(), "mod") && ends_with(es[i].id.as_str(), "tests") {
            proof {
                lemma_tests_module_prefix(all, i + 1);
            }
            return i;
        }
        i += 1;
    }
    assert(all.take(i as int) =~= all);
    i
}

/// A text between two others.
fn wrapped(before: &str, name: &str, open: &str, body: &str, close: &str) -> (r: String)
    ensures
        r@ == before@ + name@ + open@ + body@ + close@,
{
    let mut t = before.to_owned();
    t.push_str(name);
    t.push_str(open);
    t.push_str(body);
    t.push_str(close);
    t
}

fn do_add_test(s: &Setting<'_>, op: &Op, w: &mut Todo) -> (r: Result<(), AdapterError>)
    requires
        s.wf(),
    ensures
        match r {
            Ok(_) => add_test(s@, op, old(w)@) == Ok::<Work, Fault>(final(w)@),
            Err(e) => add_test(s@, op, old(w)@) == Err::<Work, Fault>(e@),
        },
{
    let name = op.str_field("name")?;
    let code = op.str_field("code")?;
    check_size(code)?;
    let end: usize = s.src.len();
    match s.spec.lang {
        Lang::Rust => {
            let body = reindent(code, "        ");
            let i: usize = find_tests_module(&s.before.entities);
            if i < s.before.entities.len() {
                assert(s@.before.entities[i as int] == s.before.entities@[i as int]@);
                match s.before.entities[i].body {
                    None => {
                        return Err(bad_op("tests module has no body"));
                    },
                    Some((_, b)) => {
                        let at: usize = if b > 0 { b - 1 } else { 0 };
                        let t = wrapped(
                            "\n    #[test]\n    fn ",
                            name,
                            "() {\n",
                            body.as_str(),
                            "\n    }\n",
                        );
                        w.edit(at, at, t.as_str());
                    },
                }
            } else {
                let t = wrapped(
                    "\n#[cfg(test)]\nmod tests {\n    use super::*;\n\n    #[test]\n    fn ",
                    name,
                    "() {\n",
                    body.as_str(),
                    "\n    }\n}\n",
                );
                w.edit(end, end, t.as_str());
            }
        },
        Lang::Python => {
            let body = reindent(code, "    ");
            let t = wrapped("\n\ndef ", name, "():\n", body.as_str(), "\n");
            w.edit(end, end, t.as_str());
        },
        Lang::TypeScript => {
            let body = reindent(code, "  ");
            let t = wrapped("\n\nexport function ", name, "() {\n", body.as_str(), "\n}\n");
            w.edit(end, end, t.as_str());
        },
    }
    Ok(())
}

fn do_rename(s: &Setting<'_>, op: &Op, w: &mut Todo) -> (r: Result<(), AdapterError>)
    requires
        s.wf(),
    ensures
        match r {
            Ok(_) => rename(s@, op, old(w)@) == Ok::<Work, Fault>(final(w)@),
            Err(e) => rename(s@, op, old(w)@) == Err::<Work, Fault>(e@),
        },
{
    let id = op.str_field("entity")?;
    let to = op.str_field("to")?;
    let e = s.entity(id)?;
    let from = simple_name(e.id.as_str(), s.spec.sep);
    if from.as_str().is_empty() {
        let mut m = "cannot rename ".to_owned();
        m.push_str(id);
        return Err(AdapterError::BadOp(m));
    }
    w.rename(from, trim(to));
    Ok(())
}

fn do_delete(s: &Setting<'_>, op: &Op, w: &mut Todo) -> (r: Result<(), AdapterError>)
    requires
        s.wf(),
    ensures
        match r {
            Ok(_) => delete(s@, op, old(w)@) == Ok::<Work, Fault>(final(w)@),
            Err(e) => delete(s@, op, old(w)@) == Err::<Work, Fault>(e@),
        },
{
    let id = op.str_field("entity")?;
    let e = s.entity(id)?;
    let end: usize = if e.end < s.src.len() && s.src[e.end] == 10u8 { e.end + 1 } else { e.end };
    let none = String::new();
    assert(none@ =~= Seq::<char>::empty());
    w.edit(e.start, end, none.as_str());
    Ok(())
}

fn do_op(s: &Setting<'_>, op: &Op, w: &mut Todo) -> (r: Result<(), AdapterError>)
    requires
        s.wf(),
    ensures
        match r {
            Ok(_) => op_work(s@, op, old(w)@) == Ok::<Work, Fault>(final(w)@),
            Err(e) => op_work(s@, op, old(w)@) == Err::<Work, Fault>(e@),
        },
{
    match op.kind() {
        None => {
            let mut m = "unknown op ".to_owned();
            m.push_str("<missing>");
            Err(AdapterError::BadOp(m))
        },
        Some(k) => {
            if same(k, "replace_body") {
                do_replace_body(s, op, w)
            } else if same(k, "replace_signature") {
                do_replace_signature(s, op, w)
            } else if same(k, "insert_after") {
                do_insert_after(s, op, w)
            } else if same(k, "add_import") {
                do_add_import(s, op, w)
            } else if same(k, "add_test") {
                do_add_test(s, op, w)
            } else if same(k, "rename") {
                do_rename(s, op, w)
            } else if same(k, "delete") {
                do_delete(s, op, w)
            } else {
                let mut m = "unknown op ".to_owned();
                m.push_str(k);
                Err(AdapterError::BadOp(m))
            }
        },
    }
}

fn is_word_byte(b: u8) -> (r: bool)
    ensures
        r == word_byte(b),
{
    (97 <= b && b <= 122) || (65 <= b && b <= 90) || (48 <= b && b <= 57) || b == 95
}

fn is_first_byte(b: u8) -> (r: bool)
    ensures
        r == first_byte(b),
{
    (97 <= b && b <= 122) || (65 <= b && b <= 90) || b == 95
}

fn same_run(a: &[u8], b: &[u8]) -> (r: bool)
    ensures
        r == (a@ == b@),
{
    if a.len() != b.len() {
        return false;
    }
    let mut i: usize = 0;
    while i < a.len()
        invariant
            i <= a@.len(),
            a@.len() == b@.len(),
            forall|k: int| 0 <= k < i ==> a@[k] == b@[k],
        decreases a@.len() - i,
    {
        if a[i] != b[i] {
            assert(a@[i as int] != b@[i as int]);
            return false;
        }
        i += 1;
    }
    assert(a@ =~= b@);
    true
}

/// Whole-word rename: identifier boundaries, so `parse` never matches `parser`.
fn rename_word(src: &[u8], from: &str, to: &str) -> (r: Vec<u8>)
    ensures
        r@ == renamed_from(src@, 0, encode_utf8(from@), encode_utf8(to@)),
{
    let ghost f = encode_utf8(from@);
    let ghost t = encode_utf8(to@);
    let mut out: Vec<u8> = Vec::new();
    let mut i: usize = 0;
    assert(out@ + renamed_from(src@, 0, f, t) =~= renamed_from(src@, 0, f, t));
    while i < src.len()
        invariant
            i <= src@.len(),
            f == encode_utf8(from@),
            t == encode_utf8(to@),
            out@ + renamed_from(src@, i as int, f, t) == renamed_from(src@, 0, f, t),
        decreases src@.len() - i,
    {
        let ghost sofar = out@;
        if is_first_byte(src[i]) {
            proof {
                lemma_run_end(src@, i + 1);
            }
            let mut e: usize = i;
            while e < src.len() && is_word_byte(src[e])
                invariant
                    i <= e <= src@.len(),
                    run_end(src@, i as int) == run_end(src@, e as int),
                decreases src@.len() - e,
            {
                e += 1;
            }
            assert(e == run_end(src@, i as int));
            let w = vstd::slice::slice_subrange(src, i, e);
            if same_run(w, from.as_bytes()) {
                out.extend_from_slice(to.as_bytes());
                assert(out@ =~= sofar + t);
            } else {
                out.extend_from_slice(w);
                assert(out@ =~= sofar + w@);
            }
            assert(sofar + renamed_from(src@, i as int, f, t) =~= out@ + renamed_from(
                src@,
                e as int,
                f,
                t,
            ));
            i = e;
        } else {
            out.push(src[i]);
            assert(out@ =~= sofar + seq![src@[i as int]]);
            assert(sofar + renamed_from(src@, i as int, f, t) =~= out@ + renamed_from(
                src@,
                i + 1,
                f,
                t,
            ));
            i += 1;
        }
    }
    assert(out@ + renamed_from(src@, i as int, f, t) =~= out@);
    out
}

proof fn lemma_batch_fault(s: Scene, ops: Seq<Op>, n: int)
    requires
        0 <= n <= ops.len(),
        batch_work(s, ops.take(n)) is Err,
    ensures
        batch_work(s, ops) == batch_work(s, ops.take(n)),
    decreases ops.len(),
{
    if n == ops.len() {
        assert(ops.take(n) =~= ops);
    } else {
        assert(ops.drop_last().take(n) =~= ops.take(n));
        lemma_batch_fault(s, ops.drop_last(), n);
    }
}

fn find_diff_op(ops: &Vec<Op>) -> (i: usize)
    ensures
        i == diff_op(ops@),
        i <= ops@.len(),
{
    let mut i: usize = 0;
    assert(ops@.skip(0) =~= ops@);
    while i < ops.len()
        invariant
            i <= ops@.len(),
            diff_op(ops@) == i + diff_op(ops@.skip(i as int)),
        decreases ops@.len() - i,
    {
        assert(ops@.skip(i as int)[0] == ops@[i as int]);
        assert(ops@.skip(i as int).skip(1) =~= ops@.skip(i + 1));
        match ops[i].kind() {
            Some(k) => {
                if same(k, "unified_diff") {
                    return i;
                }
            },
            None => {},
        }
        i += 1;
    }
    i
}

fn show_range(r: (usize, usize)) -> (s: String)
    ensures
        s@ == range_text((r.0 as int, r.1 as int)),
{
    let mut s = show(r.0 as u64);
    s.push_str("..");
    let b = show(r.1 as u64);
    s.push_str(b.as_str());
    s
}

/// What the ops see of a file in a language.
pub open spec fn scene_of(spec: &LangSpec, before: OutlineView, text: Seq<char>) -> Scene {
    Scene { lang: spec.lang, sep: spec.sep@, braced: spec.braced, before, text }
}

/// The content that a batch of ops makes of a file with this outline, or the reason for refusing
/// the batch.
pub fn materialize(spec: &LangSpec, before: &Outline, text: &str, ops: &Vec<Op>) -> (r: Result<
    Vec<u8>,
    AdapterError,
>)
    ensures
        match r {
            Ok(out) => materialized(scene_of(spec, before@, text@), ops@) == Ok::<
                Seq<u8>,
                Fault,
            >(out@),
            Err(e) => materialized(scene_of(spec, before@, text@), ops@) == Err::<
                Seq<u8>,
                Fault,
            >(e@),
        },
{
    let d: usize = find_diff_op(ops);
    if d < ops.len() {
        if ops.len() > 1 {
            return Err(
                bad_op(
                    "unified_diff is a fallback for one whole file and cannot be batched with entity ops",
                ),
            );
        }
        let diff = ops[d].str_field("diff")?;
        return match apply_unified(text, diff) {
            Ok(t) => Ok(vstd::slice::slice_to_vec(t.as_str().as_bytes())),
            Err(e) => Err(e),
        };
    }
    let s = Setting { spec, before, text, src: text.as_bytes() };
    let ghost scene = scene_of(spec, before@, text@);
    let mut w = Todo { edits: Vec::new(), renames: Vec::new() };
    let mut i: usize = 0;
    assert(w@ =~= Work::none());
    while i < ops.len()
        invariant
            i <= ops@.len(),
            s.wf(),
            s@ == scene,
            scene == scene_of(spec, before@, text@),
            diff_op(ops@) >= ops@.len(),
            batch_work(scene, ops@.take(i as int)) == Ok::<Work, Fault>(w@),
        decreases ops@.len() - i,
    {
        let ghost nn = ops@.take(i + 1);
        assert(nn.drop_last() =~= ops@.take(i as int));
        assert(nn.last() == ops@[i as int]);
        match do_op(&s, &ops[i], &mut w) {
            Ok(_) => {},
            Err(e) => {
                proof {
                    lemma_batch_fault(scene, ops@, i + 1);
                }
                return Err(e);
            },
        }
        i += 1;
    }
    assert(ops@.take(i as int) =~= ops@);
    let ghost work = w@;
    let mut out = match splice(s.src, w.edits) {
        Ok(out) => out,
        Err(SpliceError::Outside) => {
            return Err(bad_op("op range is outside the file"));
        },
        Err(SpliceError::Overlap { a, b }) => {
            let mut m = "two ops edit overlapping ranges (".to_owned();
            let x = show_range(a);
            m.push_str(x.as_str());
            m.push_str(" and ");
            let y = show_range(b);
            m.push_str(y.as_str());
            m.push_str(")");
            return Err(AdapterError::BadOp(m));
        },
    };
    let ghost base = out@;
    let renames = w.renames;
    let ghost rs = renames@.map_values(|r: (String, String)| (r.0@, r.1@));
    assert(rs == work.renames);
    let mut i: usize = 0;
    assert(rs.take(0) =~= Seq::<(Seq<char>, Seq<char>)>::empty());
    while i < renames.len()
        invariant
            i <= renames@.len(),
            rs == renames@.map_values(|r: (String, String)| (r.0@, r.1@)),
            out@ == all_renamed(base, rs.take(i as int)),
        decreases renames@.len() - i,
    {
        let ghost nn = rs.take(i + 1);
        assert(nn.drop_last() =~= rs.take(i as int));
        assert(nn.last() == (renames@[i as int].0@, renames@[i as int].1@));
        out = rename_word(out.as_slice(), renames[i].0.as_str(), renames[i].1.as_str());
        i += 1;
    }
    assert(rs.take(i as int) =~= rs);
    Ok(out)
}

/// The bytes of an entity, as far as the content reaches; none where its range is none.
pub open spec fn clip(e: EntityView, bytes: Seq<u8>) -> Seq<u8> {
    if e.start <= e.end {
        e.bytes_in(bytes)
    } else {
        Seq::empty()
    }
}

/// The entities of `after` that `before` has too, but with other bytes.
pub open spec fn changed_bytes(
    before: OutlineView,
    after: Seq<EntityView>,
    old_bytes: Seq<u8>,
    new_bytes: Seq<u8>,
) -> Seq<Seq<char>>
    decreases after.len(),
{
    if after.len() == 0 {
        Seq::empty()
    } else {
        let rest = changed_bytes(before, after.drop_last(), old_bytes, new_bytes);
        let e = after.last();
        match before.entity(e.id) {
            Some(o) => if clip(o, old_bytes) != clip(e, new_bytes) {
                rest.push(e.id)
            } else {
                rest
            },
            None => rest,
        }
    }
}

/// What changed between two versions of a file: an entity is changed where its bytes are.
pub open spec fn byte_delta(
    before: OutlineView,
    after: OutlineView,
    old_bytes: Seq<u8>,
    new_bytes: Seq<u8>,
) -> DeltaView {
    DeltaView {
        changed: changed_bytes(before, after.entities, old_bytes, new_bytes),
        added: fresh_ids(after.entities, before),
        removed: fresh_ids(before.entities, after),
    }
}

fn clip_of<'a>(e: &Entity, a: &'a Artifact) -> (r: &'a [u8])
    ensures
        r@ == clip(e@, a.bytes@),
{
    if e.start <= e.end {
        e.slice(a)
    } else {
        let r = vstd::slice::slice_subrange(a.bytes.as_slice(), 0, 0);
        assert(r@ =~= Seq::<u8>::empty());
        r
    }
}

pub fn delta_between(
    before: &Outline,
    after: &Outline,
    before_art: &Artifact,
    after_art: &Artifact,
) -> (r: Delta)
    ensures
        r@ == byte_delta(before@, after@, before_art.bytes@, after_art.bytes@),
{
    let mut changed: Vec<String> = Vec::new();
    let ghost es = after@.entities;
    let mut i: usize = 0;
    assert(texts(changed@) =~= Seq::<Seq<char>>::empty());
    while i < after.entities.len()
        invariant
            i <= after.entities@.len(),
            es == after@.entities,
            texts(changed@) == changed_bytes(
                before@,
                es.take(i as int),
                before_art.bytes@,
                after_art.bytes@,
            ),
        decreases after.entities@.len() - i,
    {
        let ghost nn = es.take(i + 1);
        assert(nn.drop_last() =~= es.take(i as int));
        assert(nn.last() == after.entities@[i as int]@);
        let ghost sofar = texts(changed@);
        let e = &after.entities[i];
        match before.get(e.id.as_str()) {
            Some(o) => {
                if !same_run(clip_of(o, before_art), clip_of(e, after_art)) {
                    changed.push(e.id.clone());
                    assert(texts(changed@) =~= sofar.push(e.id@));
                }
            },
            None => {},
        }
        i += 1;
    }
    assert(es.take(i as int) =~= es);
    Delta {
        changed,
        added: crate::adapter::list_fresh(&after.entities, before),
        removed: crate::adapter::list_fresh(&before.entities, after),
    }
}

/// The fault of breaking a file that parsed, where the new tree has errors.
pub open spec fn broken(t: Seq<Syn>) -> Fault {
    Fault::BadOp(
        "applying these ops would break the parse ("@ + decimal(flaws(t).len())
            + " error regions, first at byte "@ + decimal(flaws(t)[0].0 as nat) + ")"@,
    )
}

/// How a batch of ops on a file comes out, given the tree of the file.
pub open spec fn comes_to(
    spec: &LangSpec,
    path: Seq<char>,
    bytes: Seq<u8>,
    tree: Seq<Syn>,
    ops: Seq<Op>,
    r: Result<Applied, AdapterError>,
) -> bool {
    let before = OutlineView { path, entities: symbols_of(spec.lang, spec.sep@, bytes, tree) };
    match materialized(scene_of(spec, before, crate::adapter::text_of(bytes)), ops) {
        Err(f) => r matches Err(e) && e@ == f,
        Ok(out) => match tree_of(spec.lang, out) {
            None => r matches Err(e) && no_tree(spec.name@, e@),
            Some(t) => if flaws(tree).len() == 0 && flaws(t).len() > 0 {
                r matches Err(e) && e@ == broken(t)
            } else {
                let after = OutlineView {
                    path,
                    entities: symbols_of(spec.lang, spec.sep@, out, t),
                };
                r matches Ok(done) && done.artifact.path@ == path && done.artifact.bytes@ == out
                    && done.delta@ == byte_delta(before, after, bytes, out)
            },
        },
    }
}

/// Apply a batch of ops to an artifact.
pub fn apply(spec: &LangSpec, artifact: &Artifact, ops: &Vec<Op>) -> (r: Result<
    Applied,
    AdapterError,
>)
    ensures
        if ops@.len() == 0 {
            r matches Err(e) && e@ == Fault::BadOp("empty op batch"@)
        } else {
            match tree_of(spec.lang, artifact.bytes@) {
                None => r matches Err(e) && no_tree(spec.name@, e@),
                Some(t) => comes_to(spec, artifact.path@, artifact.bytes@, t, ops@, r),
            }
        },
{
    if ops.len() == 0 {
        return Err(bad_op("empty op batch"));
    }
    let tree = match parse(spec, artifact) {
        Ok(t) => t,
        Err(e) => {
            return Err(e);
        },
    };
    let before = Outline {
        path: artifact.path.clone(),
        entities: extract(spec, artifact.bytes.as_slice(), &tree),
    };
    let text = artifact.text();
    let out = match materialize(spec, &before, text.as_str(), ops) {
        Ok(out) => out,
        Err(e) => {
            return Err(e);
        },
    };
    let candidate = Artifact { path: artifact.path.clone(), bytes: out };
    let old_errors = syntax_errors(&tree);
    let new_tree = match parse(spec, &candidate) {
        Ok(t) => t,
        Err(e) => {
            return Err(e);
        },
    };
    let errors = syntax_errors(&new_tree);
    assert(flaw_views(old_errors@).len() == old_errors@.len());
    assert(flaw_views(errors@).len() == errors@.len());
    if old_errors.len() == 0 && errors.len() > 0 {
        assert(flaw_views(errors@)[0].0 == errors@[0].0);
        let mut m = "applying these ops would break the parse (".to_owned();
        let n = show(errors.len() as u64);
        m.push_str(n.as_str());
        m.push_str(" error regions, first at byte ");
        let at = show(errors[0].0 as u64);
        m.push_str(at.as_str());
        m.push_str(")");
        return Err(AdapterError::BadOp(m));
    }
    let after = Outline {
        path: candidate.path.clone(),
        entities: extract(spec, candidate.bytes.as_slice(), &new_tree),
    };
    let delta = delta_between(&before, &after, artifact, &candidate);
    Ok(Applied { artifact: candidate, delta })
}

} // verus!
