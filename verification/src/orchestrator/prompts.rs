//! Prompt templates, and the versioning that makes them safe to change.
//!
//! The version of a prompt is a hash of its text, never a number that someone maintains: such a
//! number gets forgotten exactly once, and the result is a cache full of answers produced by a
//! prompt that no longer exists.

use crate::adapter::MAX_DIAGNOSTICS;
use crate::identity::blake3_of;
use crate::identity::hex_of;
use crate::identity::Digest;
use crate::text::texts;
use crate::text::trim;
use crate::text::trim_of;
use vstd::prelude::*;
use vstd::utf8::encode_utf8;

verus! {

pub const EDIT_SYSTEM: &'static str = r#"You edit code by emitting structured operations, never by rewriting files.

Rules:
- Emit a json array of ops matching the given schema. No prose, no markdown fences.
- Name the entity you are changing by its id, exactly as it appears in the context.
- One entity per op. Keep each op under 120 lines.
- Change only what the instruction asks for. Unrelated entities must come out byte identical.
- If you need something imported, emit an add_import op rather than editing the import block."#;

pub const REPAIR_SYSTEM: &'static str = r#"Your previous edit was rejected. You are given the diagnostics and the current state of the code.

Rules:
- Emit a json array of ops matching the given schema. No prose, no markdown fences.
- Fix exactly what the diagnostics describe. Do not restyle or refactor anything else.
- If a diagnostic is about something you cannot see in the context, say so by emitting no ops
  rather than guessing."#;

pub const DIFF_SYSTEM: &'static str = r#"Entity ops have failed twice for this edit, so emit one unified diff for this single file instead.

Rules:
- Emit a json array containing exactly one op: {"op":"unified_diff","diff":"..."}.
- Include at least three lines of context around every change.
- Line numbers in hunk headers are a hint; the context lines are what must match."#;

pub const PLAN_SYSTEM: &'static str = r#"You turn a request into a list of edits. You do not write code here.

Rules:
- Emit a json object matching the schema: a list of edits, each naming a file path, the id of the
  entity to change, and a one sentence instruction.
- Name entities exactly as they appear in the file outlines you are given.
- Prefer the smallest set of entities that can satisfy the request.
- Order matters only within one file; edits to different files run concurrently."#;

/// The schema a planner must satisfy.
pub const PLAN_SCHEMA: &'static str = r#"{
  "type": "object",
  "required": [
    "edits"
  ],
  "additionalProperties": false,
  "properties": {
    "edits": {
      "type": "array",
      "minItems": 1,
      "maxItems": 32,
      "items": {
        "type": "object",
        "required": [
          "path",
          "target",
          "instruction"
        ],
        "additionalProperties": false,
        "properties": {
          "path": {
            "type": "string"
          },
          "target": {
            "type": "string",
            "description": "entity id from the outline"
          },
          "instruction": {
            "type": "string"
          }
        }
      }
    }
  }
}"#;

/// The schema a planner must satisfy.
pub fn plan_schema() -> (r: &'static str)
    ensures
        r@ == PLAN_SCHEMA@,
{
    PLAN_SCHEMA
}

/// The version of a template.
pub open spec fn version_of(template: Seq<char>) -> Seq<char> {
    hex_of(blake3_of(encode_utf8(template))).take(12)
}

/// Version of a template: a hash of its text, short enough to read in a node key.
pub fn version(template: &str) -> (r: String)
    ensures
        r@ == version_of(template@),
{
    Digest::of(template.as_bytes()).short()
}

/// A run of texts as a list.
pub open spec fn bullet_list(v: Seq<Seq<char>>) -> Seq<char>
    decreases v.len(),
{
    if v.len() == 0 {
        Seq::empty()
    } else {
        bullet_list(v.drop_last()) + "- "@ + v.last() + "\n"@
    }
}

/// The diagnostics that a prompt carries.
pub open spec fn carried(d: Seq<Seq<char>>) -> Seq<Seq<char>> {
    if d.len() > MAX_DIAGNOSTICS {
        d.take(MAX_DIAGNOSTICS as int)
    } else {
        d
    }
}

/// The user message for an edit: the instruction, the diagnostics of the last attempt where there
/// are any, and the context.
pub open spec fn edit_message(
    instruction: Seq<char>,
    pack: Seq<char>,
    diagnostics: Seq<Seq<char>>,
) -> Seq<char> {
    let head = "# instruction\n"@ + trim_of(instruction) + "\n\n"@;
    let middle = if diagnostics.len() == 0 {
        head
    } else {
        head + "# diagnostics from the last attempt\n"@ + bullet_list(carried(diagnostics))
            + "\n"@
    };
    middle + "# context\n"@ + pack
}

/// Adds the first `n` of a run of texts as a list.
fn push_list(s: &mut String, v: &Vec<String>, n: usize)
    requires
        n <= v@.len(),
    ensures
        final(s)@ == old(s)@ + bullet_list(texts(v@).take(n as int)),
{
    let ghost base = s@;
    let ghost all = texts(v@);
    let mut i: usize = 0;
    assert(base + bullet_list(all.take(0)) =~= base);
    while i < n
        invariant
            i <= n <= v@.len(),
            all == texts(v@),
            s@ == base + bullet_list(all.take(i as int)),
        decreases n - i,
    {
        proof {
            let nn = all.take(i + 1);
            assert(nn.drop_last() =~= all.take(i as int));
            assert(nn.last() == v@[i as int]@);
        }
        s.push_str("- ");
        s.push_str(v[i].as_str());
        s.push_str("\n");
        assert(s@ =~= base + bullet_list(all.take(i + 1)));
        i += 1;
    }
}

/// The user message for an edit.
pub fn edit_user(instruction: &str, pack: &str, diagnostics: &Vec<String>) -> (r: String)
    ensures
        r@ == edit_message(instruction@, pack@, texts(diagnostics@)),
{
    let mut s = "# instruction\n".to_owned();
    let body = trim(instruction);
    s.push_str(body.as_str());
    s.push_str("\n\n");
    if diagnostics.len() > 0 {
        s.push_str("# diagnostics from the last attempt\n");
        let n: usize = if diagnostics.len() > MAX_DIAGNOSTICS {
            MAX_DIAGNOSTICS
        } else {
            diagnostics.len()
        };
        push_list(&mut s, diagnostics, n);
        assert(texts(diagnostics@).take(n as int) =~= carried(texts(diagnostics@)));
        s.push_str("\n");
    }
    s.push_str("# context\n");
    s.push_str(pack);
    s
}

/// The outlines of some files, each with the ids in it.
pub open spec fn outline_views(v: Seq<(String, Vec<String>)>) -> Seq<(Seq<char>, Seq<Seq<char>>)> {
    v.map_values(|e: (String, Vec<String>)| (e.0@, texts(e.1@)))
}

/// The files of a plan's message.
pub open spec fn file_list(v: Seq<(Seq<char>, Seq<Seq<char>>)>) -> Seq<char>
    decreases v.len(),
{
    if v.len() == 0 {
        Seq::empty()
    } else {
        file_list(v.drop_last()) + "## "@ + v.last().0 + "\n"@ + bullet_list(v.last().1) + "\n"@
    }
}

/// The user message for a plan.
pub open spec fn plan_message(
    instruction: Seq<char>,
    outlines: Seq<(Seq<char>, Seq<Seq<char>>)>,
) -> Seq<char> {
    "# request\n"@ + trim_of(instruction) + "\n\n# files\n"@ + file_list(outlines)
}

/// The user message for a plan.
pub fn plan_user(instruction: &str, outlines: &Vec<(String, Vec<String>)>) -> (r: String)
    ensures
        r@ == plan_message(instruction@, outline_views(outlines@)),
{
    let mut s = "# request\n".to_owned();
    let body = trim(instruction);
    s.push_str(body.as_str());
    s.push_str("\n\n# files\n");
    let ghost base = s@;
    let ghost all = outline_views(outlines@);
    let mut i: usize = 0;
    assert(base + file_list(all.take(0)) =~= base);
    while i < outlines.len()
        invariant
            i <= outlines@.len(),
            all == outline_views(outlines@),
            s@ == base + file_list(all.take(i as int)),
        decreases outlines@.len() - i,
    {
        let e = &outlines[i];
        proof {
            let nn = all.take(i + 1);
            assert(nn.drop_last() =~= all.take(i as int));
            assert(nn.last() == (e.0@, texts(e.1@)));
        }
        s.push_str("## ");
        s.push_str(e.0.as_str());
        s.push_str("\n");
        let n = e.1.len();
        push_list(&mut s, &e.1, n);
        assert(texts(e.1@).take(n as int) =~= texts(e.1@));
        s.push_str("\n");
        assert(s@ =~= base + file_list(all.take(i + 1)));
        i += 1;
    }
    assert(all.take(i as int) =~= all);
    s
}

} // verus!
