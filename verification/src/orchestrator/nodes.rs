//! What a node *is*, in a real task.
//!
//! The engine hashes op payloads and knows nothing about them. Here those bytes get meaning: a
//! node is a source file, a context pack, an executor call that emits ops, a verify rung, or a
//! planner call that expands into all of the above.
//!
//! Node keys are stable across runs of the same task, because duration history is keyed on them.

use crate::identity::digest_in;
use crate::identity::hex_of;
use crate::identity::lemma_digest_back;
use crate::identity::Digest;
use crate::identity::NodeKind;
use crate::json::as_items;
use crate::json::as_text;
use crate::json::as_whole;
use crate::json::field_names;
use crate::json::fields;
use crate::json::get;
use crate::json::held;
use crate::json::json_of;
use crate::json::list_of;
use crate::json::list_value;
use crate::json::number;
use crate::json::object_of;
use crate::json::parse;
use crate::json::plain;
use crate::json::text_of_key;
use crate::json::text_value;
use crate::json::whole_value;
use crate::json::write_object;
use crate::json::written;
use crate::json::Json;
use crate::text::same;
use crate::text::texts;
use crate::utf8::from_utf8;
use vstd::prelude::*;
use vstd::utf8::decode_utf8;
use vstd::utf8::encode_utf8;
use vstd::utf8::valid_utf8;

verus! {

/// How an edit should be expressed.
#[derive(Clone, Copy, PartialEq, Eq, Structural, Debug)]
pub enum EditMode {
    /// Named entity ops. The default and the thing being measured.
    Ops,
    /// One unified diff over the whole file. Only reached after ops have failed twice.
    Diff,
}

/// The op payload of every node this runtime creates.
pub enum NodeOp {
    /// A file as it exists on disk. Its op carries the content hash, which is how an input change
    /// enters the graph.
    Source { path: String, content: Digest },
    /// The structural summary of a file: entity ids and kinds, nothing else. Two files that differ
    /// only inside a function body have the same outline, so a body edit does not re-plan.
    Outline { path: String },
    /// Deterministic context assembly.
    Pack { path: String, target: String, budget_chars: usize },
    /// An executor call that emits ops, plus the materialization of those ops.
    Edit {
        path: String,
        target: String,
        instruction: String,
        mode: EditMode,
        /// 0 for the first try. Each repair increments it, and it is part of the op, so a repair
        /// is a different action with its own cache entry.
        attempt: u32,
        /// What went wrong last time. Part of the identity: the same failure produces the same
        /// repair, which is what makes repairs cacheable.
        diagnostics: Vec<String>,
    },
    /// One rung of the ladder.
    Verify {
        path: String,
        level: u8,
        attempt: u32,
        /// The entity the preceding edit targeted, so a repair knows what to fix.
        target: String,
        instruction: String,
    },
    /// A planner call. Expands into the whole subgraph of packs, edits and rungs.
    Plan {
        instruction: String,
        /// Paths the planner may edit, in the same order as this node's dependencies, so
        /// `inputs[i]` is the outline of `paths[i]`.
        paths: Vec<String>,
    },
}

/// What an op payload says.
#[verifier::ext_equal]
pub ghost enum OpModel {
    Source { path: Seq<char>, content: Seq<u8> },
    Outline { path: Seq<char> },
    Pack { path: Seq<char>, target: Seq<char>, budget: nat },
    Edit {
        path: Seq<char>,
        target: Seq<char>,
        instruction: Seq<char>,
        mode: EditMode,
        attempt: nat,
        diagnostics: Seq<Seq<char>>,
    },
    Verify {
        path: Seq<char>,
        level: nat,
        attempt: nat,
        target: Seq<char>,
        instruction: Seq<char>,
    },
    Plan { instruction: Seq<char>, paths: Seq<Seq<char>> },
}

impl View for NodeOp {
    type V = OpModel;

    open spec fn view(&self) -> OpModel {
        match *self {
            NodeOp::Source { path, content } => OpModel::Source { path: path@, content: content@ },
            NodeOp::Outline { path } => OpModel::Outline { path: path@ },
            NodeOp::Pack { path, target, budget_chars } => OpModel::Pack {
                path: path@,
                target: target@,
                budget: budget_chars as nat,
            },
            NodeOp::Edit { path, target, instruction, mode, attempt, diagnostics } => OpModel::Edit {
                path: path@,
                target: target@,
                instruction: instruction@,
                mode,
                attempt: attempt as nat,
                diagnostics: texts(diagnostics@),
            },
            NodeOp::Verify { path, level, attempt, target, instruction } => OpModel::Verify {
                path: path@,
                level: level as nat,
                attempt: attempt as nat,
                target: target@,
                instruction: instruction@,
            },
            NodeOp::Plan { instruction, paths } => OpModel::Plan {
                instruction: instruction@,
                paths: texts(paths@),
            },
        }
    }
}

/// The word for a mode.
pub open spec fn mode_word(m: EditMode) -> Seq<char> {
    match m {
        EditMode::Ops => "ops"@,
        EditMode::Diff => "diff"@,
    }
}

/// A field of text.
pub open spec fn text_field(name: Seq<char>, v: Seq<char>) -> (Seq<char>, Json) {
    (name, Json::Text(v))
}

/// A field that is a number.
pub open spec fn whole_field(name: Seq<char>, n: nat) -> (Seq<char>, Json) {
    (name, number(n as int))
}

/// The fields that a payload is written as, in order.
pub open spec fn fields_of(op: OpModel) -> Seq<(Seq<char>, Json)> {
    match op {
        OpModel::Source { path, content } => seq![
            text_field("node"@, "source"@),
            text_field("path"@, path),
            text_field("content"@, hex_of(content)),
        ],
        OpModel::Outline { path } => seq![
            text_field("node"@, "outline"@),
            text_field("path"@, path),
        ],
        OpModel::Pack { path, target, budget } => seq![
            text_field("node"@, "pack"@),
            text_field("path"@, path),
            text_field("target"@, target),
            whole_field("budget_chars"@, budget),
        ],
        OpModel::Edit { path, target, instruction, mode, attempt, diagnostics } => seq![
            text_field("node"@, "edit"@),
            text_field("path"@, path),
            text_field("target"@, target),
            text_field("instruction"@, instruction),
            text_field("mode"@, mode_word(mode)),
            whole_field("attempt"@, attempt),
            ("diagnostics"@, list_of(diagnostics)),
        ],
        OpModel::Verify { path, level, attempt, target, instruction } => seq![
            text_field("node"@, "verify"@),
            text_field("path"@, path),
            whole_field("level"@, level),
            whole_field("attempt"@, attempt),
            text_field("target"@, target),
            text_field("instruction"@, instruction),
        ],
        OpModel::Plan { instruction, paths } => seq![
            text_field("node"@, "plan"@),
            text_field("instruction"@, instruction),
            ("paths"@, list_of(paths)),
        ],
    }
}

/// The bytes of a payload.
pub open spec fn encoded(op: OpModel) -> Seq<u8> {
    encode_utf8(written(fields_of(op)))
}

/// The text under a key of an object.
pub open spec fn text_in(j: Json, key: Seq<char>) -> Option<Seq<char>> {
    match j.at(key) {
        Some(x) => x.text(),
        None => None,
    }
}

/// The number under a key of an object, where it is not over a limit.
pub open spec fn whole_in(j: Json, key: Seq<char>, max: nat) -> Option<nat> {
    match j.at(key) {
        Some(x) => match x.whole() {
            Some(n) => if n <= max {
                Some(n as nat)
            } else {
                None
            },
            None => None,
        },
        None => None,
    }
}

/// A run of texts, where each item is one.
pub open spec fn all_texts(v: Seq<Json>) -> Option<Seq<Seq<char>>>
    decreases v.len(),
{
    if v.len() == 0 {
        Some(Seq::empty())
    } else {
        match (all_texts(v.drop_last()), v.last().text()) {
            (Some(rest), Some(t)) => Some(rest.push(t)),
            _ => None,
        }
    }
}

/// The run of texts under a key of an object.
pub open spec fn texts_in(j: Json, key: Seq<char>) -> Option<Seq<Seq<char>>> {
    match j.at(key) {
        Some(x) => match x.items() {
            Some(v) => all_texts(v),
            None => None,
        },
        None => None,
    }
}

/// The mode that a word names.
pub open spec fn mode_of(word: Seq<char>) -> Option<EditMode> {
    if word == "ops"@ {
        Some(EditMode::Ops)
    } else if word == "diff"@ {
        Some(EditMode::Diff)
    } else {
        None
    }
}

/// The payload that an object says.
pub open spec fn op_in(j: Json) -> Option<OpModel> {
    match text_in(j, "node"@) {
        None => None,
        Some(k) => if k == "source"@ {
            match (text_in(j, "path"@), text_in(j, "content"@)) {
                (Some(path), Some(hex)) => match digest_in(hex) {
                    Some(content) => Some(OpModel::Source { path, content }),
                    None => None,
                },
                _ => None,
            }
        } else if k == "outline"@ {
            match text_in(j, "path"@) {
                Some(path) => Some(OpModel::Outline { path }),
                None => None,
            }
        } else if k == "pack"@ {
            match (
                text_in(j, "path"@),
                text_in(j, "target"@),
                whole_in(j, "budget_chars"@, usize::MAX as nat),
            ) {
                (Some(path), Some(target), Some(budget)) => Some(
                    OpModel::Pack { path, target, budget },
                ),
                _ => None,
            }
        } else if k == "edit"@ {
            edit_in(j)
        } else if k == "verify"@ {
            match (
                text_in(j, "path"@),
                whole_in(j, "level"@, u8::MAX as nat),
                whole_in(j, "attempt"@, u32::MAX as nat),
                text_in(j, "target"@),
                text_in(j, "instruction"@),
            ) {
                (Some(path), Some(level), Some(attempt), Some(target), Some(instruction)) => Some(
                    OpModel::Verify { path, level, attempt, target, instruction },
                ),
                _ => None,
            }
        } else if k == "plan"@ {
            match (text_in(j, "instruction"@), texts_in(j, "paths"@)) {
                (Some(instruction), Some(paths)) => Some(OpModel::Plan { instruction, paths }),
                _ => None,
            }
        } else {
            None
        },
    }
}

/// The edit that an object says.
pub open spec fn edit_in(j: Json) -> Option<OpModel> {
    match (
        text_in(j, "path"@),
        text_in(j, "target"@),
        text_in(j, "instruction"@),
        text_in(j, "mode"@),
        whole_in(j, "attempt"@, u32::MAX as nat),
        texts_in(j, "diagnostics"@),
    ) {
        (Some(path), Some(target), Some(instruction), Some(word), Some(attempt), Some(
            diagnostics,
        )) => match mode_of(word) {
            Some(mode) => Some(
                OpModel::Edit { path, target, instruction, mode, attempt, diagnostics },
            ),
            None => None,
        },
        _ => None,
    }
}

/// The payload that bytes say.
pub open spec fn decoded(bytes: Seq<u8>) -> Option<OpModel> {
    if valid_utf8(bytes) {
        match json_of(decode_utf8(bytes)) {
            Some(j) => op_in(j),
            None => None,
        }
    } else {
        None
    }
}

proof fn lemma_names_differ()
    ensures
        ({
            let n = seq![
                "node"@,
                "path"@,
                "mode"@,
                "content"@,
                "attempt"@,
                "target"@,
                "budget_chars"@,
                "instruction"@,
                "diagnostics"@,
                "level"@,
                "paths"@,
            ];
            n.no_duplicates()
        }),
{
    reveal_strlit("node");
    reveal_strlit("path");
    reveal_strlit("mode");
    reveal_strlit("content");
    reveal_strlit("attempt");
    reveal_strlit("target");
    reveal_strlit("budget_chars");
    reveal_strlit("instruction");
    reveal_strlit("diagnostics");
    reveal_strlit("level");
    reveal_strlit("paths");
    let n = seq![
        "node"@,
        "path"@,
        "mode"@,
        "content"@,
        "attempt"@,
        "target"@,
        "budget_chars"@,
        "instruction"@,
        "diagnostics"@,
        "level"@,
        "paths"@,
    ];
    assert forall|i: int, j: int| 0 <= i < n.len() && 0 <= j < n.len() && i != j implies n[i]
        != n[j] by {
        assert(n[i].len() != n[j].len() || n[i][0] != n[j][0]);
    }
}

proof fn lemma_words_differ()
    ensures
        ({
            let n = seq!["source"@, "outline"@, "pack"@, "edit"@, "verify"@, "plan"@];
            n.no_duplicates()
        }),
        "ops"@ != "diff"@,
{
    reveal_strlit("source");
    reveal_strlit("outline");
    reveal_strlit("pack");
    reveal_strlit("edit");
    reveal_strlit("verify");
    reveal_strlit("plan");
    reveal_strlit("ops");
    reveal_strlit("diff");
    let n = seq!["source"@, "outline"@, "pack"@, "edit"@, "verify"@, "plan"@];
    assert forall|i: int, j: int| 0 <= i < n.len() && 0 <= j < n.len() && i != j implies n[i]
        != n[j] by {
        assert(n[i].len() != n[j].len() || n[i][0] != n[j][0] || n[i][1] != n[j][1]);
    }
    assert("ops"@.len() != "diff"@.len());
}

/// A field of an object with different names is under its name.
proof fn lemma_object(f: Seq<(Seq<char>, Json)>, i: int)
    requires
        field_names(f).no_duplicates(),
        0 <= i < f.len(),
    ensures
        object_of(f).contains_key(f[i].0),
        object_of(f)[f[i].0] == f[i].1,
    decreases f.len(),
{
    if i < f.len() - 1 {
        let d = f.drop_last();
        assert forall|a: int, b: int| 0 <= a < d.len() && 0 <= b < d.len() && a != b implies field_names(
            d,
        )[a] != field_names(d)[b] by {
            assert(field_names(d)[a] == field_names(f)[a]);
            assert(field_names(d)[b] == field_names(f)[b]);
        }
        lemma_object(d, i);
        assert(field_names(f)[i] != field_names(f)[f.len() - 1]);
        assert(f.last().0 == field_names(f)[f.len() - 1]);
        assert(f[i].0 == field_names(f)[i]);
        assert(d[i] == f[i]);
    }
}

proof fn lemma_all_texts(v: Seq<Seq<char>>)
    ensures
        all_texts(v.map_values(|s: Seq<char>| Json::Text(s))) == Some(v),
    decreases v.len(),
{
    let j = v.map_values(|s: Seq<char>| Json::Text(s));
    if v.len() > 0 {
        lemma_all_texts(v.drop_last());
        assert(j.drop_last() =~= v.drop_last().map_values(|s: Seq<char>| Json::Text(s)));
        assert(v.drop_last().push(v.last()) =~= v);
    } else {
        assert(v =~= Seq::<Seq<char>>::empty());
    }
}

/// Does a payload fit its fields: a 32-byte digest, and numbers within their types?
pub open spec fn fits(op: OpModel) -> bool {
    match op {
        OpModel::Source { path, content } => content.len() == 32,
        OpModel::Outline { path } => true,
        OpModel::Pack { path, target, budget } => budget <= usize::MAX,
        OpModel::Edit { path, target, instruction, mode, attempt, diagnostics } => attempt
            <= u32::MAX,
        OpModel::Verify { path, level, attempt, target, instruction } => attempt <= u32::MAX
            && level <= u8::MAX,
        OpModel::Plan { instruction, paths } => true,
    }
}

/// The fields of a payload have different names and plain values, and say the payload.
proof fn lemma_fields(op: OpModel)
    requires
        fits(op),
    ensures
        field_names(fields_of(op)).no_duplicates(),
        forall|i: int| 0 <= i < fields_of(op).len() ==> plain((#[trigger] fields_of(op)[i]).1),
        op_in(Json::Object(object_of(fields_of(op)))) == Some(op),
{
    let f = fields_of(op);
    let names = field_names(f);
    lemma_names_differ();
    lemma_words_differ();
    assert(names.no_duplicates()) by {
        let n = seq![
            "node"@,
            "path"@,
            "mode"@,
            "content"@,
            "attempt"@,
            "target"@,
            "budget_chars"@,
            "instruction"@,
            "diagnostics"@,
            "level"@,
            "paths"@,
        ];
        assert(n[0] != n[1] && n[0] != n[3] && n[1] != n[3]);
        assert(n[0] != n[5] && n[0] != n[6] && n[1] != n[5] && n[1] != n[6] && n[5] != n[6]);
        assert(n[0] != n[2] && n[0] != n[4] && n[0] != n[7] && n[0] != n[8] && n[0] != n[9]
            && n[0] != n[10]);
        assert(n[1] != n[2] && n[1] != n[4] && n[1] != n[7] && n[1] != n[8] && n[1] != n[9]);
        assert(n[2] != n[4] && n[2] != n[5] && n[2] != n[7] && n[2] != n[8]);
        assert(n[4] != n[5] && n[4] != n[7] && n[4] != n[8] && n[4] != n[9]);
        assert(n[5] != n[7] && n[5] != n[8] && n[5] != n[9]);
        assert(n[7] != n[8] && n[7] != n[9] && n[7] != n[10]);
    }
    let w = seq!["source"@, "outline"@, "pack"@, "edit"@, "verify"@, "plan"@];
    assert(w[0] != w[1] && w[0] != w[2] && w[0] != w[3] && w[0] != w[4] && w[0] != w[5]);
    assert(w[1] != w[2] && w[1] != w[3] && w[1] != w[4] && w[1] != w[5]);
    assert(w[2] != w[3] && w[2] != w[4] && w[2] != w[5]);
    assert(w[3] != w[4] && w[3] != w[5] && w[4] != w[5]);
    let j = Json::Object(object_of(f));
    assert forall|i: int| 0 <= i < f.len() implies j.at((#[trigger] f[i]).0) == Some(f[i].1) by {
        lemma_object(f, i);
    }
    assert(j.at(f[0].0) == Some(f[0].1));
    assert(j.at(f[1].0) == Some(f[1].1));
    match op {
        OpModel::Source { path, content } => {
            assert(j.at(f[2].0) == Some(f[2].1));
            lemma_digest_back(content);
        },
        OpModel::Outline { path } => {},
        OpModel::Pack { path, target, budget } => {
            assert(j.at(f[2].0) == Some(f[2].1));
            assert(j.at(f[3].0) == Some(f[3].1));
        },
        OpModel::Edit { path, target, instruction, mode, attempt, diagnostics } => {
            assert(j.at(f[2].0) == Some(f[2].1));
            assert(j.at(f[3].0) == Some(f[3].1));
            assert(j.at(f[4].0) == Some(f[4].1));
            assert(j.at(f[5].0) == Some(f[5].1));
            assert(j.at(f[6].0) == Some(f[6].1));
            lemma_all_texts(diagnostics);
        },
        OpModel::Verify { path, level, attempt, target, instruction } => {
            assert(j.at(f[2].0) == Some(f[2].1));
            assert(j.at(f[3].0) == Some(f[3].1));
            assert(j.at(f[4].0) == Some(f[4].1));
            assert(j.at(f[5].0) == Some(f[5].1));
        },
        OpModel::Plan { instruction, paths } => {
            assert(j.at(f[2].0) == Some(f[2].1));
            lemma_all_texts(paths);
        },
    }
}

fn put(v: &mut Vec<(String, serde_json::Value)>, name: &str, value: serde_json::Value)
    ensures
        fields(final(v)@) == fields(old(v)@).push((name@, held(value))),
{
    let ghost was = fields(v@);
    v.push((name.to_owned(), value));
    assert(fields(v@) =~= was.push((name@, held(value))));
}

fn read_texts(v: &serde_json::Value, key: &str) -> (r: Option<Vec<String>>)
    ensures
        match r {
            Some(t) => texts_in(held(*v), key@) == Some(texts(t@)),
            None => texts_in(held(*v), key@) is None,
        },
{
    let x = match get(v, key) {
        Some(x) => x,
        None => {
            return None;
        },
    };
    let items = match as_items(x) {
        Some(items) => items,
        None => {
            return None;
        },
    };
    let ghost all = items@.map_values(|x: serde_json::Value| held(x));
    let mut out: Vec<String> = Vec::new();
    let mut i: usize = 0;
    assert(texts(out@) =~= Seq::<Seq<char>>::empty());
    while i < items.len()
        invariant
            i <= items@.len(),
            all == items@.map_values(|x: serde_json::Value| held(x)),
            texts_in(held(*v), key@) == all_texts(all),
            all_texts(all.take(i as int)) == Some(texts(out@)),
        decreases items@.len() - i,
    {
        let ghost nn = all.take(i + 1);
        assert(nn.drop_last() =~= all.take(i as int));
        assert(nn.last() == held(items@[i as int]));
        match as_text(&items[i]) {
            Some(t) => {
                let ghost was = texts(out@);
                out.push(t.to_owned());
                assert(texts(out@) =~= was.push(t@));
            },
            None => {
                proof {
                    lemma_texts_fail(all, i + 1);
                }
                return None;
            },
        }
        i += 1;
    }
    assert(all.take(i as int) =~= all);
    Some(out)
}

proof fn lemma_texts_fail(v: Seq<Json>, n: int)
    requires
        0 <= n <= v.len(),
        all_texts(v.take(n)) is None,
    ensures
        all_texts(v) is None,
    decreases v.len(),
{
    if n == v.len() {
        assert(v.take(n) =~= v);
    } else {
        assert(v.drop_last().take(n) =~= v.take(n));
        lemma_texts_fail(v.drop_last(), n);
    }
}

fn read_whole(v: &serde_json::Value, key: &str, max: u64) -> (r: Option<u64>)
    ensures
        match r {
            Some(n) => whole_in(held(*v), key@, max as nat) == Some(n as nat) && n <= max,
            None => whole_in(held(*v), key@, max as nat) is None,
        },
{
    match get(v, key) {
        Some(x) => match as_whole(x) {
            Some(n) => if n <= max {
                Some(n)
            } else {
                None
            },
            None => None,
        },
        None => None,
    }
}

fn read_text(v: &serde_json::Value, key: &str) -> (r: Option<String>)
    ensures
        match r {
            Some(t) => text_in(held(*v), key@) == Some(t@),
            None => text_in(held(*v), key@) is None,
        },
{
    match text_of_key(v, key) {
        Some(t) => Some(t.to_owned()),
        None => None,
    }
}

fn read_edit(v: &serde_json::Value) -> (r: Option<NodeOp>)
    ensures
        match r {
            Some(op) => edit_in(held(*v)) == Some(op@),
            None => edit_in(held(*v)) is None,
        },
{
    let path = read_text(v, "path")?;
    let target = read_text(v, "target")?;
    let instruction = read_text(v, "instruction")?;
    let word = read_text(v, "mode")?;
    let attempt = read_whole(v, "attempt", u32::MAX as u64)?;
    let diagnostics = read_texts(v, "diagnostics")?;
    let mode = if same(word.as_str(), "ops") {
        EditMode::Ops
    } else if same(word.as_str(), "diff") {
        EditMode::Diff
    } else {
        return None;
    };
    Some(
        NodeOp::Edit { path, target, instruction, mode, attempt: attempt as u32, diagnostics },
    )
}

impl NodeOp {
    /// The payload as bytes: a json object, its fields in a fixed order. Decoding them gives the
    /// payload back.
    pub fn encode(&self) -> (r: Vec<u8>)
        ensures
            r@ == encoded(self@),
            decoded(r@) == Some(self@),
    {
        let mut v: Vec<(String, serde_json::Value)> = Vec::new();
        assert(fields(v@) =~= Seq::<(Seq<char>, Json)>::empty());
        match self {
            NodeOp::Source { path, content } => {
                put(&mut v, "node", text_value("source"));
                put(&mut v, "path", text_value(path.as_str()));
                let hex = content.hex();
                put(&mut v, "content", text_value(hex.as_str()));
                proof {
                    crate::identity::lemma_digest_len(*content);
                }
            },
            NodeOp::Outline { path } => {
                put(&mut v, "node", text_value("outline"));
                put(&mut v, "path", text_value(path.as_str()));
            },
            NodeOp::Pack { path, target, budget_chars } => {
                put(&mut v, "node", text_value("pack"));
                put(&mut v, "path", text_value(path.as_str()));
                put(&mut v, "target", text_value(target.as_str()));
                put(&mut v, "budget_chars", whole_value(*budget_chars as u64));
            },
            NodeOp::Edit { path, target, instruction, mode, attempt, diagnostics } => {
                put(&mut v, "node", text_value("edit"));
                put(&mut v, "path", text_value(path.as_str()));
                put(&mut v, "target", text_value(target.as_str()));
                put(&mut v, "instruction", text_value(instruction.as_str()));
                let word = match mode {
                    EditMode::Ops => "ops",
                    EditMode::Diff => "diff",
                };
                put(&mut v, "mode", text_value(word));
                put(&mut v, "attempt", whole_value(*attempt as u64));
                put(&mut v, "diagnostics", list_value(diagnostics));
            },
            NodeOp::Verify { path, level, attempt, target, instruction } => {
                put(&mut v, "node", text_value("verify"));
                put(&mut v, "path", text_value(path.as_str()));
                put(&mut v, "level", whole_value(*level as u64));
                put(&mut v, "attempt", whole_value(*attempt as u64));
                put(&mut v, "target", text_value(target.as_str()));
                put(&mut v, "instruction", text_value(instruction.as_str()));
            },
            NodeOp::Plan { instruction, paths } => {
                put(&mut v, "node", text_value("plan"));
                put(&mut v, "instruction", text_value(instruction.as_str()));
                put(&mut v, "paths", list_value(paths));
            },
        }
        proof {
            assert(fields(v@) =~= fields_of(self@));
            lemma_fields(self@);
        }
        let text = write_object(&v);
        proof {
            vstd::utf8::encode_utf8_valid_utf8(text@);
            vstd::utf8::encode_utf8_decode_utf8(text@);
        }
        vstd::slice::slice_to_vec(text.as_str().as_bytes())
    }

    /// The payload that bytes say, where they say one.
    pub fn decode(bytes: &[u8]) -> (r: Option<NodeOp>)
        ensures
            match r {
                Some(op) => decoded(bytes@) == Some(op@),
                None => decoded(bytes@) is None,
            },
    {
        let text = from_utf8(bytes)?;
        let v = parse(text.as_str())?;
        let k = read_text(&v, "node")?;
        if same(k.as_str(), "source") {
            let path = read_text(&v, "path")?;
            let hex = read_text(&v, "content")?;
            let content = Digest::from_hex(hex.as_str())?;
            Some(NodeOp::Source { path, content })
        } else if same(k.as_str(), "outline") {
            let path = read_text(&v, "path")?;
            Some(NodeOp::Outline { path })
        } else if same(k.as_str(), "pack") {
            let path = read_text(&v, "path")?;
            let target = read_text(&v, "target")?;
            let budget = read_whole(&v, "budget_chars", usize::MAX as u64)?;
            Some(NodeOp::Pack { path, target, budget_chars: budget as usize })
        } else if same(k.as_str(), "edit") {
            read_edit(&v)
        } else if same(k.as_str(), "verify") {
            let path = read_text(&v, "path")?;
            let level = read_whole(&v, "level", u8::MAX as u64)?;
            let attempt = read_whole(&v, "attempt", u32::MAX as u64)?;
            let target = read_text(&v, "target")?;
            let instruction = read_text(&v, "instruction")?;
            Some(
                NodeOp::Verify {
                    path,
                    level: level as u8,
                    attempt: attempt as u32,
                    target,
                    instruction,
                },
            )
        } else if same(k.as_str(), "plan") {
            let instruction = read_text(&v, "instruction")?;
            let paths = read_texts(&v, "paths")?;
            Some(NodeOp::Plan { instruction, paths })
        } else {
            None
        }
    }

    /// What the engine should call this kind of work, for lane and job classification.
    pub fn kind(&self) -> (r: NodeKind)
        ensures
            r == kind_of(self@),
    {
        match self {
            NodeOp::Source { .. } => NodeKind::Data,
            NodeOp::Outline { .. } => NodeKind::Context,
            NodeOp::Pack { .. } => NodeKind::Context,
            NodeOp::Edit { .. } => NodeKind::Op,
            NodeOp::Verify { .. } => NodeKind::Verify,
            NodeOp::Plan { .. } => NodeKind::Plan,
        }
    }
}

/// The kind of work that a payload is.
pub open spec fn kind_of(op: OpModel) -> NodeKind {
    match op {
        OpModel::Source { .. } => NodeKind::Data,
        OpModel::Outline { .. } => NodeKind::Context,
        OpModel::Pack { .. } => NodeKind::Context,
        OpModel::Edit { .. } => NodeKind::Op,
        OpModel::Verify { .. } => NodeKind::Verify,
        OpModel::Plan { .. } => NodeKind::Plan,
    }
}

} // verus!
