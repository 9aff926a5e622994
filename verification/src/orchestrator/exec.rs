//! What a node decides: what to ask a model, what to do with a refused edit or a failed rung.
//!
//! A node is a pure function of its inputs, which is what makes the memo store safe: a hit can
//! stand in for an execution because there was nothing else the execution could have done.
//!
//! A failed edit escalates: entity ops, entity ops again with the diagnostics, one unified diff for
//! the file, and then it is given up and reported. Each step is a node, so a repair that has been
//! done before is a cache hit.

use crate::adapter::findings;
use crate::adapter::AdapterError;
use crate::adapter::Diagnostic;
use crate::adapter::EntityView;
use crate::adapter::Finding;
use crate::adapter::Outline;
use crate::adapter::RungOutcome;
use crate::code::pack::DEFAULT_BUDGET_CHARS;
use crate::engine::exec::Expansion;
use crate::engine::exec::NodeResult;
use crate::engine::graph::key_names;
use crate::engine::graph::NodeSpec;
use crate::identity::blake3_of;
use crate::identity::digest_bytes;
use crate::identity::frame;
use crate::identity::frames;
use crate::identity::Digest;
use crate::identity::Env;
use crate::identity::Hasher;
use crate::identity::NodeKind;
use crate::identity::NodeOutput;
use crate::json::as_items;
use crate::json::as_text;
use crate::json::get;
use crate::json::held;
use crate::json::json_of;
use crate::json::parse;
use crate::json::text_of_key;
use crate::json::Json;
use crate::names::before;
use crate::names::is_before;
use crate::names::lemma_before_asymmetric;
use crate::names::lemma_before_total;
use crate::names::lemma_before_transitive;
use crate::orchestrator::chain::asked;
use crate::orchestrator::chain::is_link;
use crate::orchestrator::chain::step;
use crate::orchestrator::chain::Asked;
use crate::orchestrator::chain::EditRequest;
use crate::orchestrator::chain::Link;
use crate::orchestrator::key;
use crate::orchestrator::key::verify_key;
use crate::orchestrator::model::ModelRequest;
use crate::orchestrator::nodes::text_in;
use crate::orchestrator::nodes::EditMode;
use crate::orchestrator::nodes::NodeOp;
use crate::orchestrator::nodes::OpModel;
use crate::orchestrator::prompts;
use crate::orchestrator::prompts::version_of;
use crate::text::decimal;
use crate::text::join;
use crate::text::join_of;
use crate::text::lines;
use crate::text::lines_of;
use crate::text::show;
use crate::text::texts;
use crate::wording::replace_all;
use crate::wording::replaced;
use vstd::prelude::*;
use vstd::utf8::encode_utf8;

verus! {

/// Counters the benchmark reports. They wrap round at 64 bits.
#[derive(Clone, Copy, PartialEq, Eq, Structural, Debug)]
pub struct MetricsSnapshot {
    pub edits_attempted: u64,
    pub ops_applied: u64,
    pub ops_rejected: u64,
    pub diff_fallbacks: u64,
    pub repairs: u64,
    pub gave_up: u64,
    pub rungs_run: u64,
    pub rungs_failed: u64,
    pub rungs_unavailable: u64,
}

impl Default for MetricsSnapshot {
    fn default() -> (r: Self)
        ensures
            r == no_metrics(),
    {
        MetricsSnapshot {
            edits_attempted: 0,
            ops_applied: 0,
            ops_rejected: 0,
            diff_fallbacks: 0,
            repairs: 0,
            gave_up: 0,
            rungs_run: 0,
            rungs_failed: 0,
            rungs_unavailable: 0,
        }
    }
}

/// Nothing counted yet.
pub open spec fn no_metrics() -> MetricsSnapshot {
    MetricsSnapshot {
        edits_attempted: 0,
        ops_applied: 0,
        ops_rejected: 0,
        diff_fallbacks: 0,
        repairs: 0,
        gave_up: 0,
        rungs_run: 0,
        rungs_failed: 0,
        rungs_unavailable: 0,
    }
}

/// One more.
pub open spec fn bumped(n: u64) -> u64 {
    if n == u64::MAX {
        0
    } else {
        (n + 1) as u64
    }
}

fn bump(n: u64) -> (r: u64)
    ensures
        r == bumped(n),
{
    if n == u64::MAX {
        0
    } else {
        n + 1
    }
}

pub struct RuntimeConfig {
    /// Workspace root, for rungs that shell out.
    pub workspace: Option<String>,
    /// Rungs to run after each edit. The task level rung is added by the planner.
    pub levels: Vec<u8>,
    pub budget_chars: usize,
    /// After this many failed attempts at one edit, stop: ops twice, then a diff.
    pub max_attempts: u32,
    pub planner_model_id: String,
    pub executor_model_id: String,
}

impl Default for RuntimeConfig {
    fn default() -> (r: Self)
        ensures
            r.workspace is None,
            r.levels@ == seq![0u8, 1u8],
            r.budget_chars == DEFAULT_BUDGET_CHARS,
            r.max_attempts == 3,
            r.planner_model_id@ == "planner"@,
            r.executor_model_id@ == "executor"@,
    {
        let mut levels: Vec<u8> = Vec::new();
        levels.push(0);
        levels.push(1);
        assert(levels@ =~= seq![0u8, 1u8]);
        RuntimeConfig {
            workspace: None,
            levels,
            budget_chars: DEFAULT_BUDGET_CHARS,
            max_attempts: 3,
            planner_model_id: "planner".to_owned(),
            executor_model_id: "executor".to_owned(),
        }
    }
}

/// The environment a node runs in. Every field is hashed into the action key, which is what makes
/// "bump a prompt, invalidate only its nodes" true.
pub fn env_for(template: &str, adapter_version: &str, model_id: &str) -> (r: Env)
    ensures
        r.model_id@ == model_id@,
        r.prompt_version@ == version_of(template@),
        r.adapter_version@ == adapter_version@,
{
    let v = prompts::version(template);
    Env::new(model_id, v.as_str(), adapter_version)
}

/// The texts with one more, behind those that are not after it.
pub open spec fn slotted(v: Seq<Seq<char>>, s: Seq<char>) -> Seq<Seq<char>>
    decreases v.len(),
{
    if v.len() == 0 || !before(s, v.last()) {
        v.push(s)
    } else {
        slotted(v.drop_last(), s).push(v.last())
    }
}

/// Texts in order.
pub open spec fn sorted(v: Seq<Seq<char>>) -> Seq<Seq<char>>
    decreases v.len(),
{
    if v.len() == 0 {
        Seq::empty()
    } else {
        slotted(sorted(v.drop_last()), v.last())
    }
}

proof fn lemma_slotted(v: Seq<Seq<char>>, s: Seq<char>, i: int)
    requires
        0 <= i <= v.len(),
        i > 0 ==> !before(s, v[i - 1]),
        forall|k: int| i <= k < v.len() ==> before(s, #[trigger] v[k]),
    ensures
        slotted(v, s) == v.insert(i, s),
    decreases v.len(),
{
    if i == v.len() {
        assert(v.insert(i, s) =~= v.push(s));
    } else {
        assert(before(s, v[v.len() - 1]));
        lemma_slotted(v.drop_last(), s, i);
        assert(v.drop_last().insert(i, s).push(v.last()) =~= v.insert(i, s));
    }
}

fn slot(v: &mut Vec<String>, s: String)
    ensures
        texts(final(v)@) == slotted(texts(old(v)@), s@),
{
    let ghost t = texts(v@);
    let ghost sv = s@;
    let mut i: usize = v.len();
    while i > 0 && is_before(s.as_str(), v[i - 1].as_str())
        invariant
            i <= v@.len(),
            t == texts(v@),
            sv == s@,
            forall|k: int| i <= k < t.len() ==> before(sv, #[trigger] t[k]),
        decreases i,
    {
        assert(t[i - 1] == v@[i - 1]@);
        i -= 1;
    }
    proof {
        if i > 0 {
            assert(t[i - 1] == v@[i - 1]@);
        }
        lemma_slotted(t, sv, i as int);
    }
    v.insert(i, s);
    assert(texts(v@) =~= t.insert(i as int, sv));
}

/// What an outline says of an entity: its id and its kind. Bodies are left out, which is what lets
/// a body edit leave the plan untouched.
pub open spec fn outline_line(e: EntityView) -> Seq<char> {
    e.id + " ["@ + e.kind + "]"@
}

/// The structural summary of a file.
pub open spec fn outline_text(path: Seq<char>, es: Seq<EntityView>) -> Seq<char> {
    path + "\n"@ + join_of(sorted(es.map_values(|e: EntityView| outline_line(e))), "\n"@)
}

/// The structural summary of a file.
pub fn summarise(path: &str, outline: &Outline) -> (r: String)
    ensures
        r@ == outline_text(path@, outline@.entities),
{
    let ghost all = outline@.entities.map_values(|e: EntityView| outline_line(e));
    let mut v: Vec<String> = Vec::new();
    let mut i: usize = 0;
    assert(texts(v@) =~= sorted(all.take(0)));
    while i < outline.entities.len()
        invariant
            i <= outline.entities@.len(),
            all == outline@.entities.map_values(|e: EntityView| outline_line(e)),
            texts(v@) == sorted(all.take(i as int)),
        decreases outline.entities@.len() - i,
    {
        let e = &outline.entities[i];
        let mut l = e.id.clone();
        l.push_str(" [");
        l.push_str(e.kind.as_str());
        l.push_str("]");
        proof {
            let nn = all.take(i + 1);
            assert(nn.drop_last() =~= all.take(i as int));
            assert(nn.last() == all[i as int]);
            assert(outline@.entities[i as int] == e@);
            assert(l@ == all[i as int]);
        }
        slot(&mut v, l);
        i += 1;
    }
    assert(all.take(i as int) =~= all);
    let mut s = path.to_owned();
    s.push_str("\n");
    let body = join(&v, "\n");
    s.push_str(body.as_str());
    s
}

/// What entities are called and what kind they are of.
pub open spec fn labels(es: Seq<EntityView>) -> Seq<(Seq<char>, Seq<char>)> {
    es.map_values(|e: EntityView| (e.id, e.kind))
}

proof fn lemma_slotting_commutes(v: Seq<Seq<char>>, s: Seq<char>, t: Seq<char>)
    ensures
        slotted(slotted(v, s), t) == slotted(slotted(v, t), s),
    decreases v.len(),
{
    lemma_before_total(s, t);
    lemma_before_asymmetric(s, t);
    lemma_before_asymmetric(t, s);
    assert(v.push(s).drop_last() =~= v);
    assert(v.push(t).drop_last() =~= v);
    if v.len() > 0 {
        let w = v.drop_last();
        let l = v.last();
        lemma_slotting_commutes(w, s, t);
        lemma_before_total(s, l);
        lemma_before_total(t, l);
        assert(slotted(w, s).push(l).drop_last() =~= slotted(w, s));
        assert(slotted(w, t).push(l).drop_last() =~= slotted(w, t));
        if before(s, l) && before(l, t) {
            lemma_before_transitive(s, l, t);
        }
        if before(t, l) && before(l, s) {
            lemma_before_transitive(t, l, s);
        }
    }
}

spec fn slotting() -> spec_fn(Seq<Seq<char>>, (Seq<char>, Seq<char>)) -> Seq<Seq<char>> {
    |acc: Seq<Seq<char>>, l: (Seq<char>, Seq<char>)| slotted(acc, l.0 + " ["@ + l.1 + "]"@)
}

proof fn lemma_sorting_folds(es: Seq<EntityView>)
    ensures
        sorted(es.map_values(|e: EntityView| outline_line(e))) == labels(es).fold_left(
            Seq::empty(),
            slotting(),
        ),
    decreases es.len(),
{
    reveal(Seq::fold_left);
    let all = es.map_values(|e: EntityView| outline_line(e));
    if es.len() > 0 {
        let w = es.drop_last();
        lemma_sorting_folds(w);
        assert(all.drop_last() =~= w.map_values(|e: EntityView| outline_line(e)));
        assert(labels(es).drop_last() =~= labels(w));
        assert(all.last() == outline_line(es.last()));
        assert(labels(es).last() == (es.last().id, es.last().kind));
    }
}

/// A change inside bodies leaves the summary of a file byte identical: it is a function of the ids
/// and kinds of the entities, whatever order they stand in. So the plan, which reads summaries
/// only, is not made again.
pub proof fn law_a_body_edit_keeps_the_summary(
    path: Seq<char>,
    a: Seq<EntityView>,
    b: Seq<EntityView>,
)
    requires
        labels(a).to_multiset() == labels(b).to_multiset(),
    ensures
        outline_text(path, a) == outline_text(path, b),
{
    let f = slotting();
    assert forall|x: (Seq<char>, Seq<char>), y: (Seq<char>, Seq<char>), v: Seq<Seq<char>>|
     #[trigger] f(f(v, x), y) == f(f(v, y), x) by {
        lemma_slotting_commutes(v, x.0 + " ["@ + x.1 + "]"@, y.0 + " ["@ + y.1 + "]"@);
    }
    lemma_sorting_folds(a);
    lemma_sorting_folds(b);
    vstd::seq_lib::lemma_fold_left_permutation(labels(a), labels(b), f, Seq::empty());
}

/// The ids that a summary lists: its lines but the first.
pub open spec fn listed_ids(text: Seq<char>) -> Seq<Seq<char>> {
    let l = lines_of(text);
    if l.len() > 0 {
        l.skip(1)
    } else {
        l
    }
}

/// The ids that a summary lists.
pub fn read_summary(text: &str) -> (r: Vec<String>)
    ensures
        texts(r@) == listed_ids(text@),
{
    let v = lines(text);
    let ghost all = texts(v@);
    let mut out: Vec<String> = Vec::new();
    let mut i: usize = 1;
    assert(all.skip(1).take(0) =~= Seq::<Seq<char>>::empty());
    assert(texts(out@) =~= Seq::<Seq<char>>::empty());
    while i < v.len()
        invariant
            1 <= i,
            v@.len() >= 1 ==> i <= v@.len(),
            all == texts(v@),
            v@.len() >= 1 ==> texts(out@) == all.skip(1).take(i - 1),
            v@.len() == 0 ==> out@.len() == 0,
        decreases v@.len() - i,
    {
        let ghost was = texts(out@);
        out.push(v[i].clone());
        assert(texts(out@) =~= was.push(all[i as int]));
        assert(all.skip(1).take(i as int) =~= was.push(all[i as int]));
        i += 1;
    }
    proof {
        if v@.len() > 0 {
            assert(all.skip(1).take(i - 1) =~= all.skip(1));
        } else {
            assert(texts(out@) =~= all);
        }
    }
    out
}

/// The identity of what a join waited for.
pub open spec fn join_bytes(inputs: Seq<Digest>) -> Seq<u8> {
    frames(seq![encode_utf8("flash.join.v1"@)] + digest_bytes(inputs))
}

/// The output of a join: the inputs, hashed in order.
pub fn join_digest(inputs: &Vec<Digest>) -> (r: Digest)
    ensures
        r@ == blake3_of(join_bytes(inputs@)),
{
    let mut h = Hasher::new("flash.join.v1");
    let ghost head = seq![encode_utf8("flash.join.v1"@)];
    let ghost all = digest_bytes(inputs@);
    let mut i: usize = 0;
    proof {
        assert(head.drop_last() =~= Seq::<Seq<u8>>::empty());
        assert(frames(Seq::<Seq<u8>>::empty()) =~= Seq::<u8>::empty());
        assert(frames(head) =~= frame(head[0]));
        assert(head + all.take(0) =~= head);
    }
    while i < inputs.len()
        invariant
            i <= inputs@.len(),
            all == digest_bytes(inputs@),
            head == seq![encode_utf8("flash.join.v1"@)],
            h@ == frames(head + all.take(i as int)),
        decreases inputs@.len() - i,
    {
        let ghost now = head + all.take(i + 1);
        assert(now.drop_last() =~= head + all.take(i as int));
        assert(now.last() == inputs@[i as int]@);
        h.digest(&inputs[i]);
        i += 1;
    }
    assert(head + all.take(i as int) =~= head + all);
    h.finish()
}

/// The budget for a pack: what its node says, and at least what the configuration allows of it.
pub open spec fn budget_for(asked_for: nat, allowed: nat) -> nat {
    let floor = if asked_for > 1 {
        asked_for
    } else {
        1
    };
    let least = if allowed < floor {
        allowed
    } else {
        floor
    };
    if asked_for > least {
        asked_for
    } else {
        least
    }
}

/// The budget for a pack.
pub fn pack_budget(asked_for: usize, allowed: usize) -> (r: usize)
    ensures
        r == budget_for(asked_for as nat, allowed as nat),
{
    let floor: usize = if asked_for > 1 { asked_for } else { 1 };
    let least: usize = if allowed < floor { allowed } else { floor };
    if asked_for > least {
        asked_for
    } else {
        least
    }
}

/// The system message for an attempt at an edit.
pub open spec fn system_of(mode: EditMode, attempt: nat) -> Seq<char> {
    if mode == EditMode::Diff {
        prompts::DIFF_SYSTEM@
    } else if attempt == 0 {
        prompts::EDIT_SYSTEM@
    } else {
        prompts::REPAIR_SYSTEM@
    }
}

/// The system message for an attempt at an edit.
pub fn system_for(mode: EditMode, attempt: u32) -> (r: &'static str)
    ensures
        r@ == system_of(mode, attempt as nat),
{
    match mode {
        EditMode::Diff => prompts::DIFF_SYSTEM,
        EditMode::Ops => if attempt == 0 {
            prompts::EDIT_SYSTEM
        } else {
            prompts::REPAIR_SYSTEM
        },
    }
}

/// Is this what an executor is asked for an edit?
pub open spec fn asks_edit(
    r: ModelRequest,
    model_id: Seq<char>,
    mode: EditMode,
    attempt: nat,
    instruction: Seq<char>,
    pack: Seq<char>,
    diagnostics: Seq<Seq<char>>,
    schema: Seq<char>,
) -> bool {
    &&& r.model_id@ == model_id
    &&& r.prompt_version@ == version_of(system_of(mode, attempt))
    &&& r.system@ == system_of(mode, attempt)
    &&& r.user@ == prompts::edit_message(instruction, pack, diagnostics)
    &&& crate::adapter::opt_text(r.schema) == Some(schema)
    &&& r.max_output_tokens == 2048
}

/// What an executor is asked for an edit.
pub fn edit_request(
    model_id: &str,
    mode: EditMode,
    attempt: u32,
    instruction: &str,
    pack: &str,
    diagnostics: &Vec<String>,
    schema: &str,
) -> (r: ModelRequest)
    ensures
        asks_edit(
            r,
            model_id@,
            mode,
            attempt as nat,
            instruction@,
            pack@,
            texts(diagnostics@),
            schema@,
        ),
{
    let system = system_for(mode, attempt);
    ModelRequest {
        model_id: model_id.to_owned(),
        prompt_version: prompts::version(system),
        system: system.to_owned(),
        user: prompts::edit_user(instruction, pack, diagnostics),
        schema: Some(schema.to_owned()),
        max_output_tokens: 2048,
    }
}

/// Is this what a planner is asked?
pub open spec fn asks_plan(
    r: ModelRequest,
    model_id: Seq<char>,
    instruction: Seq<char>,
    outlines: Seq<(Seq<char>, Seq<Seq<char>>)>,
) -> bool {
    &&& r.model_id@ == model_id
    &&& r.prompt_version@ == version_of(prompts::PLAN_SYSTEM@)
    &&& r.system@ == prompts::PLAN_SYSTEM@
    &&& r.user@ == prompts::plan_message(instruction, outlines)
    &&& crate::adapter::opt_text(r.schema) == Some(prompts::PLAN_SCHEMA@)
    &&& r.max_output_tokens == 1024
}

/// What a planner is asked. It sees structure, never bodies.
pub fn plan_request(
    model_id: &str,
    instruction: &str,
    outlines: &Vec<(String, Vec<String>)>,
) -> (r: ModelRequest)
    ensures
        asks_plan(r, model_id@, instruction@, prompts::outline_views(outlines@)),
{
    ModelRequest {
        model_id: model_id.to_owned(),
        prompt_version: prompts::version(prompts::PLAN_SYSTEM),
        system: prompts::PLAN_SYSTEM.to_owned(),
        user: prompts::plan_user(instruction, outlines),
        schema: Some(prompts::PLAN_SCHEMA.to_owned()),
        max_output_tokens: 1024,
    }
}

/// The edit that one item of a planner's list asks for: an object with the three fields, or the
/// three in order.
pub open spec fn item_asks(j: Json) -> Option<Asked> {
    match j {
        Json::Object(m) => match (
            text_in(j, "path"@),
            text_in(j, "target"@),
            text_in(j, "instruction"@),
        ) {
            (Some(path), Some(target), Some(instruction)) => Some(
                Asked { path, target, instruction },
            ),
            _ => None,
        },
        Json::Array(v) => if v.len() == 3 {
            match (v[0].text(), v[1].text(), v[2].text()) {
                (Some(path), Some(target), Some(instruction)) => Some(
                    Asked { path, target, instruction },
                ),
                _ => None,
            }
        } else {
            None
        },
        _ => None,
    }
}

/// The edits that a list asks for, where each of its items asks for one.
pub open spec fn items_ask(v: Seq<Json>) -> Option<Seq<Asked>>
    decreases v.len(),
{
    if v.len() == 0 {
        Some(Seq::empty())
    } else {
        match (items_ask(v.drop_last()), item_asks(v.last())) {
            (Some(rest), Some(e)) => Some(rest.push(e)),
            _ => None,
        }
    }
}

/// The edits that a planner's reply asks for, where it is a reply.
pub open spec fn reply_asks(json: Option<Seq<char>>) -> Option<Seq<Asked>> {
    match json {
        None => None,
        Some(t) => match json_of(t) {
            None => None,
            Some(j) => match j.at("edits"@) {
                None => None,
                Some(x) => match x.items() {
                    None => None,
                    Some(v) => items_ask(v),
                },
            },
        },
    }
}

/// The edits of a plan, or what is wrong with the reply.
pub open spec fn planned(json: Option<Seq<char>>) -> Result<Seq<Asked>, Seq<char>> {
    match reply_asks(json) {
        None => Err("planner did not return a valid edit list"@),
        Some(v) => if v.len() == 0 {
            Err("planner returned no edits"@)
        } else {
            Ok(v)
        },
    }
}

fn read_item(v: &serde_json::Value) -> (r: Option<EditRequest>)
    ensures
        match r {
            Some(e) => item_asks(held(*v)) == Some(e@),
            None => item_asks(held(*v)) is None,
        },
{
    if let Some(items) = as_items(v) {
        let ghost all = items@.map_values(|x: serde_json::Value| held(x));
        assert(all.len() == items@.len());
        if items.len() != 3 {
            return None;
        }
        assert(all[0] == held(items@[0]) && all[1] == held(items@[1]) && all[2] == held(items@[2]));
        let path = as_text(&items[0])?;
        let target = as_text(&items[1])?;
        let instruction = as_text(&items[2])?;
        return Some(
            EditRequest {
                path: path.to_owned(),
                target: target.to_owned(),
                instruction: instruction.to_owned(),
            },
        );
    }
    let path = text_of_key(v, "path")?;
    let target = text_of_key(v, "target")?;
    let instruction = text_of_key(v, "instruction")?;
    Some(
        EditRequest {
            path: path.to_owned(),
            target: target.to_owned(),
            instruction: instruction.to_owned(),
        },
    )
}

proof fn lemma_items_fail(v: Seq<Json>, n: int)
    requires
        0 <= n <= v.len(),
        items_ask(v.take(n)) is None,
    ensures
        items_ask(v) is None,
    decreases v.len(),
{
    if n == v.len() {
        assert(v.take(n) =~= v);
    } else {
        assert(v.drop_last().take(n) =~= v.take(n));
        lemma_items_fail(v.drop_last(), n);
    }
}

fn read_items(items: &Vec<serde_json::Value>) -> (r: Option<Vec<EditRequest>>)
    ensures
        ({
            let all = items@.map_values(|x: serde_json::Value| held(x));
            match r {
                Some(v) => items_ask(all) == Some(asked(v@)),
                None => items_ask(all) is None,
            }
        }),
{
    let ghost all = items@.map_values(|x: serde_json::Value| held(x));
    let mut out: Vec<EditRequest> = Vec::new();
    let mut i: usize = 0;
    assert(asked(out@) =~= Seq::<Asked>::empty());
    while i < items.len()
        invariant
            i <= items@.len(),
            all == items@.map_values(|x: serde_json::Value| held(x)),
            items_ask(all.take(i as int)) == Some(asked(out@)),
        decreases items@.len() - i,
    {
        let ghost nn = all.take(i + 1);
        assert(nn.drop_last() =~= all.take(i as int));
        assert(nn.last() == held(items@[i as int]));
        match read_item(&items[i]) {
            Some(e) => {
                let ghost was = asked(out@);
                out.push(e);
                assert(asked(out@) =~= was.push(e@));
            },
            None => {
                proof {
                    lemma_items_fail(all, i + 1);
                }
                return None;
            },
        }
        i += 1;
    }
    assert(all.take(i as int) =~= all);
    Some(out)
}

fn read_asks(json: &Option<String>) -> (r: Option<Vec<EditRequest>>)
    ensures
        match r {
            Some(v) => reply_asks(crate::adapter::opt_text(*json)) == Some(asked(v@)),
            None => reply_asks(crate::adapter::opt_text(*json)) is None,
        },
{
    match json {
        None => None,
        Some(t) => match parse(t.as_str()) {
            None => None,
            Some(v) => match get(&v, "edits") {
                None => None,
                Some(x) => match as_items(x) {
                    None => None,
                    Some(items) => read_items(items),
                },
            },
        },
    }
}

/// Reads a planner's reply.
pub fn read_plan(json: &Option<String>) -> (r: Result<Vec<EditRequest>, String>)
    ensures
        match r {
            Ok(v) => planned(crate::adapter::opt_text(*json)) == Ok::<Seq<Asked>, Seq<char>>(
                asked(v@),
            ),
            Err(e) => planned(crate::adapter::opt_text(*json)) == Err::<Seq<Asked>, Seq<char>>(e@),
        },
{
    match read_asks(json) {
        None => Err("planner did not return a valid edit list".to_owned()),
        Some(v) => {
            assert(asked(v@).len() == v@.len());
            if v.len() == 0 {
                Err("planner returned no edits".to_owned())
            } else {
                Ok(v)
            }
        },
    }
}

/// A finding as a line, with where it is where that is known.
pub open spec fn finding_line(f: Finding, placed: bool) -> Seq<char> {
    match f.line {
        Some(l) => if placed {
            f.code + " at line "@ + decimal(l as nat) + ": "@ + f.message
        } else {
            f.code + ": "@ + f.message
        },
        None => f.code + ": "@ + f.message,
    }
}

fn diagnostic_lines(d: &Vec<Diagnostic>, placed: bool) -> (r: Vec<String>)
    ensures
        texts(r@) == findings(d@).map_values(|f: Finding| finding_line(f, placed)),
{
    let ghost all = findings(d@).map_values(|f: Finding| finding_line(f, placed));
    let mut out: Vec<String> = Vec::new();
    let mut i: usize = 0;
    assert(texts(out@) =~= all.take(0));
    while i < d.len()
        invariant
            i <= d@.len(),
            all == findings(d@).map_values(|f: Finding| finding_line(f, placed)),
            texts(out@) == all.take(i as int),
        decreases d@.len() - i,
    {
        let ghost was = texts(out@);
        let mut l = d[i].code.clone();
        if placed {
            if let Some(n) = d[i].line {
                l.push_str(" at line ");
                let t = show(n as u64);
                l.push_str(t.as_str());
            }
        }
        l.push_str(": ");
        l.push_str(d[i].message.as_str());
        assert(findings(d@)[i as int] == d@[i as int]@);
        assert(l@ =~= all[i as int]);
        out.push(l);
        assert(texts(out@) =~= was.push(all[i as int]));
        assert(all.take(i + 1) =~= was.push(all[i as int]));
        i += 1;
    }
    assert(all.take(i as int) =~= all);
    out
}

/// What a rung's outcome comes to.
pub enum AfterRung {
    /// The rung could not run, which is not a pass: unverified work stays out of the cache.
    Unavailable(Vec<String>),
    Passed,
    /// To repair, with these diagnostics.
    Failed(Vec<String>),
}

/// Reads a rung's outcome, and counts it.
pub fn after_rung(outcome: &RungOutcome, m: &mut MetricsSnapshot) -> (r: AfterRung)
    ensures
        match r {
            AfterRung::Unavailable(d) => {
                &&& outcome.unavailable
                &&& texts(d@) == outcome@.diagnostics.map_values(
                    |f: Finding| finding_line(f, false),
                )
                &&& *final(m) == (MetricsSnapshot {
                    rungs_run: bumped(old(m).rungs_run),
                    rungs_unavailable: bumped(old(m).rungs_unavailable),
                    ..*old(m)
                })
            },
            AfterRung::Passed => {
                &&& !outcome.unavailable && outcome.passed
                &&& *final(m) == (MetricsSnapshot { rungs_run: bumped(old(m).rungs_run), ..*old(m) })
            },
            AfterRung::Failed(d) => {
                &&& !outcome.unavailable && !outcome.passed
                &&& texts(d@) == outcome@.diagnostics.map_values(
                    |f: Finding| finding_line(f, true),
                )
                &&& *final(m) == (MetricsSnapshot {
                    rungs_run: bumped(old(m).rungs_run),
                    rungs_failed: bumped(old(m).rungs_failed),
                    ..*old(m)
                })
            },
        },
{
    m.rungs_run = bump(m.rungs_run);
    if outcome.unavailable {
        m.rungs_unavailable = bump(m.rungs_unavailable);
        AfterRung::Unavailable(diagnostic_lines(&outcome.diagnostics, false))
    } else if outcome.passed {
        AfterRung::Passed
    } else {
        m.rungs_failed = bump(m.rungs_failed);
        AfterRung::Failed(diagnostic_lines(&outcome.diagnostics, true))
    }
}

/// How the attempt after this one is made: ops after the first attempt, a diff after a later one,
/// and none once there have been enough.
pub open spec fn next_mode(attempt: nat, max_attempts: nat) -> Option<EditMode> {
    if attempt + 1 >= max_attempts {
        None
    } else if attempt == 0 {
        Some(EditMode::Ops)
    } else {
        Some(EditMode::Diff)
    }
}

/// How the attempt after this one is made.
pub fn next_attempt(attempt: u32, max_attempts: u32) -> (r: Option<EditMode>)
    ensures
        r == next_mode(attempt as nat, max_attempts as nat),
{
    if attempt == u32::MAX || attempt + 1 >= max_attempts {
        None
    } else if attempt == 0 {
        Some(EditMode::Ops)
    } else {
        Some(EditMode::Diff)
    }
}

/// The counters after an attempt failed.
pub open spec fn after_failure(m: MetricsSnapshot, next: Option<EditMode>) -> MetricsSnapshot {
    match next {
        None => MetricsSnapshot { gave_up: bumped(m.gave_up), ..m },
        Some(EditMode::Ops) => MetricsSnapshot { repairs: bumped(m.repairs), ..m },
        Some(EditMode::Diff) => MetricsSnapshot {
            repairs: bumped(m.repairs),
            diff_fallbacks: bumped(m.diff_fallbacks),
            ..m
        },
    }
}

fn count_failure(m: &mut MetricsSnapshot, next: Option<EditMode>)
    ensures
        *final(m) == after_failure(*old(m), next),
{
    match next {
        None => {
            m.gave_up = bump(m.gave_up);
        },
        Some(EditMode::Ops) => {
            m.repairs = bump(m.repairs);
        },
        Some(EditMode::Diff) => {
            m.repairs = bump(m.repairs);
            m.diff_fallbacks = bump(m.diff_fallbacks);
        },
    }
}

/// What an edit is about.
pub struct EditTask<'a> {
    pub path: &'a str,
    pub target: &'a str,
    pub instruction: &'a str,
}

impl<'a> View for EditTask<'a> {
    type V = Asked;

    open spec fn view(&self) -> Asked {
        Asked { path: self.path@, target: self.target@, instruction: self.instruction@ }
    }
}

/// The next attempt at an edit.
pub open spec fn attempt_op(
    t: Asked,
    mode: EditMode,
    attempt: nat,
    diagnostics: Seq<Seq<char>>,
) -> OpModel {
    OpModel::Edit {
        path: t.path,
        target: t.target,
        instruction: t.instruction,
        mode,
        attempt,
        diagnostics,
    }
}

/// Is a result a failure with these diagnostics?
pub open spec fn is_failure(r: NodeResult, diagnostics: Seq<Seq<char>>) -> bool {
    &&& r.expansion is None
    &&& r.output.verdict is Fail
    &&& r.output.outputs@.len() == 0
    &&& texts(r.output.diagnostics@) == diagnostics
}

/// Does a result hand the work to these steps?
pub open spec fn hands_to(r: NodeResult, links: Seq<Link>, env: Env, substitute: Seq<char>) -> bool {
    &&& r.output.verdict is Pass
    &&& r.output.outputs@.len() == 0
    &&& r.expansion is Some
    &&& r.expansion->0.substitute@ == substitute
    &&& r.expansion->0.nodes@.len() == links.len()
    &&& forall|i: int|
        0 <= i < links.len() ==> is_link(#[trigger] r.expansion->0.nodes@[i], links[i], env)
}

/// A failure.
pub fn fail(diagnostics: Vec<String>) -> (r: NodeResult)
    ensures
        is_failure(r, texts(diagnostics@)),
{
    NodeResult::done(NodeOutput::fail(diagnostics))
}

fn names_of(deps: &Vec<crate::identity::NodeKey>) -> (r: Vec<String>)
    ensures
        texts(r@) == key_names(deps@),
{
    let ghost all = key_names(deps@);
    let mut out: Vec<String> = Vec::new();
    let mut i: usize = 0;
    assert(texts(out@) =~= all.take(0));
    while i < deps.len()
        invariant
            i <= deps@.len(),
            all == key_names(deps@),
            texts(out@) == all.take(i as int),
        decreases deps@.len() - i,
    {
        let ghost was = texts(out@);
        out.push(deps[i].as_str().to_owned());
        assert(texts(out@) =~= was.push(all[i as int]));
        assert(all.take(i + 1) =~= was.push(all[i as int]));
        i += 1;
    }
    assert(all.take(i as int) =~= all);
    out
}

fn next_edit(t: &EditTask<'_>, mode: EditMode, attempt: u32, diagnostics: Vec<String>) -> (r: NodeOp)
    requires
        attempt < u32::MAX,
    ensures
        r@ == attempt_op(t@, mode, (attempt + 1) as nat, texts(diagnostics@)),
{
    NodeOp::Edit {
        path: t.path.to_owned(),
        target: t.target.to_owned(),
        instruction: t.instruction.to_owned(),
        mode,
        attempt: attempt + 1,
        diagnostics,
    }
}

/// The step that tries an edit again: it sees exactly what this attempt saw.
pub open spec fn retry_link(
    spec: NodeSpec,
    t: Asked,
    mode: EditMode,
    attempt: nat,
    diagnostics: Seq<Seq<char>>,
) -> Link {
    Link {
        key: "retry"@,
        kind: NodeKind::Op,
        op: attempt_op(t, mode, attempt + 1, diagnostics),
        deps: spec.dep_names(),
    }
}

/// An edit whose ops were refused: try again, then fall back to a diff, then stop.
pub fn escalate(
    m: &mut MetricsSnapshot,
    spec: &NodeSpec,
    t: &EditTask<'_>,
    attempt: u32,
    max_attempts: u32,
    diagnostics: Vec<String>,
) -> (r: NodeResult)
    ensures
        *final(m) == after_failure(*old(m), next_mode(attempt as nat, max_attempts as nat)),
        match next_mode(attempt as nat, max_attempts as nat) {
            None => is_failure(r, texts(diagnostics@)),
            Some(mode) => hands_to(
                r,
                seq![retry_link(*spec, t@, mode, attempt as nat, texts(diagnostics@))],
                spec.env,
                "retry"@,
            ),
        },
{
    let next = next_attempt(attempt, max_attempts);
    count_failure(m, next);
    match next {
        None => fail(diagnostics),
        Some(mode) => {
            let op = next_edit(t, mode, attempt, diagnostics);
            let deps = names_of(&spec.deps);
            let retry = step("retry", NodeKind::Op, op, &spec.env, &deps);
            let mut nodes: Vec<NodeSpec> = Vec::new();
            nodes.push(retry);
            NodeResult::expand(Vec::new(), Expansion::new(nodes, "retry"))
        },
    }
}

/// Why an edit is tried again.
pub enum Refusal<'a> {
    /// The reply was no list of ops.
    NotOps,
    /// The adapter refused the ops.
    Rejected(&'a AdapterError),
}

/// What is told of a refusal.
pub open spec fn refusal_text(why: Refusal) -> Seq<char> {
    match why {
        Refusal::NotOps => "the model did not return a json array of ops"@,
        Refusal::Rejected(e) => "the ops were rejected: "@ + e@.sentence(),
    }
}

/// An edit that was refused: it is counted, and escalated.
pub fn edit_refused(
    m: &mut MetricsSnapshot,
    spec: &NodeSpec,
    t: &EditTask<'_>,
    attempt: u32,
    max_attempts: u32,
    why: Refusal<'_>,
) -> (r: NodeResult)
    ensures
        *final(m) == after_failure(
            MetricsSnapshot { ops_rejected: bumped(old(m).ops_rejected), ..*old(m) },
            next_mode(attempt as nat, max_attempts as nat),
        ),
        match next_mode(attempt as nat, max_attempts as nat) {
            None => is_failure(r, seq![refusal_text(why)]),
            Some(mode) => hands_to(
                r,
                seq![retry_link(*spec, t@, mode, attempt as nat, seq![refusal_text(why)])],
                spec.env,
                "retry"@,
            ),
        },
{
    m.ops_rejected = bump(m.ops_rejected);
    let text = match &why {
        Refusal::NotOps => "the model did not return a json array of ops".to_owned(),
        Refusal::Rejected(e) => {
            let mut t = "the ops were rejected: ".to_owned();
            let s = e.message();
            t.push_str(s.as_str());
            t
        },
    };
    let mut d: Vec<String> = Vec::new();
    d.push(text);
    assert(texts(d@) =~= seq![refusal_text(why)]);
    escalate(m, spec, t, attempt, max_attempts, d)
}

/// Counts an edit that is tried.
pub fn edit_started(m: &mut MetricsSnapshot)
    ensures
        *final(m) == (MetricsSnapshot {
            edits_attempted: bumped(old(m).edits_attempted),
            ..*old(m)
        }),
{
    m.edits_attempted = bump(m.edits_attempted);
}

/// Counts an edit that was applied.
pub fn edit_applied(m: &mut MetricsSnapshot)
    ensures
        *final(m) == (MetricsSnapshot { ops_applied: bumped(old(m).ops_applied), ..*old(m) }),
{
    m.ops_applied = bump(m.ops_applied);
}

/// Counts a rung that failed.
pub fn rung_failed(m: &mut MetricsSnapshot)
    ensures
        *final(m) == (MetricsSnapshot { rungs_failed: bumped(old(m).rungs_failed), ..*old(m) }),
{
    m.rungs_failed = bump(m.rungs_failed);
}

/// The key of the step that checks a repair.
pub open spec fn recheck_key(path: Seq<char>, level: nat) -> Seq<char> {
    replaced(verify_key(path, level), ":"@, "-"@)
}

/// The step that repairs what a rung rejected. It reads the artifact that was rejected, and only
/// that.
pub open spec fn fix_link(
    spec: NodeSpec,
    t: Asked,
    mode: EditMode,
    attempt: nat,
    diagnostics: Seq<Seq<char>>,
) -> Link {
    let deps = spec.dep_names();
    Link {
        key: "fix"@,
        kind: NodeKind::Op,
        op: attempt_op(t, mode, attempt + 1, diagnostics),
        deps: if deps.len() > 0 {
            seq![deps[0]]
        } else {
            Seq::empty()
        },
    }
}

/// The step that checks a repair. It compares against the same artifact as the rung that failed,
/// so it sees the whole edit with its repair.
pub open spec fn recheck_link(spec: NodeSpec, t: Asked, level: nat, attempt: nat) -> Link {
    let deps = spec.dep_names();
    Link {
        key: recheck_key(t.path, level),
        kind: NodeKind::Verify,
        op: OpModel::Verify {
            path: t.path,
            level,
            attempt: attempt + 1,
            target: t.target,
            instruction: t.instruction,
        },
        deps: if deps.len() > 1 {
            seq!["fix"@, deps[1]]
        } else {
            seq!["fix"@]
        },
    }
}

/// A rung that failed: emit a fix and a recheck, and hand identity to the recheck.
pub fn verify_failed(
    m: &mut MetricsSnapshot,
    spec: &NodeSpec,
    t: &EditTask<'_>,
    level: u8,
    attempt: u32,
    max_attempts: u32,
    diagnostics: Vec<String>,
) -> (r: NodeResult)
    ensures
        *final(m) == after_failure(*old(m), next_mode(attempt as nat, max_attempts as nat)),
        match next_mode(attempt as nat, max_attempts as nat) {
            None => is_failure(r, texts(diagnostics@)),
            Some(mode) => hands_to(
                r,
                seq![
                    fix_link(*spec, t@, mode, attempt as nat, texts(diagnostics@)),
                    recheck_link(*spec, t@, level as nat, attempt as nat),
                ],
                spec.env,
                recheck_key(t.path@, level as nat),
            ),
        },
{
    let next = next_attempt(attempt, max_attempts);
    count_failure(m, next);
    match next {
        None => fail(diagnostics),
        Some(mode) => {
            let deps = names_of(&spec.deps);
            let ghost all = spec.dep_names();
            assert(all.len() == deps@.len());
            let op = next_edit(t, mode, attempt, diagnostics);
            let mut first: Vec<String> = Vec::new();
            assert(texts(first@) =~= Seq::<Seq<char>>::empty());
            if deps.len() > 0 {
                assert(all[0] == texts(deps@)[0]);
                first.push(deps[0].clone());
                assert(texts(first@) =~= seq![all[0]]);
            }
            let fix = step("fix", NodeKind::Op, op, &spec.env, &first);
            let mut second: Vec<String> = Vec::new();
            second.push("fix".to_owned());
            assert(texts(second@) =~= seq!["fix"@]);
            if deps.len() > 1 {
                assert(all[1] == texts(deps@)[1]);
                second.push(deps[1].clone());
                assert(texts(second@) =~= seq!["fix"@, all[1]]);
            }
            let k = key::verify(t.path, level);
            proof {
                reveal_strlit(":");
            }
            let rk = replace_all(k.as_str(), ":", "-");
            let op = NodeOp::Verify {
                path: t.path.to_owned(),
                level,
                attempt: attempt + 1,
                target: t.target.to_owned(),
                instruction: t.instruction.to_owned(),
            };
            let recheck = step(rk.as_str(), NodeKind::Verify, op, &spec.env, &second);
            let mut nodes: Vec<NodeSpec> = Vec::new();
            nodes.push(fix);
            nodes.push(recheck);
            NodeResult::expand(Vec::new(), Expansion::new(nodes, rk.as_str()))
        },
    }
}

/// A failing edit ends: each step of the escalation has one attempt fewer left, and a diff comes
/// only after ops have failed twice.
pub proof fn law_escalation_ends(attempt: nat, max_attempts: nat)
    ensures
        next_mode(attempt, max_attempts) is None <==> attempt + 1 >= max_attempts,
        next_mode(attempt, max_attempts) is Some ==> attempt + 1 < max_attempts,
        next_mode(attempt, max_attempts) == Some(EditMode::Diff) ==> attempt >= 1,
        next_mode(attempt, max_attempts) == Some(EditMode::Ops) ==> attempt == 0,
{
}

} // verus!
