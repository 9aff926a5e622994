//! How a node is executed, step by step.
//!
//! A node alternates outside work and decisions: it reads content, asks an adapter or a model, and
//! stores what it made. The decisions are here. Whoever drives a node does what it asks for and
//! tells it what came of that, until it is done.

use crate::adapter::rendered;
use crate::adapter::text_of;
use crate::adapter::AdapterError;
use crate::adapter::Finding;
use crate::adapter::Op;
use crate::adapter::Outline;
use crate::adapter::Pack;
use crate::adapter::RungOutcome;
use crate::engine::exec::Expansion;
use crate::engine::exec::NodeResult;
use crate::engine::graph::NodeSpec;
use crate::identity::blake3_of;
use crate::identity::hex_of;
use crate::identity::Attribution;
use crate::identity::Digest;
use crate::identity::Env;
use crate::identity::NodeOutput;
use crate::json::fields;
use crate::json::text_value;
use crate::json::write_object;
use crate::json::written;
use crate::json::Json;
use crate::orchestrator::chain::are_links;
use crate::orchestrator::chain::asked;
use crate::orchestrator::chain::build_chain;
use crate::orchestrator::chain::chain_links;
use crate::orchestrator::chain::chain_tail;
use crate::orchestrator::chain::Asked;
use crate::orchestrator::chain::ChainConfig;
use crate::orchestrator::chain::EditRequest;
use crate::orchestrator::exec::after_failure;
use crate::orchestrator::exec::after_rung;
use crate::orchestrator::exec::asks_edit;
use crate::orchestrator::exec::asks_plan;
use crate::orchestrator::exec::budget_for;
use crate::orchestrator::exec::bumped;
use crate::orchestrator::exec::edit_applied;
use crate::orchestrator::exec::edit_refused;
use crate::orchestrator::exec::edit_request;
use crate::orchestrator::exec::edit_started;
use crate::orchestrator::exec::env_for;
use crate::orchestrator::exec::fail;
use crate::orchestrator::exec::finding_line;
use crate::orchestrator::exec::fix_link;
use crate::orchestrator::exec::hands_to;
use crate::orchestrator::exec::is_failure;
use crate::orchestrator::exec::join_bytes;
use crate::orchestrator::exec::join_digest;
use crate::orchestrator::exec::listed_ids;
use crate::orchestrator::exec::next_mode;
use crate::orchestrator::exec::outline_text;
use crate::orchestrator::exec::pack_budget;
use crate::orchestrator::exec::plan_request;
use crate::orchestrator::exec::planned;
use crate::orchestrator::exec::read_plan;
use crate::orchestrator::exec::read_summary;
use crate::orchestrator::exec::recheck_key;
use crate::orchestrator::exec::recheck_link;
use crate::orchestrator::exec::retry_link;
use crate::orchestrator::exec::rung_failed;
use crate::orchestrator::exec::summarise;
use crate::orchestrator::exec::verify_failed;
use crate::orchestrator::exec::AfterRung;
use crate::orchestrator::exec::EditTask;
use crate::orchestrator::exec::MetricsSnapshot;
use crate::orchestrator::exec::Refusal;
use crate::orchestrator::exec::RuntimeConfig;
use crate::orchestrator::model::ModelError;
use crate::orchestrator::model::ModelRequest;
use crate::orchestrator::model::ModelResponse;
use crate::orchestrator::nodes::decoded;
use crate::orchestrator::nodes::text_field;
use crate::orchestrator::nodes::EditMode;
use crate::orchestrator::nodes::NodeOp;
use crate::orchestrator::nodes::OpModel;
use crate::orchestrator::ops::are_ops;
use crate::orchestrator::ops::read_ops;
use crate::orchestrator::ops::reply_items;
use crate::orchestrator::prompts;
use crate::orchestrator::prompts::outline_views;
use crate::orchestrator::prompts::version_of;
use crate::text::decimal;
use crate::text::join;
use crate::text::join_of;
use crate::text::same;
use crate::text::show;
use crate::text::texts;
use crate::utf8::from_utf8_lossy;
use vstd::prelude::*;
use vstd::utf8::encode_utf8;

verus! {

/// What a node is told to do, and what it was handed.
pub struct Node<'a> {
    pub op: &'a NodeOp,
    pub spec: &'a NodeSpec,
    /// What its dependencies put out, in order.
    pub inputs: &'a Vec<Digest>,
    pub cfg: &'a RuntimeConfig,
    /// The version of the first adapter, which the steps of a plan run under.
    pub adapter_version: &'a str,
}

/// What a node asks for.
pub enum Act {
    /// Is this content in the store?
    Look(Digest),
    /// Read this content: it is the file at the node's path.
    Load(Digest),
    /// Read this content: it is text.
    Read(Digest),
    /// Outline the file with the adapter for its path.
    Outline,
    /// Pack the node's target, within a budget.
    Pack { budget: usize },
    /// Say which ops the adapter for the path takes.
    Schema,
    Ask { planner: bool, request: ModelRequest },
    /// Apply ops to the file.
    Apply(Vec<Op>),
    /// Run the rung at this level on the file, as it was changed since it had this content.
    Check { level: u8, before: Option<Digest> },
    Store(Vec<u8>),
    Done(NodeResult),
}

/// What came of what a node asked for. Where a duration is wanted it is in milliseconds.
pub enum Told {
    Present(bool),
    /// The file was read, or why it was not.
    Loaded(Result<(), String>),
    Content(Option<Vec<u8>>),
    /// No adapter handles the path.
    NoAdapter,
    Outlined(Result<Outline, AdapterError>),
    Packed(Result<Pack, AdapterError>),
    Schema(String),
    Replied { reply: Result<ModelResponse, ModelError>, ms: u64 },
    /// The bytes of the file after the ops, or why they were refused.
    Applied { applied: Result<Vec<u8>, AdapterError>, ms: u64 },
    /// The adapter has no rung at that level.
    NoRung,
    Checked { outcome: RungOutcome, ms: u64 },
    /// The duration is since the file was outlined.
    Stored { stored: Result<Digest, String>, ms: u64 },
}

/// What a node waits for.
pub enum Stage {
    Looking,
    /// For its file.
    Loading(Digest),
    /// For the outline of its file.
    Reading(Digest),
    Packing,
    /// For the context of an edit.
    Preparing,
    /// For the schema of an edit, whose context is this.
    Routing(String),
    /// For the reply to an edit.
    Editing,
    Applying { decode_ms: u64 },
    Checking(Digest),
    /// For the outline of the file at a place, behind those that were gathered.
    Gathering { at: usize, seen: Vec<(String, Vec<String>)> },
    /// For the reply to a plan.
    Planning,
    /// For its output, which took this long.
    Storing { decode_ms: u64, apply_ms: u64 },
    /// For its plan.
    Recording { edits: Vec<EditRequest>, decode_ms: u64 },
    Over,
}

/// The node is done, and failed with one diagnostic.
pub open spec fn fails_with(s: Stage, a: Act, why: Seq<char>) -> bool {
    s is Over && (a matches Act::Done(r) && is_failure(r, seq![why]))
}

/// The node is done, and put this out.
pub open spec fn puts_out(s: Stage, a: Act, output: Digest, took: Attribution) -> bool {
    s is Over && (a matches Act::Done(r) && {
        &&& r.expansion is None
        &&& r.output.verdict is Pass
        &&& r.output.outputs@ == seq![output]
        &&& r.output.attribution == took
        &&& r.output.diagnostics@.len() == 0
    })
}

/// The node was told what it did not ask for.
pub open spec fn out_of_turn(s: Stage, a: Act) -> bool {
    fails_with(s, a, "the node was told what it did not ask for"@)
}

/// The word for a node that works on a file.
pub open spec fn work_word(op: NodeOp) -> Seq<char> {
    match op {
        NodeOp::Outline { .. } => "outline"@,
        NodeOp::Pack { .. } => "pack"@,
        NodeOp::Edit { .. } => "edit"@,
        _ => "verify"@,
    }
}

/// That content is not there.
pub open spec fn missing_text(digest: Seq<u8>, why: Seq<char>) -> Seq<char> {
    "content "@ + hex_of(digest) + " is missing: "@ + why
}

/// That no adapter handles a path.
pub open spec fn unhandled_text(path: Seq<char>) -> Seq<char> {
    "no adapter handles "@ + path
}

fn failed(why: String) -> (r: (Stage, Act))
    ensures
        fails_with(r.0, r.1, why@),
{
    let mut d: Vec<String> = Vec::new();
    d.push(why);
    assert(texts(d@) =~= seq![why@]);
    (Stage::Over, Act::Done(fail(d)))
}

fn stray() -> (r: (Stage, Act))
    ensures
        out_of_turn(r.0, r.1),
{
    failed("the node was told what it did not ask for".to_owned())
}

fn missing(digest: &Digest, why: &str) -> (r: (Stage, Act))
    ensures
        fails_with(r.0, r.1, missing_text(digest@, why@)),
{
    let mut t = "content ".to_owned();
    let h = digest.hex();
    t.push_str(h.as_str());
    t.push_str(" is missing: ");
    t.push_str(why);
    failed(t)
}

fn two(a: &str, b: &str) -> (r: String)
    ensures
        r@ == a@ + b@,
{
    let mut t = a.to_owned();
    t.push_str(b);
    t
}

fn three(a: &str, b: &str, c: &str) -> (r: String)
    ensures
        r@ == a@ + b@ + c@,
{
    let mut t = a.to_owned();
    t.push_str(b);
    t.push_str(c);
    t
}

fn put_out(output: Digest, took: Attribution) -> (r: (Stage, Act))
    ensures
        puts_out(r.0, r.1, output, took),
{
    let mut v: Vec<Digest> = Vec::new();
    v.push(output);
    assert(v@ =~= seq![output]);
    (Stage::Over, Act::Done(NodeResult::done(NodeOutput::pass(v).with_attribution(took))))
}

fn to_bytes(s: &str) -> (r: Vec<u8>)
    ensures
        r@ == encode_utf8(s@),
{
    vstd::slice::slice_to_vec(s.as_bytes())
}

/// Time spent decoding and applying.
pub open spec fn took(decode_ms: u64, apply_ms: u64) -> Attribution {
    Attribution { decode_ms, apply_ms, ..Attribution::nothing() }
}

fn spent(decode_ms: u64, apply_ms: u64) -> (r: Attribution)
    ensures
        r == took(decode_ms, apply_ms),
{
    Attribution { decode_ms, verify_ms: 0, apply_ms, render_ms: 0, wait_ms: 0 }
}

/// How a node begins.
pub open spec fn begins(n: Node, s: Stage, a: Act) -> bool {
    match *n.op {
        NodeOp::Source { content, .. } => s is Looking && a == Act::Look(content),
        NodeOp::Plan { instruction, paths } => if paths@.len() > 0 && n.inputs@.len() > 0 {
            &&& s matches Stage::Gathering { at, seen } && at == 0 && seen@.len() == 0
            &&& a == Act::Read(n.inputs@[0])
        } else {
            &&& s is Planning
            &&& a matches Act::Ask { planner, request } && planner && asks_plan(
                request,
                n.cfg.planner_model_id@,
                instruction@,
                Seq::empty(),
            )
        },
        op => if (op matches NodeOp::Pack { path, .. } && path@ == "<join>"@) {
            exists|d: Digest|
                d@ == blake3_of(join_bytes(n.inputs@)) && #[trigger] puts_out(
                    s,
                    a,
                    d,
                    Attribution::nothing(),
                )
        } else if n.inputs@.len() == 0 {
            fails_with(s, a, work_word(op) + " node has no artifact input"@)
        } else {
            s == Stage::Loading(n.inputs@[0]) && a == Act::Load(n.inputs@[0])
        },
    }
}

fn start_plan(
    n: &Node<'_>,
    instruction: &str,
    seen: &Vec<(String, Vec<String>)>,
) -> (r: (Stage, Act))
    ensures
        r.0 is Planning,
        r.1 matches Act::Ask { planner, request } && planner && asks_plan(
            request,
            n.cfg.planner_model_id@,
            instruction@,
            outline_views(seen@),
        ),
{
    let request = plan_request(n.cfg.planner_model_id.as_str(), instruction, seen);
    (Stage::Planning, Act::Ask { planner: true, request })
}

fn start_file(n: &Node<'_>, word: &str) -> (r: (Stage, Act))
    ensures
        if n.inputs@.len() == 0 {
            fails_with(r.0, r.1, word@ + " node has no artifact input"@)
        } else {
            r.0 == Stage::Loading(n.inputs@[0]) && r.1 == Act::Load(n.inputs@[0])
        },
{
    if n.inputs.len() == 0 {
        failed(two(word, " node has no artifact input"))
    } else {
        (Stage::Loading(n.inputs[0]), Act::Load(n.inputs[0]))
    }
}

/// What a payload asks of a node. One that says nothing fails its node.
pub fn read_payload(payload: &[u8]) -> (r: Result<NodeOp, NodeResult>)
    ensures
        match r {
            Ok(op) => decoded(payload@) == Some(op@),
            Err(f) => decoded(payload@) is None && is_failure(
                f,
                seq!["node op payload is not a flash node op"@],
            ),
        },
{
    match NodeOp::decode(payload) {
        Some(op) => Ok(op),
        None => {
            let mut d: Vec<String> = Vec::new();
            d.push("node op payload is not a flash node op".to_owned());
            assert(texts(d@) =~= seq!["node op payload is not a flash node op"@]);
            Err(fail(d))
        },
    }
}

/// What a node asks for first. An edit is counted.
pub fn begin(n: &Node<'_>, m: &mut MetricsSnapshot) -> (r: (Stage, Act))
    ensures
        begins(*n, r.0, r.1),
        *final(m) == if n.op is Edit {
            MetricsSnapshot { edits_attempted: bumped(old(m).edits_attempted), ..*old(m) }
        } else {
            *old(m)
        },
{
    match n.op {
        NodeOp::Source { content, .. } => (Stage::Looking, Act::Look(*content)),
        NodeOp::Plan { instruction, paths } => {
            let seen: Vec<(String, Vec<String>)> = Vec::new();
            if paths.len() > 0 && n.inputs.len() > 0 {
                (Stage::Gathering { at: 0, seen }, Act::Read(n.inputs[0]))
            } else {
                assert(outline_views(seen@) =~= Seq::<(Seq<char>, Seq<Seq<char>>)>::empty());
                start_plan(n, instruction.as_str(), &seen)
            }
        },
        NodeOp::Outline { .. } => start_file(n, "outline"),
        NodeOp::Pack { path, .. } => {
            if same(path.as_str(), "<join>") {
                let d = join_digest(n.inputs);
                put_out(d, spent(0, 0))
            } else {
                start_file(n, "pack")
            }
        },
        NodeOp::Edit { .. } => {
            edit_started(m);
            start_file(n, "edit")
        },
        NodeOp::Verify { .. } => start_file(n, "verify"),
    }
}

/// How a source node goes on.
pub open spec fn source_moves(content: Digest, s: Stage, t: Told, s2: Stage, a: Act) -> bool {
    match (s, t) {
        (Stage::Looking, Told::Present(there)) => if there {
            puts_out(s2, a, content, Attribution::nothing())
        } else {
            fails_with(s2, a, "source content "@ + hex_of(content@) + " is not in the store"@)
        },
        _ => out_of_turn(s2, a),
    }
}

fn source_step(content: &Digest, stage: Stage, told: Told) -> (r: (Stage, Act))
    ensures
        source_moves(*content, stage, told, r.0, r.1),
{
    match (stage, told) {
        (Stage::Looking, Told::Present(there)) => {
            if there {
                put_out(*content, spent(0, 0))
            } else {
                let h = content.hex();
                failed(three("source content ", h.as_str(), " is not in the store"))
            }
        },
        _ => stray(),
    }
}

/// How an outline node goes on. It puts out ids and kinds only: bodies are left out, which is what
/// lets a body edit leave the plan untouched.
pub open spec fn outline_moves(path: Seq<char>, s: Stage, t: Told, s2: Stage, a: Act) -> bool {
    match (s, t) {
        (Stage::Loading(d), Told::Loaded(Ok(_))) => s2 == Stage::Reading(d) && a is Outline,
        (Stage::Loading(d), Told::Loaded(Err(e))) => fails_with(s2, a, missing_text(d@, e@)),
        (Stage::Reading(_), Told::NoAdapter) => fails_with(s2, a, unhandled_text(path)),
        (Stage::Reading(_), Told::Outlined(Err(e))) => fails_with(
            s2,
            a,
            path + " did not parse: "@ + e@.sentence(),
        ),
        (Stage::Reading(_), Told::Outlined(Ok(o))) => {
            &&& s2 == (Stage::Storing { decode_ms: 0, apply_ms: 0 })
            &&& a matches Act::Store(b) && b@ == encode_utf8(outline_text(path, o@.entities))
        },
        (Stage::Storing { .. }, Told::Stored { stored: Ok(d), .. }) => puts_out(
            s2,
            a,
            d,
            Attribution::nothing(),
        ),
        (Stage::Storing { .. }, Told::Stored { stored: Err(e), .. }) => fails_with(
            s2,
            a,
            "could not store the outline: "@ + e@,
        ),
        _ => out_of_turn(s2, a),
    }
}

fn outline_step(path: &str, stage: Stage, told: Told) -> (r: (Stage, Act))
    ensures
        outline_moves(path@, stage, told, r.0, r.1),
{
    match (stage, told) {
        (Stage::Loading(d), Told::Loaded(Ok(_))) => (Stage::Reading(d), Act::Outline),
        (Stage::Loading(d), Told::Loaded(Err(e))) => missing(&d, e.as_str()),
        (Stage::Reading(_), Told::NoAdapter) => failed(two("no adapter handles ", path)),
        (Stage::Reading(_), Told::Outlined(Err(e))) => {
            let why = e.message();
            failed(three(path, " did not parse: ", why.as_str()))
        },
        (Stage::Reading(_), Told::Outlined(Ok(o))) => {
            let text = summarise(path, &o);
            (Stage::Storing { decode_ms: 0, apply_ms: 0 }, Act::Store(to_bytes(text.as_str())))
        },
        (Stage::Storing { .. }, Told::Stored { stored: Ok(d), .. }) => put_out(d, spent(0, 0)),
        (Stage::Storing { .. }, Told::Stored { stored: Err(e), .. }) => failed(
            two("could not store the outline: ", e.as_str()),
        ),
        _ => stray(),
    }
}

/// How a pack node goes on.
pub open spec fn pack_moves(
    path: Seq<char>,
    target: Seq<char>,
    budget: nat,
    s: Stage,
    t: Told,
    s2: Stage,
    a: Act,
) -> bool {
    match (s, t) {
        (Stage::Loading(d), Told::Loaded(Ok(_))) => s2 == Stage::Reading(d) && a is Outline,
        (Stage::Loading(d), Told::Loaded(Err(e))) => fails_with(s2, a, missing_text(d@, e@)),
        (Stage::Reading(_), Told::NoAdapter) => fails_with(s2, a, unhandled_text(path)),
        (Stage::Reading(_), Told::Outlined(Err(e))) => fails_with(
            s2,
            a,
            path + " did not parse: "@ + e@.sentence(),
        ),
        (Stage::Reading(_), Told::Outlined(Ok(_))) => {
            &&& s2 is Packing
            &&& a matches Act::Pack { budget: b } && b == budget
        },
        (Stage::Packing, Told::Packed(Err(e))) => fails_with(
            s2,
            a,
            "could not pack "@ + target + ": "@ + e@.sentence(),
        ),
        (Stage::Packing, Told::Packed(Ok(p))) => {
            &&& s2 == (Stage::Storing { decode_ms: 0, apply_ms: 0 })
            &&& a matches Act::Store(b) && b@ == encode_utf8(rendered(p@))
        },
        (Stage::Storing { .. }, Told::Stored { stored: Ok(d), ms }) => puts_out(
            s2,
            a,
            d,
            took(0, ms),
        ),
        (Stage::Storing { .. }, Told::Stored { stored: Err(e), .. }) => fails_with(
            s2,
            a,
            "could not store pack: "@ + e@,
        ),
        _ => out_of_turn(s2, a),
    }
}

fn pack_step(path: &str, target: &str, budget: usize, stage: Stage, told: Told) -> (r: (Stage, Act))
    ensures
        pack_moves(path@, target@, budget as nat, stage, told, r.0, r.1),
{
    match (stage, told) {
        (Stage::Loading(d), Told::Loaded(Ok(_))) => (Stage::Reading(d), Act::Outline),
        (Stage::Loading(d), Told::Loaded(Err(e))) => missing(&d, e.as_str()),
        (Stage::Reading(_), Told::NoAdapter) => failed(two("no adapter handles ", path)),
        (Stage::Reading(_), Told::Outlined(Err(e))) => {
            let why = e.message();
            failed(three(path, " did not parse: ", why.as_str()))
        },
        (Stage::Reading(_), Told::Outlined(Ok(_))) => (Stage::Packing, Act::Pack { budget }),
        (Stage::Packing, Told::Packed(Err(e))) => {
            let why = e.message();
            let head = three("could not pack ", target, ": ");
            failed(two(head.as_str(), why.as_str()))
        },
        (Stage::Packing, Told::Packed(Ok(p))) => {
            let text = p.render();
            (Stage::Storing { decode_ms: 0, apply_ms: 0 }, Act::Store(to_bytes(text.as_str())))
        },
        (Stage::Storing { .. }, Told::Stored { stored: Ok(d), ms }) => put_out(d, spent(0, ms)),
        (Stage::Storing { .. }, Told::Stored { stored: Err(e), .. }) => failed(
            two("could not store pack: ", e.as_str()),
        ),
        _ => stray(),
    }
}

/// An edit was refused for a reason: it is tried again after that, or given up.
pub open spec fn refuses(
    spec: NodeSpec,
    t: Asked,
    attempt: nat,
    max_attempts: nat,
    why: Seq<char>,
    m: MetricsSnapshot,
    s2: Stage,
    a: Act,
    m2: MetricsSnapshot,
) -> bool {
    let next = next_mode(attempt, max_attempts);
    &&& s2 is Over
    &&& m2 == after_failure(MetricsSnapshot { ops_rejected: bumped(m.ops_rejected), ..m }, next)
    &&& a matches Act::Done(r) && match next {
        None => is_failure(r, seq![why]),
        Some(mode) => hands_to(
            r,
            seq![retry_link(spec, t, mode, attempt, seq![why])],
            spec.env,
            "retry"@,
        ),
    }
}

/// An edit, as its node has it.
pub struct Editing<'a> {
    pub t: EditTask<'a>,
    pub mode: EditMode,
    pub attempt: u32,
    pub diagnostics: &'a Vec<String>,
}

/// The context that an edit is shown: the text of its pack, or none where it has no pack or its
/// pack is not there.
pub open spec fn context_of(content: Option<Vec<u8>>) -> Seq<char> {
    match content {
        Some(b) => text_of(b@),
        None => Seq::empty(),
    }
}

/// How an edit node goes on.
pub open spec fn edit_moves(
    n: Node,
    e: Editing,
    s: Stage,
    t: Told,
    m: MetricsSnapshot,
    s2: Stage,
    a: Act,
    m2: MetricsSnapshot,
) -> bool {
    let attempt = e.attempt as nat;
    let max = n.cfg.max_attempts as nat;
    match (s, t) {
        (Stage::Loading(_), Told::Loaded(Ok(_))) => m2 == m && if n.inputs@.len() > 1 {
            s2 is Preparing && a == Act::Read(n.inputs@[1])
        } else {
            (s2 matches Stage::Routing(c) && c@.len() == 0) && a is Schema
        },
        (Stage::Loading(d), Told::Loaded(Err(why))) => m2 == m && fails_with(
            s2,
            a,
            missing_text(d@, why@),
        ),
        (Stage::Preparing, Told::Content(b)) => m2 == m && (s2 matches Stage::Routing(c) && c@
            == context_of(b)) && a is Schema,
        (Stage::Routing(_), Told::NoAdapter) => m2 == m && fails_with(
            s2,
            a,
            unhandled_text(e.t.path@),
        ),
        (Stage::Routing(c), Told::Schema(schema)) => m2 == m && s2 is Editing && (
        a matches Act::Ask { planner, request } && !planner && asks_edit(
            request,
            n.cfg.executor_model_id@,
            e.mode,
            attempt,
            e.t.instruction@,
            c@,
            texts(e.diagnostics@),
            schema@,
        )),
        (Stage::Editing, Told::Replied { reply: Err(why), .. }) => m2 == m && fails_with(
            s2,
            a,
            "executor model failed: "@ + why@.sentence(),
        ),
        (Stage::Editing, Told::Replied { reply: Ok(r), ms }) => match reply_items(r@.json) {
            Some(items) => {
                &&& m2 == m
                &&& s2 == (Stage::Applying { decode_ms: ms })
                &&& a matches Act::Apply(ops) && are_ops(ops@, items)
            },
            None => refuses(
                *n.spec,
                e.t@,
                attempt,
                max,
                "the model did not return a json array of ops"@,
                m,
                s2,
                a,
                m2,
            ),
        },
        (Stage::Applying { decode_ms }, Told::Applied { applied: Ok(bytes), ms }) => {
            &&& m2 == (MetricsSnapshot { ops_applied: bumped(m.ops_applied), ..m })
            &&& s2 == (Stage::Storing { decode_ms, apply_ms: ms })
            &&& a == Act::Store(bytes)
        },
        (Stage::Applying { .. }, Told::Applied { applied: Err(why), .. }) => refuses(
            *n.spec,
            e.t@,
            attempt,
            max,
            "the ops were rejected: "@ + why@.sentence(),
            m,
            s2,
            a,
            m2,
        ),
        (Stage::Storing { decode_ms, apply_ms }, Told::Stored { stored: Ok(d), .. }) => m2 == m
            && puts_out(s2, a, d, took(decode_ms, apply_ms)),
        (Stage::Storing { .. }, Told::Stored { stored: Err(why), .. }) => m2 == m && fails_with(
            s2,
            a,
            "could not store the edited file: "@ + why@,
        ),
        _ => m2 == m && out_of_turn(s2, a),
    }
}

fn edit_step(
    n: &Node<'_>,
    e: &Editing<'_>,
    stage: Stage,
    told: Told,
    m: &mut MetricsSnapshot,
) -> (r: (Stage, Act))
    ensures
        edit_moves(*n, *e, stage, told, *old(m), r.0, r.1, *final(m)),
{
    match (stage, told) {
        (Stage::Loading(_), Told::Loaded(Ok(_))) => if n.inputs.len() > 1 {
            (Stage::Preparing, Act::Read(n.inputs[1]))
        } else {
            (Stage::Routing(String::new()), Act::Schema)
        },
        (Stage::Loading(d), Told::Loaded(Err(why))) => missing(&d, why.as_str()),
        (Stage::Preparing, Told::Content(b)) => {
            let context = match &b {
                Some(b) => from_utf8_lossy(b.as_slice()),
                None => String::new(),
            };
            (Stage::Routing(context), Act::Schema)
        },
        (Stage::Routing(_), Told::NoAdapter) => failed(two("no adapter handles ", e.t.path)),
        (Stage::Routing(c), Told::Schema(schema)) => {
            let request = edit_request(
                n.cfg.executor_model_id.as_str(),
                e.mode,
                e.attempt,
                e.t.instruction,
                c.as_str(),
                e.diagnostics,
                schema.as_str(),
            );
            (Stage::Editing, Act::Ask { planner: false, request })
        },
        (Stage::Editing, Told::Replied { reply: Err(why), .. }) => {
            let w = why.message();
            failed(two("executor model failed: ", w.as_str()))
        },
        (Stage::Editing, Told::Replied { reply: Ok(r), ms }) => match read_ops(&r.json) {
            Some(ops) => (Stage::Applying { decode_ms: ms }, Act::Apply(ops)),
            None => (
                Stage::Over,
                Act::Done(
                    edit_refused(
                        m,
                        n.spec,
                        &e.t,
                        e.attempt,
                        n.cfg.max_attempts,
                        Refusal::NotOps,
                    ),
                ),
            ),
        },
        (Stage::Applying { decode_ms }, Told::Applied { applied: Ok(bytes), ms }) => {
            edit_applied(m);
            (Stage::Storing { decode_ms, apply_ms: ms }, Act::Store(bytes))
        },
        (Stage::Applying { .. }, Told::Applied { applied: Err(why), .. }) => (
            Stage::Over,
            Act::Done(
                edit_refused(
                    m,
                    n.spec,
                    &e.t,
                    e.attempt,
                    n.cfg.max_attempts,
                    Refusal::Rejected(&why),
                ),
            ),
        ),
        (Stage::Storing { decode_ms, apply_ms }, Told::Stored { stored: Ok(d), .. }) => put_out(
            d,
            spent(decode_ms, apply_ms),
        ),
        (Stage::Storing { .. }, Told::Stored { stored: Err(why), .. }) => failed(
            two("could not store the edited file: ", why.as_str()),
        ),
        _ => stray(),
    }
}

/// A rung rejected a file with these diagnostics: a repair is tried, or the edit is given up.
pub open spec fn rejects(
    spec: NodeSpec,
    t: Asked,
    level: nat,
    attempt: nat,
    max_attempts: nat,
    diagnostics: Seq<Seq<char>>,
    m: MetricsSnapshot,
    s2: Stage,
    a: Act,
    m2: MetricsSnapshot,
) -> bool {
    let next = next_mode(attempt, max_attempts);
    &&& s2 is Over
    &&& m2 == after_failure(MetricsSnapshot { rungs_failed: bumped(m.rungs_failed), ..m }, next)
    &&& a matches Act::Done(r) && match next {
        None => is_failure(r, diagnostics),
        Some(mode) => hands_to(
            r,
            seq![
                fix_link(spec, t, mode, attempt, diagnostics),
                recheck_link(spec, t, level, attempt),
            ],
            spec.env,
            recheck_key(t.path, level),
        ),
    }
}

/// A rung, as its node has it.
pub struct Verifying<'a> {
    pub t: EditTask<'a>,
    pub level: u8,
    pub attempt: u32,
}

/// How a verify node goes on. A file that does not parse fails any rung. A rung that could not run
/// is no pass, and a rung that passed hands the file on as it is.
pub open spec fn verify_moves(
    n: Node,
    v: Verifying,
    s: Stage,
    t: Told,
    m: MetricsSnapshot,
    s2: Stage,
    a: Act,
    m2: MetricsSnapshot,
) -> bool {
    let level = v.level as nat;
    let attempt = v.attempt as nat;
    let max = n.cfg.max_attempts as nat;
    match (s, t) {
        (Stage::Loading(d), Told::Loaded(Ok(_))) => m2 == m && s2 == Stage::Reading(d)
            && a is Outline,
        (Stage::Loading(d), Told::Loaded(Err(why))) => m2 == m && fails_with(
            s2,
            a,
            missing_text(d@, why@),
        ),
        (Stage::Reading(_), Told::NoAdapter) => m2 == m && fails_with(
            s2,
            a,
            unhandled_text(v.t.path@),
        ),
        (Stage::Reading(_), Told::Outlined(Err(e))) => rejects(
            *n.spec,
            v.t@,
            level,
            attempt,
            max,
            seq![v.t.path@ + " does not parse: "@ + e@.sentence()],
            m,
            s2,
            a,
            m2,
        ),
        (Stage::Reading(d), Told::Outlined(Ok(_))) => {
            &&& m2 == m
            &&& s2 == Stage::Checking(d)
            &&& a == (Act::Check {
                level: v.level,
                before: if n.inputs@.len() > 1 {
                    Some(n.inputs@[1])
                } else {
                    None
                },
            })
        },
        (Stage::Checking(_), Told::NoRung) => m2 == m && fails_with(
            s2,
            a,
            "no rung at level "@ + decimal(level),
        ),
        (Stage::Checking(d), Told::Checked { outcome, ms }) => {
            let ran = MetricsSnapshot { rungs_run: bumped(m.rungs_run), ..m };
            if outcome.unavailable {
                &&& s2 is Over
                &&& m2 == (MetricsSnapshot {
                    rungs_unavailable: bumped(m.rungs_unavailable),
                    ..ran
                })
                &&& a matches Act::Done(r) && is_failure(
                    r,
                    outcome@.diagnostics.map_values(|f: Finding| finding_line(f, false)),
                )
            } else if outcome.passed {
                m2 == ran && puts_out(
                    s2,
                    a,
                    d,
                    Attribution { verify_ms: ms, ..Attribution::nothing() },
                )
            } else {
                rejects(
                    *n.spec,
                    v.t@,
                    level,
                    attempt,
                    max,
                    outcome@.diagnostics.map_values(|f: Finding| finding_line(f, true)),
                    ran,
                    s2,
                    a,
                    m2,
                )
            }
        },
        _ => m2 == m && out_of_turn(s2, a),
    }
}

fn verify_step(
    n: &Node<'_>,
    v: &Verifying<'_>,
    stage: Stage,
    told: Told,
    m: &mut MetricsSnapshot,
) -> (r: (Stage, Act))
    ensures
        verify_moves(*n, *v, stage, told, *old(m), r.0, r.1, *final(m)),
{
    match (stage, told) {
        (Stage::Loading(d), Told::Loaded(Ok(_))) => (Stage::Reading(d), Act::Outline),
        (Stage::Loading(d), Told::Loaded(Err(why))) => missing(&d, why.as_str()),
        (Stage::Reading(_), Told::NoAdapter) => failed(two("no adapter handles ", v.t.path)),
        (Stage::Reading(_), Told::Outlined(Err(e))) => {
            let why = e.message();
            let mut d: Vec<String> = Vec::new();
            d.push(three(v.t.path, " does not parse: ", why.as_str()));
            assert(texts(d@) =~= seq![v.t.path@ + " does not parse: "@ + e@.sentence()]);
            rung_failed(m);
            let r = verify_failed(
                m,
                n.spec,
                &v.t,
                v.level,
                v.attempt,
                n.cfg.max_attempts,
                d,
            );
            (Stage::Over, Act::Done(r))
        },
        (Stage::Reading(d), Told::Outlined(Ok(_))) => {
            // Without the file as it was before the edit, a rung cannot tell a deletion from a
            // file that never had the entity.
            let before = if n.inputs.len() > 1 {
                Some(n.inputs[1])
            } else {
                None
            };
            (Stage::Checking(d), Act::Check { level: v.level, before })
        },
        (Stage::Checking(_), Told::NoRung) => {
            let l = show(v.level as u64);
            failed(two("no rung at level ", l.as_str()))
        },
        (Stage::Checking(d), Told::Checked { outcome, ms }) => match after_rung(&outcome, m) {
            AfterRung::Unavailable(lines) => (Stage::Over, Act::Done(fail(lines))),
            AfterRung::Passed => put_out(
                d,
                Attribution { decode_ms: 0, verify_ms: ms, apply_ms: 0, render_ms: 0, wait_ms: 0 },
            ),
            AfterRung::Failed(lines) => {
                let r = verify_failed(
                    m,
                    n.spec,
                    &v.t,
                    v.level,
                    v.attempt,
                    n.cfg.max_attempts,
                    lines,
                );
                (Stage::Over, Act::Done(r))
            },
        },
        _ => stray(),
    }
}

/// The fields that an edit of a plan is written as.
pub open spec fn asked_fields(e: Asked) -> Seq<(Seq<char>, Json)> {
    seq![
        text_field("path"@, e.path),
        text_field("target"@, e.target),
        text_field("instruction"@, e.instruction),
    ]
}

/// The text of a plan: its edits, as a json array.
pub open spec fn plan_text(edits: Seq<Asked>) -> Seq<char> {
    "["@ + join_of(edits.map_values(|e: Asked| written(asked_fields(e))), ","@) + "]"@
}

fn edit_text(e: &EditRequest) -> (r: String)
    ensures
        r@ == written(asked_fields(e@)),
{
    let mut v: Vec<(String, serde_json::Value)> = Vec::new();
    v.push(("path".to_owned(), text_value(e.path.as_str())));
    v.push(("target".to_owned(), text_value(e.target.as_str())));
    v.push(("instruction".to_owned(), text_value(e.instruction.as_str())));
    proof {
        let f = fields(v@);
        assert(f =~= asked_fields(e@));
        reveal_strlit("path");
        reveal_strlit("target");
        reveal_strlit("instruction");
        let n = crate::json::field_names(f);
        assert(n[0] == "path"@ && n[1] == "target"@ && n[2] == "instruction"@);
        assert(n[0].len() == 4 && n[1].len() == 6 && n[2].len() == 11);
    }
    write_object(&v)
}

/// The text of a plan.
pub fn write_plan(edits: &Vec<EditRequest>) -> (r: String)
    ensures
        r@ == plan_text(asked(edits@)),
{
    let ghost all = asked(edits@).map_values(|e: Asked| written(asked_fields(e)));
    let mut v: Vec<String> = Vec::new();
    let mut i: usize = 0;
    assert(texts(v@) =~= all.take(0));
    while i < edits.len()
        invariant
            i <= edits@.len(),
            all == asked(edits@).map_values(|e: Asked| written(asked_fields(e))),
            texts(v@) == all.take(i as int),
        decreases edits@.len() - i,
    {
        let ghost was = texts(v@);
        let t = edit_text(&edits[i]);
        assert(asked(edits@)[i as int] == edits@[i as int]@);
        assert(t@ == all[i as int]);
        v.push(t);
        assert(texts(v@) =~= was.push(all[i as int]));
        assert(all.take(i + 1) =~= was.push(all[i as int]));
        i += 1;
    }
    assert(all.take(i as int) =~= all);
    let body = join(&v, ",");
    three("[", body.as_str(), "]")
}

/// The outlines that are gathered once the one at a place came. One that is not there is left out.
pub open spec fn with_outline(
    seen: Seq<(Seq<char>, Seq<Seq<char>>)>,
    path: Seq<char>,
    content: Option<Vec<u8>>,
) -> Seq<(Seq<char>, Seq<Seq<char>>)> {
    match content {
        Some(b) => seen.push((path, listed_ids(text_of(b@)))),
        None => seen,
    }
}

/// Does a result hand over to the steps of these edits?
pub open spec fn hands_to_plan(n: Node, r: NodeResult, plan: Digest, edits: Seq<Asked>) -> bool {
    let levels = n.cfg.levels@;
    let budget = n.cfg.budget_chars as nat;
    &&& r.output.verdict is Pass
    &&& r.output.outputs@ == seq![plan]
    &&& r.output.diagnostics@.len() == 0
    &&& r.expansion matches Some(x) && {
        &&& x.substitute@ == chain_tail(edits, levels, budget)
        &&& exists|env: Env|
            {
                &&& env.model_id@ == n.cfg.executor_model_id@
                &&& env.prompt_version@ == version_of(prompts::EDIT_SYSTEM@)
                &&& env.adapter_version@ == n.adapter_version@
                &&& #[trigger] are_links(x.nodes@, chain_links(edits, levels, budget), env)
            }
    }
}

/// How a plan node goes on. The planner sees structure, never bodies, so it is not asked again for
/// an edit that changed no structure.
pub open spec fn plan_moves(
    n: Node,
    instruction: Seq<char>,
    paths: Seq<Seq<char>>,
    s: Stage,
    t: Told,
    s2: Stage,
    a: Act,
) -> bool {
    match (s, t) {
        (Stage::Gathering { at, seen }, Told::Content(b)) => if at >= paths.len() {
            out_of_turn(s2, a)
        } else {
            let now = with_outline(outline_views(seen@), paths[at as int], b);
            if at + 1 < paths.len() && at + 1 < n.inputs@.len() {
                &&& s2 matches Stage::Gathering { at: next, seen: more } && next == at + 1
                    && outline_views(more@) == now
                &&& a == Act::Read(n.inputs@[at + 1])
            } else {
                &&& s2 is Planning
                &&& a matches Act::Ask { planner, request } && planner && asks_plan(
                    request,
                    n.cfg.planner_model_id@,
                    instruction,
                    now,
                )
            }
        },
        (Stage::Planning, Told::Replied { reply: Err(why), .. }) => fails_with(
            s2,
            a,
            "planner model failed: "@ + why@.sentence(),
        ),
        (Stage::Planning, Told::Replied { reply: Ok(r), ms }) => match planned(r@.json) {
            Err(why) => fails_with(s2, a, why),
            Ok(edits) => {
                &&& s2 matches Stage::Recording { edits: kept, decode_ms } && asked(kept@) == edits
                    && decode_ms == ms
                &&& a matches Act::Store(b) && b@ == encode_utf8(plan_text(edits))
            },
        },
        (Stage::Recording { edits, decode_ms }, Told::Stored { stored: Ok(d), .. }) => {
            &&& s2 is Over
            &&& a matches Act::Done(r) && hands_to_plan(n, r, d, asked(edits@))
                && r.output.attribution == took(decode_ms, 0)
        },
        (Stage::Recording { .. }, Told::Stored { stored: Err(why), .. }) => fails_with(
            s2,
            a,
            "could not store the plan: "@ + why@,
        ),
        _ => out_of_turn(s2, a),
    }
}

fn expand_plan(n: &Node<'_>, edits: &Vec<EditRequest>, plan: Digest, decode_ms: u64) -> (r:
    NodeResult)
    ensures
        hands_to_plan(*n, r, plan, asked(edits@)),
        r.output.attribution == took(decode_ms, 0),
{
    let env = env_for(prompts::EDIT_SYSTEM, n.adapter_version, n.cfg.executor_model_id.as_str());
    let cfg = ChainConfig {
        env,
        levels: n.cfg.levels.clone(),
        budget_chars: n.cfg.budget_chars,
    };
    let chain = build_chain(edits, &cfg);
    let mut v: Vec<Digest> = Vec::new();
    v.push(plan);
    assert(v@ =~= seq![plan]);
    let made = NodeResult::expand(v, Expansion::new(chain.nodes, chain.tail.as_str()));
    assert(cfg.levels@ =~= n.cfg.levels@);
    NodeResult {
        output: made.output.with_attribution(spent(decode_ms, 0)),
        expansion: made.expansion,
    }
}

fn plan_step(
    n: &Node<'_>,
    instruction: &str,
    paths: &Vec<String>,
    stage: Stage,
    told: Told,
) -> (r: (Stage, Act))
    ensures
        plan_moves(*n, instruction@, texts(paths@), stage, told, r.0, r.1),
{
    match (stage, told) {
        (Stage::Gathering { at, seen }, Told::Content(b)) => {
            if at >= paths.len() {
                return stray();
            }
            let mut more = seen;
            let ghost was = outline_views(more@);
            if let Some(bytes) = &b {
                let text = from_utf8_lossy(bytes.as_slice());
                let ids = read_summary(text.as_str());
                assert(texts(paths@)[at as int] == paths@[at as int]@);
                let ghost e = (paths@[at as int]@, texts(ids@));
                more.push((paths[at].clone(), ids));
                assert(outline_views(more@) =~= was.push(e));
            }
            if at + 1 < paths.len() && at + 1 < n.inputs.len() {
                (Stage::Gathering { at: at + 1, seen: more }, Act::Read(n.inputs[at + 1]))
            } else {
                start_plan(n, instruction, &more)
            }
        },
        (Stage::Planning, Told::Replied { reply: Err(why), .. }) => {
            let w = why.message();
            failed(two("planner model failed: ", w.as_str()))
        },
        (Stage::Planning, Told::Replied { reply: Ok(r), ms }) => match read_plan(&r.json) {
            Err(why) => failed(why),
            Ok(edits) => {
                let text = write_plan(&edits);
                (
                    Stage::Recording { edits, decode_ms: ms },
                    Act::Store(to_bytes(text.as_str())),
                )
            },
        },
        (Stage::Recording { edits, decode_ms }, Told::Stored { stored: Ok(d), .. }) => {
            let r = expand_plan(n, &edits, d, decode_ms);
            (Stage::Over, Act::Done(r))
        },
        (Stage::Recording { .. }, Told::Stored { stored: Err(why), .. }) => failed(
            two("could not store the plan: ", why.as_str()),
        ),
        _ => stray(),
    }
}

/// How a node goes on from a stage, on what it is told.
pub open spec fn moves(
    n: Node,
    s: Stage,
    t: Told,
    m: MetricsSnapshot,
    s2: Stage,
    a: Act,
    m2: MetricsSnapshot,
) -> bool {
    match n.op@ {
        OpModel::Source { .. } => m2 == m && (n.op matches NodeOp::Source { content, .. }
            && source_moves(*content, s, t, s2, a)),
        OpModel::Outline { path } => m2 == m && outline_moves(path, s, t, s2, a),
        OpModel::Pack { path, target, budget } => m2 == m && pack_moves(
            path,
            target,
            budget_for(budget, n.cfg.budget_chars as nat),
            s,
            t,
            s2,
            a,
        ),
        OpModel::Edit { path, target, instruction, mode, attempt, diagnostics } => exists|
            e: Editing,
        |
            {
                &&& e.t@ == (Asked { path, target, instruction })
                &&& e.mode == mode
                &&& e.attempt as nat == attempt
                &&& texts(e.diagnostics@) == diagnostics
                &&& #[trigger] edit_moves(n, e, s, t, m, s2, a, m2)
            },
        OpModel::Verify { path, level, attempt, target, instruction } => exists|v: Verifying|
            {
                &&& v.t@ == (Asked { path, target, instruction })
                &&& v.level as nat == level
                &&& v.attempt as nat == attempt
                &&& #[trigger] verify_moves(n, v, s, t, m, s2, a, m2)
            },
        OpModel::Plan { instruction, paths } => m2 == m && plan_moves(
            n,
            instruction,
            paths,
            s,
            t,
            s2,
            a,
        ),
    }
}

/// What a node asks for next, once it is told what came of what it asked for before.
pub fn advance(n: &Node<'_>, stage: Stage, told: Told, m: &mut MetricsSnapshot) -> (r: (Stage, Act))
    ensures
        moves(*n, stage, told, *old(m), r.0, r.1, *final(m)),
{
    match n.op {
        NodeOp::Source { content, .. } => source_step(content, stage, told),
        NodeOp::Outline { path } => outline_step(path.as_str(), stage, told),
        NodeOp::Pack { path, target, budget_chars } => {
            let budget = pack_budget(*budget_chars, n.cfg.budget_chars);
            pack_step(path.as_str(), target.as_str(), budget, stage, told)
        },
        NodeOp::Edit { path, target, instruction, mode, attempt, diagnostics } => {
            let e = Editing {
                t: EditTask {
                    path: path.as_str(),
                    target: target.as_str(),
                    instruction: instruction.as_str(),
                },
                mode: *mode,
                attempt: *attempt,
                diagnostics,
            };
            edit_step(n, &e, stage, told, m)
        },
        NodeOp::Verify { path, level, attempt, target, instruction } => {
            let v = Verifying {
                t: EditTask {
                    path: path.as_str(),
                    target: target.as_str(),
                    instruction: instruction.as_str(),
                },
                level: *level,
                attempt: *attempt,
            };
            verify_step(n, &v, stage, told, m)
        },
        NodeOp::Plan { instruction, paths } => plan_step(
            n,
            instruction.as_str(),
            paths,
            stage,
            told,
        ),
    }
}

/// How many files a node plans for.
pub open spec fn files_of(op: OpModel) -> nat {
    match op {
        OpModel::Plan { paths, .. } => paths.len(),
        _ => 0,
    }
}

/// The most that a node is still told before it is done.
pub open spec fn still_told(op: OpModel, s: Stage) -> nat {
    match s {
        Stage::Over => 0,
        Stage::Looking => 1,
        Stage::Storing { .. } => 1,
        Stage::Recording { .. } => 1,
        Stage::Checking(_) => 1,
        Stage::Packing => 2,
        Stage::Applying { .. } => 2,
        Stage::Planning => 2,
        Stage::Reading(_) => 3,
        Stage::Editing => 3,
        Stage::Routing(_) => 4,
        Stage::Preparing => 5,
        Stage::Loading(_) => 6,
        Stage::Gathering { at, .. } => if at < files_of(op) {
            (2 + files_of(op) - at) as nat
        } else {
            1
        },
    }
}

/// A node ends, whatever it is told: each time there is less that it is still told, and it is done
/// once it waits for nothing.
pub proof fn law_a_node_ends(
    n: Node,
    s: Stage,
    t: Told,
    m: MetricsSnapshot,
    s2: Stage,
    a: Act,
    m2: MetricsSnapshot,
)
    requires
        moves(n, s, t, m, s2, a, m2),
        !(s is Over),
    ensures
        still_told(n.op@, s2) < still_told(n.op@, s),
        s2 is Over <==> a is Done,
{
}

/// A node that failed puts nothing out, so nothing of it is cached.
pub proof fn law_a_failure_puts_nothing_out(
    n: Node,
    s: Stage,
    t: Told,
    m: MetricsSnapshot,
    s2: Stage,
    a: Act,
    m2: MetricsSnapshot,
)
    requires
        moves(n, s, t, m, s2, a, m2),
        a is Done,
        a->Done_0.output.verdict is Fail,
    ensures
        a->Done_0.output.outputs@.len() == 0,
        a->Done_0.expansion is None,
{
}

/// A rung hands on the very file that it was given, and only where it ran and passed.
pub proof fn law_a_rung_hands_its_file_on(
    n: Node,
    s: Stage,
    t: Told,
    m: MetricsSnapshot,
    s2: Stage,
    a: Act,
    m2: MetricsSnapshot,
)
    requires
        n.op is Verify,
        moves(n, s, t, m, s2, a, m2),
        a is Done,
        a->Done_0.output.outputs@.len() > 0,
    ensures
        t matches Told::Checked { outcome, .. } && outcome.passed && !outcome.unavailable,
        s matches Stage::Checking(d) && a->Done_0.output.outputs@ == seq![d],
{
}

} // verus!
