//! The runtime as a daemon.
//!
//! One json-rpc 2.0 surface, line delimited. Two dialects sit on it: the native one (`flash/run`,
//! `flash/status`, `flash/cancel`, `flash/jobs`), which a thin client uses, reattaching to a running
//! task by id; and mcp (`initialize`, `tools/list`, `tools/call`), so that any mcp client can drive
//! the runtime without knowing anything about it.
//!
//! A line is heard, and becomes either something to say at once or something to do first: run a
//! task, list or cancel jobs, fetch content. What was done becomes something to say in turn.

pub mod status;

use crate::adapter::opt_text;
use crate::identity::hex_value;
use crate::identity::Digest;
use crate::json::array_value;
use crate::json::as_items;
use crate::json::as_text;
use crate::json::as_whole;
use crate::json::at_key;
use crate::json::bool_value;
use crate::json::copy_value;
use crate::json::fields;
use crate::json::get;
use crate::json::held;
use crate::json::list_of;
use crate::json::list_value;
use crate::json::null_value;
use crate::json::number;
use crate::json::object_value;
use crate::json::read;
use crate::json::reading;
use crate::json::signed_value;
use crate::json::text_at;
use crate::json::text_value;
use crate::json::whole_value;
use crate::json::Json;
use crate::maps::NameMap;
use crate::orchestrator::default_task_id;
use crate::orchestrator::task_id;
use crate::server::status::object;
use crate::server::status::put;
use crate::server::status::render_status;
use crate::server::status::status_json;
use crate::server::status::status_text;
use crate::server::status::status_value;
use crate::server::status::StatusView;
use crate::server::status::TaskState;
use crate::server::status::TaskStatus;
use crate::server::status::TaskSummary;
use crate::store::join_path;
use crate::store::joined;
use crate::text::same;
use crate::text::texts;
use crate::wording::skip_char;
use crate::wording::strip_leading;
use vstd::prelude::*;
use vstd::utf8::encode_utf8;

verus! {

pub const MCP_PROTOCOL_VERSION: &'static str = "2025-03-26";

/// Where the daemon works, and how it reaches its models.
pub struct ServerConfig {
    pub store_root: String,
    pub workspace: String,
    /// The command that speaks to a model, if one is configured. Without it the server answers
    /// with a clear error instead of pretending to work.
    pub planner_cmd: Option<Vec<String>>,
    pub executor_cmd: Option<Vec<String>>,
}

impl ServerConfig {
    /// The store stands in the workspace; no model is configured.
    pub fn new(workspace: &str) -> (r: Self)
        ensures
            r.workspace@ == workspace@,
            r.store_root@ == joined(workspace@, ".flash"@),
            r.planner_cmd is None,
            r.executor_cmd is None,
    {
        ServerConfig {
            store_root: join_path(workspace, ".flash"),
            workspace: workspace.to_owned(),
            planner_cmd: None,
            executor_cmd: None,
        }
    }
}

/// What is wrong with a configuration without scripted models, if anything is.
pub open spec fn missing_model(cfg: ServerConfig) -> Option<Seq<char>> {
    if cfg.planner_cmd is None {
        Some("no planner model configured: pass --planner-cmd or use scripted models"@)
    } else if cfg.executor_cmd is None {
        Some("no executor model configured: pass --executor-cmd"@)
    } else {
        None
    }
}

/// A task to run.
pub struct Order {
    pub id: String,
    pub instruction: String,
    pub files: Vec<String>,
}

/// A task to run, as plain values.
#[verifier::ext_equal]
pub struct OrderView {
    pub id: Seq<char>,
    pub instruction: Seq<char>,
    pub files: Seq<Seq<char>>,
}

impl View for Order {
    type V = OrderView;

    open spec fn view(&self) -> OrderView {
        OrderView { id: self.id@, instruction: self.instruction@, files: texts(self.files@) }
    }
}

/// Something to say: a result, or an error by its code.
pub enum Outcome {
    Result(serde_json::Value),
    Error(i64, String),
}

/// Something to say, as plain values.
pub ghost enum Said {
    Result(Json),
    Error(int, Seq<char>),
}

impl View for Outcome {
    type V = Said;

    open spec fn view(&self) -> Said {
        match self {
            Outcome::Result(v) => Said::Result(held(*v)),
            Outcome::Error(c, m) => Said::Error(*c as int, m@),
        }
    }
}

/// What a line asks for: something to say at once, or something to do first.
pub enum Turn {
    Say(Outcome),
    /// Run a task. A tool call is answered with text, any other with the status.
    Run { order: Order, tool: bool },
    Jobs,
    Cancel(u64),
    Content { hash: String, digest: Digest },
}

/// What a line asks for, as plain values.
pub ghost enum Asks {
    Say(Said),
    Run { order: OrderView, tool: bool },
    Jobs,
    Cancel(u64),
    Content { hash: Seq<char>, digest: Seq<u8> },
}

impl View for Turn {
    type V = Asks;

    open spec fn view(&self) -> Asks {
        match self {
            Turn::Say(o) => Asks::Say(o@),
            Turn::Run { order, tool } => Asks::Run { order: order@, tool: *tool },
            Turn::Jobs => Asks::Jobs,
            Turn::Cancel(j) => Asks::Cancel(*j),
            Turn::Content { hash, digest } => Asks::Content { hash: hash@, digest: digest@ },
        }
    }
}

/// A line that was heard: whose answer is due, whether one is due at all, and what it asks for.
pub struct Heard {
    pub id: serde_json::Value,
    pub notification: bool,
    pub turn: Turn,
}

/// The texts among some values.
pub open spec fn texts_in(v: Seq<Json>) -> Seq<Seq<char>>
    decreases v.len(),
{
    if v.len() == 0 {
        Seq::empty()
    } else {
        match v.last() {
            Json::Text(s) => texts_in(v.drop_last()).push(s),
            _ => texts_in(v.drop_last()),
        }
    }
}

/// The files that a task may touch.
pub open spec fn files_in(params: Option<Json>) -> Seq<Seq<char>> {
    match at_key(params, "files"@) {
        Some(Json::Array(v)) => texts_in(v),
        _ => Seq::empty(),
    }
}

/// The task that some parameters ask for, or what they lack.
pub open spec fn order_of(params: Option<Json>) -> Result<OrderView, Seq<char>> {
    match text_at(params, "instruction"@) {
        None => Err("instruction is required"@),
        Some(instruction) => if files_in(params).len() == 0 {
            Err("at least one file is required"@)
        } else {
            Ok(
                OrderView {
                    id: match text_at(params, "task_id"@) {
                        Some(id) => id,
                        None => default_task_id(instruction),
                    },
                    instruction,
                    files: files_in(params),
                },
            )
        },
    }
}

/// The text under a key, or none.
pub open spec fn word_at(v: Option<Json>, key: Seq<char>) -> Seq<char> {
    match text_at(v, key) {
        Some(s) => s,
        None => Seq::empty(),
    }
}

/// A piece of text, as a tool answers with it.
pub open spec fn text_piece(text: Seq<char>) -> Json {
    object(seq![("type"@, Json::Text("text"@)), ("text"@, Json::Text(text))])
}

/// A tool's answer.
pub open spec fn tool_json(text: Seq<char>, is_error: bool) -> Json {
    object(
        seq![
            ("content"@, Json::Array(seq![text_piece(text)])),
            ("isError"@, Json::Bool(is_error)),
        ],
    )
}

/// A tool's answer that cannot be an error.
pub open spec fn plain_tool_json(text: Seq<char>) -> Json {
    object(seq![("content"@, Json::Array(seq![text_piece(text)]))])
}

/// A parameter that is a text.
pub open spec fn text_type() -> Json {
    object(seq![("type"@, Json::Text("string"@))])
}

/// The tool that runs a task.
pub open spec fn run_tool() -> Json {
    object(
        seq![
            ("name"@, Json::Text("flash_run"@)),
            (
                "description"@,
                Json::Text(
                    "Run an incremental task over one or more files. Repeat work is served from the cache, so re-running an unchanged task costs nothing."@,
                ),
            ),
            (
                "inputSchema"@,
                object(
                    seq![
                        ("type"@, Json::Text("object"@)),
                        ("required"@, list_of(seq!["instruction"@, "files"@])),
                        (
                            "properties"@,
                            object(
                                seq![
                                    ("instruction"@, text_type()),
                                    (
                                        "files"@,
                                        object(
                                            seq![
                                                ("type"@, Json::Text("array"@)),
                                                ("items"@, text_type()),
                                            ],
                                        ),
                                    ),
                                    (
                                        "task_id"@,
                                        object(
                                            seq![
                                                ("type"@, Json::Text("string"@)),
                                                (
                                                    "description"@,
                                                    Json::Text("reuse to resume or re-run"@),
                                                ),
                                            ],
                                        ),
                                    ),
                                ],
                            ),
                        ),
                    ],
                ),
            ),
        ],
    )
}

/// The tool that asks for a task.
pub open spec fn status_tool() -> Json {
    object(
        seq![
            ("name"@, Json::Text("flash_status"@)),
            (
                "description"@,
                Json::Text("Status of a task by id, including results and diagnostics."@),
            ),
            (
                "inputSchema"@,
                object(
                    seq![
                        ("type"@, Json::Text("object"@)),
                        ("required"@, list_of(seq!["task_id"@])),
                        ("properties"@, object(seq![("task_id"@, text_type())])),
                    ],
                ),
            ),
        ],
    )
}

/// What the handshake says.
pub open spec fn hello_json(version: Seq<char>) -> Json {
    object(
        seq![
            ("protocolVersion"@, Json::Text(MCP_PROTOCOL_VERSION@)),
            ("capabilities"@, object(seq![("tools"@, object(seq![]))])),
            (
                "serverInfo"@,
                object(seq![("name"@, Json::Text("flash"@)), ("version"@, Json::Text(version))]),
            ),
        ],
    )
}

/// The digest that a hash writes, where it is one.
pub open spec fn hash_digest(hash: Seq<char>) -> Option<Seq<u8>> {
    if encode_utf8(hash).len() == 64 {
        hex_value(encode_utf8(hash))
    } else {
        None
    }
}

/// What a tool call asks for.
pub open spec fn tool_call(tasks: Map<Seq<char>, StatusView>, params: Option<Json>) -> Asks {
    let name = word_at(params, "name"@);
    let args = at_key(params, "arguments"@);
    if name == "flash_run"@ {
        match order_of(args) {
            Ok(order) => Asks::Run { order, tool: true },
            Err(e) => Asks::Say(Said::Result(tool_json(e, true))),
        }
    } else if name == "flash_status"@ {
        let id = word_at(args, "task_id"@);
        Asks::Say(
            Said::Result(
                plain_tool_json(
                    if tasks.contains_key(id) {
                        status_text(tasks[id])
                    } else {
                        "no task called "@ + id
                    },
                ),
            ),
        )
    } else {
        Asks::Say(Said::Error(-32602, "no tool called "@ + name))
    }
}

/// What a request asks for.
pub open spec fn asks(
    tasks: Map<Seq<char>, StatusView>,
    version: Seq<char>,
    method: Seq<char>,
    params: Option<Json>,
) -> Asks {
    if method == "initialize"@ {
        Asks::Say(Said::Result(hello_json(version)))
    } else if method == "notifications/initialized"@ || method == "initialized"@ {
        Asks::Say(Said::Result(object(seq![])))
    } else if method == "tools/list"@ {
        Asks::Say(
            Said::Result(object(seq![("tools"@, Json::Array(seq![run_tool(), status_tool()]))])),
        )
    } else if method == "tools/call"@ {
        tool_call(tasks, params)
    } else if method == "flash/run"@ {
        match order_of(params) {
            Ok(order) => Asks::Run { order, tool: false },
            Err(e) => Asks::Say(Said::Error(-32602, e)),
        }
    } else if method == "flash/status"@ {
        let id = word_at(params, "task_id"@);
        if tasks.contains_key(id) {
            Asks::Say(Said::Result(status_json(tasks[id])))
        } else {
            Asks::Say(Said::Error(-32602, "no task called "@ + id))
        }
    } else if method == "flash/jobs"@ {
        Asks::Jobs
    } else if method == "flash/cancel"@ {
        Asks::Cancel(
            match at_key(params, "job"@) {
                Some(j) => match j.whole() {
                    Some(n) => n,
                    None => 0,
                },
                None => 0,
            },
        )
    } else if method == "flash/content"@ {
        let hash = word_at(params, "hash"@);
        match hash_digest(hash) {
            Some(digest) => Asks::Content { hash, digest },
            None => Asks::Say(Said::Error(-32602, "no content for "@ + hash)),
        }
    } else if method == "shutdown"@ {
        Asks::Say(Said::Result(object(seq![("ok"@, Json::Bool(true))])))
    } else {
        Asks::Say(Said::Error(-32601, "unknown method "@ + method))
    }
}

/// What a line asks for. Windows clients routinely prefix the first line with a byte order mark;
/// it is passed over.
pub open spec fn line_asks(
    tasks: Map<Seq<char>, StatusView>,
    version: Seq<char>,
    line: Seq<char>,
) -> Asks {
    match reading(skip_char(line, '\u{feff}')) {
        Ok(req) => asks(tasks, version, word_at(Some(req), "method"@), req.at("params"@)),
        Err(e) => Asks::Say(Said::Error(-32700, "parse error: "@ + e)),
    }
}

/// The id that a line's answer goes to.
pub open spec fn line_id(line: Seq<char>) -> Json {
    match reading(skip_char(line, '\u{feff}')) {
        Ok(req) => match req.at("id"@) {
            Some(id) => id,
            None => Json::Null,
        },
        Err(e) => Json::Null,
    }
}

/// Is a line a notification: a request without an id, which gets no answer?
pub open spec fn is_notification(line: Seq<char>) -> bool {
    match reading(skip_char(line, '\u{feff}')) {
        Ok(req) => req.at("id"@) is None,
        Err(e) => false,
    }
}

/// An answer: a result or an error, to the id that it goes to.
pub open spec fn reply_json(id: Json, said: Said) -> Json {
    match said {
        Said::Result(v) => object(
            seq![("jsonrpc"@, Json::Text("2.0"@)), ("id"@, id), ("result"@, v)],
        ),
        Said::Error(code, message) => object(
            seq![
                ("jsonrpc"@, Json::Text("2.0"@)),
                ("id"@, id),
                (
                    "error"@,
                    object(
                        seq![
                            ("code"@, number(code)),
                            ("message"@, Json::Text(message)),
                        ],
                    ),
                ),
            ],
        ),
    }
}

fn object0() -> (r: serde_json::Value)
    ensures
        held(r) == object(seq![]),
{
    let v: Vec<(String, serde_json::Value)> = Vec::new();
    assert(fields(v@) =~= seq![]);
    object_value(v)
}

fn object1(a: &str, x: serde_json::Value) -> (r: serde_json::Value)
    ensures
        held(r) == object(seq![(a@, held(x))]),
{
    let mut v: Vec<(String, serde_json::Value)> = Vec::new();
    put(&mut v, a, x);
    assert(fields(v@) =~= seq![(a@, held(x))]);
    object_value(v)
}

fn object2(a: &str, x: serde_json::Value, b: &str, y: serde_json::Value) -> (r: serde_json::Value)
    ensures
        held(r) == object(seq![(a@, held(x)), (b@, held(y))]),
{
    let mut v: Vec<(String, serde_json::Value)> = Vec::new();
    put(&mut v, a, x);
    put(&mut v, b, y);
    assert(fields(v@) =~= seq![(a@, held(x)), (b@, held(y))]);
    object_value(v)
}

fn object3(
    a: &str,
    x: serde_json::Value,
    b: &str,
    y: serde_json::Value,
    c: &str,
    z: serde_json::Value,
) -> (r: serde_json::Value)
    ensures
        held(r) == object(seq![(a@, held(x)), (b@, held(y)), (c@, held(z))]),
{
    let mut v: Vec<(String, serde_json::Value)> = Vec::new();
    put(&mut v, a, x);
    put(&mut v, b, y);
    put(&mut v, c, z);
    assert(fields(v@) =~= seq![(a@, held(x)), (b@, held(y)), (c@, held(z))]);
    object_value(v)
}

fn array1(x: serde_json::Value) -> (r: serde_json::Value)
    ensures
        held(r) == Json::Array(seq![held(x)]),
{
    let mut v: Vec<serde_json::Value> = Vec::new();
    v.push(x);
    assert(v@.map_values(|x: serde_json::Value| held(x)) =~= seq![held(x)]);
    array_value(v)
}

fn array2(x: serde_json::Value, y: serde_json::Value) -> (r: serde_json::Value)
    ensures
        held(r) == Json::Array(seq![held(x), held(y)]),
{
    let mut v: Vec<serde_json::Value> = Vec::new();
    v.push(x);
    v.push(y);
    assert(v@.map_values(|x: serde_json::Value| held(x)) =~= seq![held(x), held(y)]);
    array_value(v)
}

fn tool_value(text: &str, is_error: bool) -> (r: serde_json::Value)
    ensures
        held(r) == tool_json(text@, is_error),
{
    let piece = object2("type", text_value("text"), "text", text_value(text));
    object2("content", array1(piece), "isError", bool_value(is_error))
}

fn plain_tool_value(text: &str) -> (r: serde_json::Value)
    ensures
        held(r) == plain_tool_json(text@),
{
    let piece = object2("type", text_value("text"), "text", text_value(text));
    object1("content", array1(piece))
}

fn text_type_value() -> (r: serde_json::Value)
    ensures
        held(r) == text_type(),
{
    object1("type", text_value("string"))
}

fn run_tool_value() -> (r: serde_json::Value)
    ensures
        held(r) == run_tool(),
{
    let mut names: Vec<String> = Vec::new();
    names.push("instruction".to_owned());
    names.push("files".to_owned());
    assert(texts(names@) =~= seq!["instruction"@, "files"@]);
    let required = list_value(&names);
    let files = object2("type", text_value("array"), "items", text_type_value());
    let id = object2(
        "type",
        text_value("string"),
        "description",
        text_value("reuse to resume or re-run"),
    );
    let properties = object3("instruction", text_type_value(), "files", files, "task_id", id);
    let schema = object3(
        "type",
        text_value("object"),
        "required",
        required,
        "properties",
        properties,
    );
    object3(
        "name",
        text_value("flash_run"),
        "description",
        text_value(
            "Run an incremental task over one or more files. Repeat work is served from the cache, so re-running an unchanged task costs nothing.",
        ),
        "inputSchema",
        schema,
    )
}

fn status_tool_value() -> (r: serde_json::Value)
    ensures
        held(r) == status_tool(),
{
    let mut names: Vec<String> = Vec::new();
    names.push("task_id".to_owned());
    assert(texts(names@) =~= seq!["task_id"@]);
    let required = list_value(&names);
    let properties = object1("task_id", text_type_value());
    let schema = object3(
        "type",
        text_value("object"),
        "required",
        required,
        "properties",
        properties,
    );
    object3(
        "name",
        text_value("flash_status"),
        "description",
        text_value("Status of a task by id, including results and diagnostics."),
        "inputSchema",
        schema,
    )
}

fn hello_value(version: &str) -> (r: serde_json::Value)
    ensures
        held(r) == hello_json(version@),
{
    let capabilities = object1("tools", object0());
    let info = object2("name", text_value("flash"), "version", text_value(version));
    object3(
        "protocolVersion",
        text_value(MCP_PROTOCOL_VERSION),
        "capabilities",
        capabilities,
        "serverInfo",
        info,
    )
}

/// The value under a key of a value that may not be there.
fn key<'a>(v: Option<&'a serde_json::Value>, name: &str) -> (r: Option<&'a serde_json::Value>)
    ensures
        match r {
            Some(x) => at_key(opt_held(v), name@) == Some(held(*x)),
            None => at_key(opt_held(v), name@) is None,
        },
        opt_held(r) == at_key(opt_held(v), name@),
{
    match v {
        Some(x) => get(x, name),
        None => None,
    }
}

/// What a value that may not be there holds.
pub open spec fn opt_held(v: Option<&serde_json::Value>) -> Option<Json> {
    match v {
        Some(x) => Some(held(*x)),
        None => None,
    }
}

/// The text under a key.
fn text<'a>(v: Option<&'a serde_json::Value>, name: &str) -> (r: Option<&'a str>)
    ensures
        match r {
            Some(s) => text_at(opt_held(v), name@) == Some(s@),
            None => text_at(opt_held(v), name@) is None,
        },
{
    match key(v, name) {
        Some(x) => as_text(x),
        None => None,
    }
}

/// The text under a key, or none.
fn word<'a>(v: Option<&'a serde_json::Value>, name: &str) -> (r: &'a str)
    ensures
        r@ == word_at(opt_held(v), name@),
{
    match text(v, name) {
        Some(s) => s,
        None => {
            proof {
                reveal_strlit("");
                assert(""@ =~= Seq::<char>::empty());
            }
            ""
        },
    }
}

/// Two texts, one behind the other.
fn joint(a: &str, b: &str) -> (r: String)
    ensures
        r@ == a@ + b@,
{
    let mut s = a.to_owned();
    s.push_str(b);
    s
}

fn files(params: Option<&serde_json::Value>) -> (r: Vec<String>)
    ensures
        texts(r@) == files_in(opt_held(params)),
{
    let mut out: Vec<String> = Vec::new();
    assert(texts(out@) =~= Seq::<Seq<char>>::empty());
    match key(params, "files") {
        Some(x) => match as_items(x) {
            Some(items) => {
                let ghost all = items@.map_values(|v: serde_json::Value| held(v));
                let mut i: usize = 0;
                assert(texts(out@) =~= texts_in(all.take(0)));
                while i < items.len()
                    invariant
                        i <= items@.len(),
                        all == items@.map_values(|v: serde_json::Value| held(v)),
                        texts(out@) == texts_in(all.take(i as int)),
                    decreases items@.len() - i,
                {
                    let ghost nn = all.take(i + 1);
                    assert(nn.drop_last() =~= all.take(i as int));
                    assert(nn.last() == held(items@[i as int]));
                    match as_text(&items[i]) {
                        Some(s) => {
                            let ghost was = texts(out@);
                            out.push(s.to_owned());
                            assert(texts(out@) =~= was.push(s@));
                        },
                        None => {},
                    }
                    i += 1;
                }
                assert(all.take(i as int) =~= all);
            },
            None => {},
        },
        None => {},
    }
    out
}

/// Reads the task that some parameters ask for, or says what they lack.
fn run_from_params(params: Option<&serde_json::Value>) -> (r: Result<Order, String>)
    ensures
        match r {
            Ok(o) => order_of(opt_held(params)) == Ok::<OrderView, Seq<char>>(o@),
            Err(e) => order_of(opt_held(params)) == Err::<OrderView, Seq<char>>(e@),
        },
{
    match text(params, "instruction") {
        None => Err("instruction is required".to_owned()),
        Some(instruction) => {
            let files = files(params);
            assert(texts(files@).len() == files@.len());
            if files.len() == 0 {
                return Err("at least one file is required".to_owned());
            }
            let id = task_id(text(params, "task_id"), instruction);
            Ok(Order { id, instruction: instruction.to_owned(), files })
        },
    }
}

/// The daemon: its configuration, and the tasks that it has been given.
pub struct Server {
    pub cfg: ServerConfig,
    pub version: String,
    /// Are there scripted models in the place of spawned processes?
    pub scripted: bool,
    pub tasks: NameMap<TaskStatus>,
}

/// The tasks, as plain values.
pub open spec fn task_views(m: Map<Seq<char>, TaskStatus>) -> Map<Seq<char>, StatusView> {
    m.map_values(|t: TaskStatus| t@)
}

/// How a run ended.
pub enum Ended {
    /// It ran, and this is what it did.
    Ran(TaskSummary),
    /// It could not be run.
    Refused(String),
}

/// The status of a task that has ended.
pub open spec fn ended_status(id: Seq<char>, instruction: Seq<char>, e: Ended) -> StatusView {
    match e {
        Ended::Ran(s) => StatusView {
            id,
            state: if s.green {
                TaskState::Done
            } else {
                TaskState::Failed
            },
            instruction,
            summary: Some(s@),
            error: None,
        },
        Ended::Refused(m) => StatusView {
            id,
            state: TaskState::Failed,
            instruction,
            summary: None,
            error: Some(m@),
        },
    }
}

/// The status of a task that has begun.
pub open spec fn begun_status(id: Seq<char>, instruction: Seq<char>) -> StatusView {
    StatusView { id, state: TaskState::Running, instruction, summary: None, error: None }
}

impl Server {
    /// The tasks are kept by their ids, and each is in order.
    pub open spec fn wf(&self) -> bool {
        &&& self.tasks.wf()
        &&& forall|k: Seq<char>| #[trigger] self.tasks@.contains_key(k) ==> self.tasks@[k].wf()
    }

    /// What is known of each task.
    pub open spec fn known(&self) -> Map<Seq<char>, StatusView> {
        task_views(self.tasks@)
    }

    /// A daemon without tasks.
    pub fn new(cfg: ServerConfig, version: &str) -> (r: Self)
        ensures
            r.wf(),
            r.cfg == cfg,
            r.version@ == version@,
            !r.scripted,
            r.known() == Map::<Seq<char>, StatusView>::empty(),
    {
        let r = Server {
            cfg,
            version: version.to_owned(),
            scripted: false,
            tasks: NameMap::empty(),
        };
        assert(r.known() =~= Map::<Seq<char>, StatusView>::empty());
        r
    }

    /// Points the server at scripted models.
    pub fn with_models(&mut self)
        requires
            old(self).wf(),
        ensures
            final(self).wf(),
            *final(self) == (Server { scripted: true, ..*old(self) }),
    {
        self.scripted = true;
    }

    /// Why a task cannot be run, if it cannot: the models that it needs are not configured.
    pub fn refusal(&self) -> (r: Option<String>)
        ensures
            opt_text(r) == if self.scripted {
                None
            } else {
                missing_model(self.cfg)
            },
    {
        if self.scripted {
            return None;
        }
        if self.cfg.planner_cmd.is_none() {
            return Some(
                "no planner model configured: pass --planner-cmd or use scripted models".to_owned(),
            );
        }
        if self.cfg.executor_cmd.is_none() {
            return Some("no executor model configured: pass --executor-cmd".to_owned());
        }
        None
    }

    /// Notes a status under its id.
    fn note(&mut self, s: TaskStatus)
        requires
            old(self).wf(),
            s.wf(),
        ensures
            final(self).wf(),
            final(self).cfg == old(self).cfg,
            final(self).version == old(self).version,
            final(self).scripted == old(self).scripted,
            final(self).known() == old(self).known().insert(s.id@, s@),
    {
        let ghost was = self.tasks@;
        let ghost sv = s;
        self.tasks.insert(s.id.clone(), s);
        assert(self.known() =~= task_views(was).insert(sv.id@, sv@));
    }

    /// Notes that a task has begun.
    pub fn begin(&mut self, id: &str, instruction: &str)
        requires
            old(self).wf(),
        ensures
            final(self).wf(),
            final(self).cfg == old(self).cfg,
            final(self).version == old(self).version,
            final(self).scripted == old(self).scripted,
            final(self).known() == old(self).known().insert(
                id@,
                begun_status(id@, instruction@),
            ),
    {
        self.note(
            TaskStatus {
                id: id.to_owned(),
                state: TaskState::Running,
                instruction: instruction.to_owned(),
                summary: None,
                error: None,
            },
        );
    }

    /// Notes how a task has ended. The daemon owns it, so a client that disconnects loses nothing.
    pub fn finish(&mut self, id: &str, instruction: &str, ended: Ended) -> (r: TaskStatus)
        requires
            old(self).wf(),
            ended matches Ended::Ran(s) ==> s.wf(),
        ensures
            final(self).wf(),
            final(self).cfg == old(self).cfg,
            final(self).version == old(self).version,
            final(self).scripted == old(self).scripted,
            r.wf(),
            r@ == ended_status(id@, instruction@, ended),
            final(self).known() == old(self).known().insert(id@, r@),
    {
        let ghost want = ended_status(id@, instruction@, ended);
        let s = match ended {
            Ended::Ran(summary) => TaskStatus {
                id: id.to_owned(),
                state: if summary.green {
                    TaskState::Done
                } else {
                    TaskState::Failed
                },
                instruction: instruction.to_owned(),
                summary: Some(summary),
                error: None,
            },
            Ended::Refused(m) => TaskStatus {
                id: id.to_owned(),
                state: TaskState::Failed,
                instruction: instruction.to_owned(),
                summary: None,
                error: Some(m),
            },
        };
        assert(s@ =~= want);
        let r = s.copy();
        self.note(s);
        r
    }

    /// What is known of a task.
    pub fn status(&self, id: &str) -> (r: Option<&TaskStatus>)
        requires
            self.wf(),
        ensures
            match r {
                Some(s) => s.wf() && self.known().contains_key(id@) && s@ == self.known()[id@],
                None => !self.known().contains_key(id@),
            },
    {
        self.tasks.get(id)
    }

    /// What a tool call asks for.
    fn tool(&self, params: Option<&serde_json::Value>) -> (r: Turn)
        requires
            self.wf(),
        ensures
            r@ == tool_call(self.known(), opt_held(params)),
    {
        let name = word(params, "name");
        let args = key(params, "arguments");
        if same(name, "flash_run") {
            match run_from_params(args) {
                Ok(order) => Turn::Run { order, tool: true },
                Err(e) => Turn::Say(Outcome::Result(tool_value(e.as_str(), true))),
            }
        } else if same(name, "flash_status") {
            let id = word(args, "task_id");
            let said = match self.status(id) {
                Some(s) => render_status(s),
                None => joint("no task called ", id),
            };
            Turn::Say(Outcome::Result(plain_tool_value(said.as_str())))
        } else {
            Turn::Say(Outcome::Error(-32602, joint("no tool called ", name)))
        }
    }

    /// What a request asks for.
    fn turn(&self, method: &str, params: Option<&serde_json::Value>) -> (r: Turn)
        requires
            self.wf(),
        ensures
            r@ == asks(self.known(), self.version@, method@, opt_held(params)),
    {
        if same(method, "initialize") {
            Turn::Say(Outcome::Result(hello_value(self.version.as_str())))
        } else if same(method, "notifications/initialized") || same(method, "initialized") {
            Turn::Say(Outcome::Result(object0()))
        } else if same(method, "tools/list") {
            let tools = array2(run_tool_value(), status_tool_value());
            Turn::Say(Outcome::Result(object1("tools", tools)))
        } else if same(method, "tools/call") {
            self.tool(params)
        } else if same(method, "flash/run") {
            match run_from_params(params) {
                Ok(order) => Turn::Run { order, tool: false },
                Err(e) => Turn::Say(Outcome::Error(-32602, e)),
            }
        } else if same(method, "flash/status") {
            let id = word(params, "task_id");
            match self.status(id) {
                Some(s) => Turn::Say(Outcome::Result(status_value(s))),
                None => Turn::Say(Outcome::Error(-32602, joint("no task called ", id))),
            }
        } else if same(method, "flash/jobs") {
            Turn::Jobs
        } else if same(method, "flash/cancel") {
            let job: u64 = match key(params, "job") {
                Some(j) => match as_whole(j) {
                    Some(n) => n,
                    None => 0,
                },
                None => 0,
            };
            Turn::Cancel(job)
        } else if same(method, "flash/content") {
            let hash = word(params, "hash");
            match Digest::from_hex(hash) {
                Some(digest) => Turn::Content { hash: hash.to_owned(), digest },
                None => Turn::Say(Outcome::Error(-32602, joint("no content for ", hash))),
            }
        } else if same(method, "shutdown") {
            Turn::Say(Outcome::Result(object1("ok", bool_value(true))))
        } else {
            Turn::Say(Outcome::Error(-32601, joint("unknown method ", method)))
        }
    }

    /// Hears one line.
    pub fn hear(&self, line: &str) -> (r: Heard)
        requires
            self.wf(),
        ensures
            held(r.id) == line_id(line@),
            r.notification == is_notification(line@),
            r.turn@ == line_asks(self.known(), self.version@, line@),
    {
        let body = strip_leading(line, '\u{feff}');
        match read(body.as_str()) {
            Ok(req) => {
                let method = word(Some(&req), "method");
                let params = key(Some(&req), "params");
                let turn = self.turn(method, params);
                match get(&req, "id") {
                    Some(id) => Heard { id: copy_value(id), notification: false, turn },
                    None => Heard { id: null_value(), notification: true, turn },
                }
            },
            Err(e) => Heard {
                id: null_value(),
                notification: false,
                turn: Turn::Say(Outcome::Error(-32700, joint("parse error: ", e.as_str()))),
            },
        }
    }
}

/// What is said of a task that was run.
pub fn run_outcome(status: &TaskStatus, tool: bool) -> (r: Outcome)
    requires
        status.wf(),
    ensures
        r@ == if tool {
            Said::Result(tool_json(status_text(status@), status@.state is Failed))
        } else {
            Said::Result(status_json(status@))
        },
{
    if tool {
        let text = render_status(status);
        Outcome::Result(tool_value(text.as_str(), matches!(status.state, TaskState::Failed)))
    } else {
        Outcome::Result(status_value(status))
    }
}

/// The jobs, by their numbers and the nodes that they run.
pub open spec fn job_views(v: Seq<(u64, String)>) -> Seq<Json> {
    v.map_values(
        |j: (u64, String)|
            object(seq![("job"@, number(j.0 as int)), ("node"@, Json::Text(j.1@))]),
    )
}

/// What is said of the jobs that run.
pub fn jobs_outcome(jobs: &Vec<(u64, String)>) -> (r: Outcome)
    ensures
        r@ == Said::Result(object(seq![("jobs"@, Json::Array(job_views(jobs@)))])),
{
    let mut v: Vec<serde_json::Value> = Vec::new();
    let mut i: usize = 0;
    while i < jobs.len()
        invariant
            i <= jobs@.len(),
            v@.len() == i,
            forall|k: int| 0 <= k < i ==> held(#[trigger] v@[k]) == job_views(jobs@)[k],
        decreases jobs@.len() - i,
    {
        v.push(
            object2("job", whole_value(jobs[i].0), "node", text_value(jobs[i].1.as_str())),
        );
        i += 1;
    }
    assert(v@.map_values(|x: serde_json::Value| held(x)) =~= job_views(jobs@));
    Outcome::Result(object1("jobs", array_value(v)))
}

/// What is said of a job that was to be cancelled.
pub fn cancel_outcome(cancelled: bool) -> (r: Outcome)
    ensures
        r@ == Said::Result(object(seq![("cancelled"@, Json::Bool(cancelled))])),
{
    Outcome::Result(object1("cancelled", bool_value(cancelled)))
}

/// What is said of content that was to be fetched.
pub fn content_outcome(hash: &str, content: Option<&str>) -> (r: Outcome)
    ensures
        r@ == match content {
            Some(t) => Said::Result(object(seq![("text"@, Json::Text(t@))])),
            None => Said::Error(-32602, "no content for "@ + hash@),
        },
{
    match content {
        Some(t) => Outcome::Result(object1("text", text_value(t))),
        None => Outcome::Error(-32602, joint("no content for ", hash)),
    }
}

/// The answer to a line, where one is due.
pub fn answer(id: serde_json::Value, notification: bool, outcome: Outcome) -> (r: Option<
    serde_json::Value,
>)
    ensures
        match r {
            Some(v) => !notification && held(v) == reply_json(held(id), outcome@),
            None => notification,
        },
{
    if notification {
        return None;
    }
    Some(
        match outcome {
            Outcome::Result(v) => object3("jsonrpc", text_value("2.0"), "id", id, "result", v),
            Outcome::Error(code, message) => {
                let e = object2(
                    "code",
                    signed_value(code),
                    "message",
                    text_value(message.as_str()),
                );
                object3("jsonrpc", text_value("2.0"), "id", id, "error", e)
            },
        },
    )
}

/// A client can come back later and ask by task id: once a task has ended, a status request for it
/// is answered with how it ended, whatever other tasks there are.
pub proof fn law_a_finished_task_can_be_asked_for(
    tasks: Map<Seq<char>, StatusView>,
    version: Seq<char>,
    instruction: Seq<char>,
    ended: Ended,
    params: Json,
)
    ensures
        ({
            let id = word_at(Some(params), "task_id"@);
            let s = ended_status(id, instruction, ended);
            asks(tasks.insert(id, s), version, "flash/status"@, Some(params)) == Asks::Say(
                Said::Result(status_json(s)),
            )
        }),
{
    lemma_methods();
}

/// What is known of one task does not move when another begins or ends.
pub proof fn law_tasks_do_not_disturb_each_other(
    tasks: Map<Seq<char>, StatusView>,
    version: Seq<char>,
    other: Seq<char>,
    s: StatusView,
    params: Json,
)
    requires
        other != word_at(Some(params), "task_id"@),
    ensures
        asks(tasks.insert(other, s), version, "flash/status"@, Some(params)) == asks(
            tasks,
            version,
            "flash/status"@,
            Some(params),
        ),
{
    lemma_methods();
}

/// A task that failed is never answered as a success: the tool's answer is marked as an error
/// exactly where the run could not be made, or did not end well.
pub proof fn law_a_failure_is_marked_as_one(
    id: Seq<char>,
    instruction: Seq<char>,
    ended: Ended,
)
    ensures
        ended_status(id, instruction, ended).state is Failed <==> (ended is Refused
            || (ended matches Ended::Ran(s) && !s.green)),
        ended_status(id, instruction, ended).state !is Running,
{
}

/// The words of the methods differ.
proof fn lemma_methods()
    ensures
        "flash/status"@ != "initialize"@,
        "flash/status"@ != "notifications/initialized"@,
        "flash/status"@ != "initialized"@,
        "flash/status"@ != "tools/list"@,
        "flash/status"@ != "tools/call"@,
        "flash/status"@ != "flash/run"@,
{
    reveal_strlit("flash/status");
    reveal_strlit("initialize");
    reveal_strlit("notifications/initialized");
    reveal_strlit("initialized");
    reveal_strlit("tools/list");
    reveal_strlit("tools/call");
    reveal_strlit("flash/run");
    assert("flash/status"@[0] == 'f');
    assert("initialize"@[0] == 'i');
    assert("notifications/initialized"@[0] == 'n');
    assert("initialized"@[0] == 'i');
    assert("tools/list"@[0] == 't');
    assert("tools/call"@[0] == 't');
    assert("flash/status"@.len() != "flash/run"@.len());
}

} // verus!
