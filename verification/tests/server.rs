use flash::engine::eta::Eta;
use flash::engine::report::NodeReport;
use flash::engine::report::NodeStatus;
use flash::engine::report::RunReport;
use flash::identity::Attribution;
use flash::identity::Digest;
use flash::identity::NodeKey;
use flash::identity::NodeKind;
use flash::server::answer;
use flash::server::cancel_outcome;
use flash::server::content_outcome;
use flash::server::jobs_outcome;
use flash::server::run_outcome;
use flash::server::status::render_status;
use flash::server::status::TaskState;
use flash::server::status::TaskSummary;
use flash::server::Ended;
use flash::server::MCP_PROTOCOL_VERSION;
use flash::server::Outcome;
use flash::server::Server;
use flash::server::ServerConfig;
use flash::server::Turn;
use serde_json::Value;

fn server() -> Server {
    let mut s = Server::new(ServerConfig::new("/work"), "0.1.0");
    s.with_models();
    s
}

/// What a line is answered with, where it asks for nothing but an answer.
fn handle(server: &Server, line: &str) -> Option<Value> {
    let heard = server.hear(line);
    match heard.turn {
        Turn::Say(o) => answer(heard.id, heard.notification, o),
        _ => panic!("something is to be done first"),
    }
}

fn report(status: NodeStatus) -> RunReport {
    RunReport {
        task_id: "t".to_string(),
        wall_ms: 12,
        eta_at_start: Eta {
            known_ms: 0,
            unknown_nodes: 0,
        },
        first_change_ms: Some(3),
        nodes: vec![NodeReport {
            key: NodeKey::new("plan/verify:lib.rs@1"),
            kind: NodeKind::Verify,
            action: None,
            status,
            outputs: vec![Digest::of(b"42")],
            exec_ms: 0,
            queue_ms: 0,
            attribution: Attribution::default(),
            was_job: false,
            finished_at_ms: 9,
            diagnostics: vec!["careful".to_string()],
        }],
        attribution: Attribution::default(),
        saved_ms: 4,
    }
}

fn finished(server: &mut Server, id: &str, status: NodeStatus) -> flash::server::status::TaskStatus {
    server.begin(id, "make answer return 42");
    let summary = TaskSummary::from_report(&report(status), &vec!["lib.rs".to_string()]);
    server.finish(id, "make answer return 42", Ended::Ran(summary))
}

#[test]
fn mcp_initialize_advertises_tools() {
    let v = handle(
        &server(),
        r#"{"jsonrpc":"2.0","id":1,"method":"initialize","params":{}}"#,
    )
    .unwrap();
    assert_eq!(v["result"]["protocolVersion"], MCP_PROTOCOL_VERSION);
    assert!(v["result"]["capabilities"]["tools"].is_object());
    assert_eq!(v["result"]["serverInfo"]["name"], "flash");
    assert_eq!(v["jsonrpc"], "2.0");
    assert_eq!(v["id"], 1);
}

#[test]
fn tools_list_describes_what_a_client_can_call() {
    let v = handle(&server(), r#"{"jsonrpc":"2.0","id":2,"method":"tools/list"}"#).unwrap();
    let names: Vec<&str> = v["result"]["tools"]
        .as_array()
        .unwrap()
        .iter()
        .map(|t| t["name"].as_str().unwrap())
        .collect();
    assert!(names.contains(&"flash_run"), "{names:?}");
    assert!(names.contains(&"flash_status"), "{names:?}");
    let required = &v["result"]["tools"][0]["inputSchema"]["required"];
    assert_eq!(required[0], "instruction");
    assert_eq!(required[1], "files");
}

#[test]
fn a_task_runs_over_mcp_and_reports_its_result() {
    let mut server = server();
    let heard = server.hear(
        r#"{"jsonrpc":"2.0","id":3,"method":"tools/call","params":{"name":"flash_run","arguments":{"instruction":"make answer return 42","files":["lib.rs"],"task_id":"t1"}}}"#,
    );
    match &heard.turn {
        Turn::Run { order, tool } => {
            assert!(*tool);
            assert_eq!(order.id, "t1");
            assert_eq!(order.instruction, "make answer return 42");
            assert_eq!(order.files, vec!["lib.rs"]);
        }
        _ => panic!("a task is to be run"),
    }
    let status = finished(&mut server, "t1", NodeStatus::Computed);
    let v = answer(heard.id, heard.notification, run_outcome(&status, true)).unwrap();
    let text = v["result"]["content"][0]["text"].as_str().unwrap();
    assert!(text.contains("green"), "{text}");
    assert!(text.contains("lib.rs ->"), "{text}");
    assert_ne!(v["result"]["isError"], Value::Bool(true));
    assert_eq!(
        text,
        format!(
            "t1 [green] 12 ms, 1 computed, 0 hit, 4 ms saved\n  lib.rs -> {}\n  ! careful",
            Digest::of(b"42").short()
        )
    );
}

#[test]
fn a_client_can_come_back_later_and_ask_by_task_id() {
    let mut server = server();
    finished(&mut server, "t2", NodeStatus::Computed);

    // A brand new "connection" asking about a task it never started.
    let v = handle(
        &server,
        r#"{"jsonrpc":"2.0","id":4,"method":"flash/status","params":{"task_id":"t2"}}"#,
    )
    .unwrap();
    assert_eq!(v["result"]["state"], "done");
    assert!(v["result"]["summary"]["green"].as_bool().unwrap());
    assert_eq!(
        v["result"]["summary"]["outputs"]["lib.rs"],
        Digest::of(b"42").hex()
    );
    assert_eq!(v["result"]["summary"]["first_change_ms"], 3);
    assert_eq!(v["result"]["error"], Value::Null);
}

#[test]
fn the_result_content_can_be_fetched_by_hash() {
    let server = server();
    let hash = Digest::of(b"42").hex();
    let heard = server.hear(&format!(
        "{{\"jsonrpc\":\"2.0\",\"id\":5,\"method\":\"flash/content\",\"params\":{{\"hash\":\"{hash}\"}}}}"
    ));
    match heard.turn {
        Turn::Content { digest, .. } => assert_eq!(digest, Digest::of(b"42")),
        _ => panic!("content is to be fetched"),
    }
    let o = content_outcome(&hash, Some("42"));
    let v = answer(heard.id, heard.notification, o).unwrap();
    assert!(v["result"]["text"].as_str().unwrap().contains("42"));
    match content_outcome(&hash, None) {
        Outcome::Error(code, message) => {
            assert_eq!(code, -32602);
            assert_eq!(message, format!("no content for {hash}"));
        }
        _ => panic!("there is no content"),
    }
}

#[test]
fn an_unknown_method_is_a_json_rpc_error_not_a_crash() {
    let v = handle(&server(), r#"{"jsonrpc":"2.0","id":6,"method":"nope"}"#).unwrap();
    assert_eq!(v["error"]["code"], -32601);
    assert_eq!(v["error"]["message"], "unknown method nope");
}

#[test]
fn a_byte_order_mark_does_not_break_the_handshake() {
    let v = handle(
        &server(),
        "\u{feff}{\"jsonrpc\":\"2.0\",\"id\":1,\"method\":\"initialize\",\"params\":{}}",
    )
    .unwrap();
    assert_eq!(v["result"]["protocolVersion"], MCP_PROTOCOL_VERSION);
}

#[test]
fn malformed_json_gets_a_parse_error_response() {
    let v = handle(&server(), "{not json").unwrap();
    assert_eq!(v["error"]["code"], -32700);
    assert_eq!(v["id"], Value::Null);
    let message = v["error"]["message"].as_str().unwrap();
    let said = serde_json::from_str::<Value>("{not json").unwrap_err();
    assert_eq!(message, format!("parse error: {said}"));
}

#[test]
fn a_notification_gets_no_response() {
    assert!(handle(
        &server(),
        r#"{"jsonrpc":"2.0","method":"notifications/initialized"}"#
    )
    .is_none());
}

#[test]
fn running_without_a_model_configured_says_so_rather_than_failing_obscurely() {
    let mut server = Server::new(ServerConfig::new("work"), "0.1.0");
    assert_eq!(server.cfg.store_root, "work/.flash");
    let why = server.refusal().unwrap();
    server.begin("t", "do something");
    assert_eq!(server.status("t").unwrap().state, TaskState::Running);
    let status = server.finish("t", "do something", Ended::Refused(why));
    assert_eq!(status.state, TaskState::Failed);
    assert!(
        status
            .error
            .as_ref()
            .unwrap()
            .contains("no planner model configured"),
        "the error must name the missing piece"
    );
    assert!(render_status(&status).starts_with("t [failed]: no planner"));
    server.cfg.planner_cmd = Some(vec!["p".to_string()]);
    assert!(server.refusal().unwrap().contains("no executor model"));
    server.cfg.executor_cmd = Some(vec!["e".to_string()]);
    assert!(server.refusal().is_none());
}

#[test]
fn a_request_to_run_names_what_it_lacks() {
    let s = server();
    let message = |line: &str| handle(&s, line).unwrap()["error"]["message"].clone();
    assert_eq!(
        message(r#"{"id":1,"method":"flash/run","params":{"files":["a"]}}"#),
        "instruction is required"
    );
    assert_eq!(
        message(r#"{"id":1,"method":"flash/run","params":{"instruction":"x","files":[1]}}"#),
        "at least one file is required"
    );
    assert_eq!(
        message(r#"{"id":1,"method":"flash/status","params":{"task_id":"z"}}"#),
        "no task called z"
    );
    assert_eq!(
        message(r#"{"id":1,"method":"flash/content","params":{"hash":"zz"}}"#),
        "no content for zz"
    );
    assert_eq!(
        message(r#"{"id":1,"method":"tools/call","params":{"name":"dig"}}"#),
        "no tool called dig"
    );
    let heard = s.hear(r#"{"id":1,"method":"flash/run","params":{"instruction":"x","files":["a"]}}"#);
    match heard.turn {
        Turn::Run { order, tool } => {
            assert!(!tool);
            assert_eq!(order.id, format!("task-{}", Digest::of(b"x").short()));
        }
        _ => panic!("a task is to be run"),
    }
    let v = handle(
        &s,
        r#"{"id":1,"method":"tools/call","params":{"name":"flash_run","arguments":{}}}"#,
    )
    .unwrap();
    assert_eq!(v["result"]["isError"], true);
    let v = handle(
        &s,
        r#"{"id":1,"method":"tools/call","params":{"name":"flash_status","arguments":{"task_id":"z"}}}"#,
    )
    .unwrap();
    assert_eq!(v["result"]["content"][0]["text"], "no task called z");
    assert_eq!(v["result"]["content"][0]["type"], "text");
}

#[test]
fn a_red_task_is_an_error_over_mcp() {
    let mut s = server();
    let status = finished(&mut s, "r", NodeStatus::Failed);
    assert_eq!(status.state, TaskState::Failed);
    let v = answer(Value::Null, false, run_outcome(&status, true)).unwrap();
    assert_eq!(v["result"]["isError"], true);
    let text = v["result"]["content"][0]["text"].as_str().unwrap();
    assert!(text.starts_with("r [red]"), "{text}");
    let v = answer(Value::Null, false, run_outcome(&status, false)).unwrap();
    assert_eq!(v["result"]["state"], "failed");
}

#[test]
fn jobs_are_listed_and_cancelled() {
    let s = server();
    assert!(matches!(
        s.hear(r#"{"id":1,"method":"flash/jobs"}"#).turn,
        Turn::Jobs
    ));
    assert!(matches!(
        s.hear(r#"{"id":1,"method":"flash/cancel","params":{"job":7}}"#).turn,
        Turn::Cancel(7)
    ));
    assert!(matches!(
        s.hear(r#"{"id":1,"method":"flash/cancel","params":{"job":-7}}"#).turn,
        Turn::Cancel(0)
    ));
    let v = answer(
        Value::Null,
        false,
        jobs_outcome(&vec![(7, "render:pdf".to_string())]),
    )
    .unwrap();
    assert_eq!(v["result"]["jobs"][0]["job"], 7);
    assert_eq!(v["result"]["jobs"][0]["node"], "render:pdf");
    let v = answer(Value::Null, false, cancel_outcome(true)).unwrap();
    assert_eq!(v["result"]["cancelled"], true);
    let v = handle(&s, r#"{"id":1,"method":"shutdown"}"#).unwrap();
    assert_eq!(v["result"]["ok"], true);
}
