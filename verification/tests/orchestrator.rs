use flash::adapter::AdapterError;
use flash::adapter::Artifact;
use flash::adapter::Diagnostic;
use flash::adapter::MAX_DIAGNOSTICS;
use flash::adapter::RungOutcome;
use flash::code::CodeAdapter;
use flash::engine::eta::Eta;
use flash::engine::graph::NodeSpec;
use flash::engine::report::NodeReport;
use flash::engine::report::NodeStatus;
use flash::engine::report::RunReport;
use flash::identity::Attribution;
use flash::identity::Digest;
use flash::identity::Env;
use flash::identity::NodeKey;
use flash::identity::NodeKind;
use flash::maps::NameMap;
use flash::orchestrator::chain::build_chain;
use flash::orchestrator::chain::ChainConfig;
use flash::orchestrator::chain::EditRequest;
use flash::orchestrator::exec::after_rung;
use flash::orchestrator::exec::edit_applied;
use flash::orchestrator::exec::edit_refused;
use flash::orchestrator::exec::edit_request;
use flash::orchestrator::exec::edit_started;
use flash::orchestrator::exec::env_for;
use flash::orchestrator::exec::join_digest;
use flash::orchestrator::exec::next_attempt;
use flash::orchestrator::exec::read_plan;
use flash::orchestrator::exec::read_summary;
use flash::orchestrator::exec::summarise;
use flash::orchestrator::exec::verify_failed;
use flash::orchestrator::exec::AfterRung;
use flash::orchestrator::exec::EditTask;
use flash::orchestrator::exec::MetricsSnapshot;
use flash::orchestrator::exec::Refusal;
use flash::orchestrator::model::exit_error;
use flash::orchestrator::model::read_reply;
use flash::orchestrator::model::ModelError;
use flash::orchestrator::model::ModelRequest;
use flash::orchestrator::model::ModelResponse;
use flash::orchestrator::model::Replay;
use flash::orchestrator::model::ReplayModel;
use flash::orchestrator::model::ScriptedModel;
use flash::orchestrator::nodes::EditMode;
use flash::orchestrator::nodes::NodeOp;
use flash::orchestrator::normal_path;
use flash::orchestrator::prompts::edit_user;
use flash::orchestrator::prompts::plan_schema;
use flash::orchestrator::prompts::version;
use flash::orchestrator::prompts::EDIT_SYSTEM;
use flash::orchestrator::prompts::REPAIR_SYSTEM;
use flash::orchestrator::result_for;
use flash::orchestrator::task_graph;
use flash::orchestrator::task_id;
use flash::orchestrator::TaskError;

// ---- tasks ---------------------------------------------------------------------------------

fn file(path: &str, body: &str) -> (String, Digest) {
    (path.to_string(), Digest::of(body.as_bytes()))
}

#[test]
fn a_task_graph_has_one_source_per_file_and_one_planner() {
    let files = vec![file("a.rs", "fn a() {}\n"), file("b.rs", "fn b() {}\n")];
    let graph = task_graph("do something", &files).ok().unwrap();
    assert_eq!(graph.len(), 5, "two sources, two outlines, one plan");
    assert!(graph.get(&NodeKey::new("plan")).is_some());
    assert!(graph.get(&NodeKey::new("outline:a.rs")).is_some());
}

#[test]
fn a_task_with_no_files_is_refused() {
    assert!(matches!(
        task_graph("x", &Vec::new()),
        Err(TaskError::NoFiles)
    ));
}

#[test]
fn a_missing_file_is_reported_with_its_path() {
    let err = TaskError::Read {
        path: "nope.rs".to_string(),
        why: "not found".to_string(),
    };
    assert!(err.message().contains("nope.rs"), "{}", err.message());
}

#[test]
fn a_changed_file_moves_its_source_node_but_not_the_plan_op() {
    let op = |body: &str, key: &str| {
        let graph = task_graph("x", &vec![file("a.rs", body)]).ok().unwrap();
        graph.get(&NodeKey::new(key)).unwrap().op.clone()
    };
    let (before, after) = ("fn a() {}\n", "fn a() { 1 }\n");
    assert_ne!(
        op(before, "src:a.rs"),
        op(after, "src:a.rs"),
        "the source node carries the content hash, so it must move"
    );
    // The plan op names paths, not contents. Whether the planner re-runs is decided by the
    // outline node's *output*, which is where the body-versus-structure distinction lives.
    assert_eq!(op(before, "plan"), op(after, "plan"));
}

#[test]
fn a_body_edit_keeps_the_summary_and_a_new_entity_moves_it() {
    let summary = |body: &str| {
        let a = Artifact::new("lib.rs", body.as_bytes().to_vec());
        summarise("lib.rs", &CodeAdapter::new().outline(&a).unwrap())
    };
    let one = summary("fn answer() -> u32 {\n    41\n}\n");
    let two = summary("fn answer() -> u32 {\n    40\n}\n");
    let three = summary("fn answer() -> u32 {\n    40\n}\n\nfn extra() -> u32 {\n    1\n}\n");
    assert_eq!(one, two, "a body edit must not re-plan");
    assert_ne!(two, three, "a new entity must re-plan");
    assert_eq!(read_summary(&three).len(), 2);
}

#[test]
fn a_task_is_known_by_its_id_or_by_its_instruction() {
    assert_eq!(task_id(Some("mine"), "x"), "mine");
    assert_eq!(
        task_id(None, "x"),
        format!("task-{}", Digest::of(b"x").short())
    );
    assert_eq!(normal_path("src\\a\\b.rs"), "src/a/b.rs");
}

fn node(key: &str, outputs: Vec<Digest>, at: u64) -> NodeReport {
    NodeReport {
        key: NodeKey::new(key),
        kind: NodeKind::Op,
        action: None,
        status: NodeStatus::Computed,
        outputs,
        exec_ms: 0,
        queue_ms: 0,
        attribution: Attribution::default(),
        was_job: false,
        finished_at_ms: at,
        diagnostics: Vec::new(),
    }
}

#[test]
fn the_result_for_a_file_is_the_last_one_made() {
    let (x, y, z) = (Digest::of(b"x"), Digest::of(b"y"), Digest::of(b"z"));
    let report = RunReport {
        task_id: "t".to_string(),
        wall_ms: 9,
        eta_at_start: Eta {
            known_ms: 0,
            unknown_nodes: 0,
        },
        first_change_ms: None,
        nodes: vec![
            node("plan/verify:a.rs@1", vec![y], 7),
            node("plan/edit:a.rs#fn:a", vec![x], 3),
            node("plan/verify:b.rs@1", vec![z], 9),
            node("plan/pack:a.rs#fn:a", vec![z], 9),
            node("plan/edit:other/a.rs#fn:a", vec![z], 9),
        ],
        attribution: Attribution::default(),
        saved_ms: 0,
    };
    assert_eq!(result_for(&report, "a.rs"), Some(&y));
    assert_eq!(result_for(&report, "b.rs"), Some(&z));
    assert_eq!(result_for(&report, "c.rs"), None);
}

// ---- models --------------------------------------------------------------------------------

fn req(user: &str) -> ModelRequest {
    ModelRequest {
        model_id: "test-exec-1".into(),
        prompt_version: "p1".into(),
        system: "you emit ops".into(),
        user: user.into(),
        schema: Some(r#"{"type":"array"}"#.to_string()),
        max_output_tokens: 512,
    }
}

fn value(r: &ModelResponse) -> serde_json::Value {
    serde_json::from_str(r.json.as_ref().unwrap()).unwrap()
}

#[test]
fn scripted_matches_the_most_specific_rule_first() {
    let mut m = ScriptedModel::new()
        .on(
            "fn:parse",
            r#"[{"op":"replace_body","entity":"fn:parse","body":"1"}]"#,
        )
        .otherwise("[]");
    let r = m.answer(&req("edit fn:parse please")).ok().unwrap();
    assert_eq!(value(&r)[0]["entity"], "fn:parse");

    let fallback = m.answer(&req("something else")).ok().unwrap();
    assert_eq!(value(&fallback), serde_json::Value::Array(Vec::new()));
}

#[test]
fn an_unmatched_prompt_is_an_error_not_an_empty_answer() {
    let mut m = ScriptedModel::new().on("never", "[]");
    assert!(m.answer(&req("anything")).is_err());
}

#[test]
fn request_identity_covers_every_field_that_can_change_an_answer() {
    let base = req("x");
    let mut other = req("x");
    other.prompt_version = "p2".into();
    assert_ne!(base.digest(), other.digest());

    let mut model_changed = req("x");
    model_changed.model_id = "test-exec-2".into();
    assert_ne!(base.digest(), model_changed.digest());

    assert_eq!(base.digest(), req("x").digest(), "identity must be stable");

    let mut unshaped = req("x");
    unshaped.schema = None;
    assert_ne!(base.digest(), unshaped.digest());
    let mut spaced = req("x");
    spaced.schema = Some("{ \"type\" : \"array\" }".to_string());
    assert_eq!(base.digest(), spaced.digest(), "layout is no part of it");
}

#[test]
fn replay_serves_a_recorded_call_without_touching_the_inner_model() {
    let mut recorder = ReplayModel::recording(NameMap::empty());
    assert!(matches!(recorder.look_up(&req("hello")), Replay::Ask));
    let mut inner = ScriptedModel::new().otherwise(r#"{"answer": 1}"#);
    let first = inner.answer(&req("hello")).ok().unwrap();
    recorder.record(&req("hello"), &first);
    let told = recorder.written(&first, Ok(())).ok().unwrap();
    assert_eq!(value(&told)["answer"], 1);
    assert_eq!(recorder.len(), 1);
    assert_eq!(recorder.metrics.snapshot().0, 1);

    // A fresh replay-only client, no inner model at all.
    let mut replay = ReplayModel::replay_only(recorder.memory);
    match replay.look_up(&req("hello")) {
        Replay::Hit(again) => assert_eq!(value(&again)["answer"], 1),
        _ => panic!("the call was recorded"),
    }
}

#[test]
fn a_reply_whose_recording_could_not_be_written_is_not_counted() {
    let mut recorder = ReplayModel::recording(NameMap::empty());
    let mut inner = ScriptedModel::new().otherwise(r#"{"answer": 1}"#);
    let first = inner.answer(&req("hello")).ok().unwrap();
    recorder.record(&req("hello"), &first);
    assert_eq!(recorder.metrics.snapshot(), (0, 0, 0));
    match recorder.written(&first, Err("disk full".to_string())) {
        Err(e) => {
            assert_eq!(e.message(), "model call failed: could not write cassette: disk full")
        }
        Ok(_) => panic!("the write failed"),
    }
    assert_eq!(recorder.metrics.snapshot(), (0, 0, 0));
    assert_eq!(recorder.len(), 1, "the reply is remembered all the same");
}

#[test]
fn replay_only_refuses_an_unrecorded_call_rather_than_inventing_one() {
    let mut replay = ReplayModel::replay_only(NameMap::empty());
    assert!(matches!(
        replay.look_up(&req("never recorded")),
        Replay::Refused(ModelError::NoRecording)
    ));
}

#[test]
fn metrics_count_calls_and_tokens() {
    let mut m = ScriptedModel::new().otherwise(r#"{"ok": true}"#);
    m.answer(&req("a")).ok().unwrap();
    m.answer(&req("b")).ok().unwrap();
    let (calls, _, out) = m.metrics.snapshot();
    assert_eq!(calls, 2);
    assert!(out > 0);
    assert_eq!(m.prompts().len(), 2);
}

#[test]
fn a_reply_on_stdout_is_read_as_json() {
    let r = read_reply("{\"a\": 1}\n").ok().unwrap();
    assert_eq!(value(&r)["a"], 1);
    assert!(read_reply("not json").is_err());
    let e = exit_error("prog", "exit status: 3", "boom");
    assert!(e.message().contains("boom"), "{}", e.message());
}

// ---- nodes ---------------------------------------------------------------------------------

fn cfg() -> ChainConfig {
    ChainConfig {
        env: Env::new("exec-1", "p1", "code-v1"),
        levels: vec![0, 1],
        budget_chars: 4000,
    }
}

fn edit(path: &str, target: &str, instruction: &str) -> EditRequest {
    EditRequest {
        path: path.into(),
        target: target.into(),
        instruction: instruction.into(),
    }
}

#[test]
fn node_ops_round_trip() {
    let op = NodeOp::Edit {
        path: "src/lib.rs".into(),
        target: "fn:parse".into(),
        instruction: "make it faster".into(),
        mode: EditMode::Ops,
        attempt: 1,
        diagnostics: vec!["E0308".into()],
    };
    match NodeOp::decode(&op.encode()).unwrap() {
        NodeOp::Edit {
            path,
            target,
            instruction,
            mode,
            attempt,
            diagnostics,
        } => {
            assert_eq!(path, "src/lib.rs");
            assert_eq!(target, "fn:parse");
            assert_eq!(instruction, "make it faster");
            assert_eq!(mode, EditMode::Ops);
            assert_eq!(attempt, 1);
            assert_eq!(diagnostics, vec!["E0308"]);
        }
        _ => panic!("an edit is read back as an edit"),
    }
    assert!(NodeOp::decode(b"{\"node\":\"nothing\"}").is_none());
    assert!(NodeOp::decode(b"\xff").is_none());
}

#[test]
fn a_repair_is_a_different_action_than_the_edit_it_repairs() {
    let attempt = |attempt: u32, diagnostics: Vec<String>| {
        NodeOp::Edit {
            path: "a.rs".into(),
            target: "fn:x".into(),
            instruction: "do it".into(),
            mode: EditMode::Ops,
            attempt,
            diagnostics,
        }
        .encode()
    };
    assert_ne!(
        attempt(0, vec![]),
        attempt(1, vec!["E0308: mismatched types".into()])
    );
}

#[test]
fn one_edit_produces_pack_then_edit_then_the_rungs() {
    let chain = build_chain(
        &vec![edit("src/lib.rs", "fn:parse", "handle empty input")],
        &cfg(),
    );
    assert_eq!(chain.nodes.len(), 4, "pack + edit + two rungs");
    assert!(chain.nodes[0].key.as_str().starts_with("pack:"));
    assert!(chain.nodes[1].key.as_str().starts_with("edit:"));
    assert!(chain.tail.starts_with("verify:"));
}

#[test]
fn the_edit_node_takes_the_artifact_first_and_the_pack_second() {
    // The executor reads inputs positionally, so this order is a contract, not a detail.
    let chain = build_chain(&vec![edit("src/lib.rs", "fn:parse", "x")], &cfg());
    let edit = &chain.nodes[1];
    assert_eq!(edit.deps[0].as_str(), "src:src/lib.rs");
    assert!(edit.deps[1].as_str().starts_with("pack:"));
}

#[test]
fn two_edits_to_one_file_are_sequenced_not_raced() {
    let chain = build_chain(
        &vec![edit("a.rs", "fn:one", "x"), edit("a.rs", "fn:two", "y")],
        &cfg(),
    );
    // The second pack must hang off the first edit's verified tail, not off the raw source:
    // two concurrent edits to one file would each materialize against stale bytes.
    let second_pack = chain
        .nodes
        .iter()
        .filter(|n| n.key.as_str().starts_with("pack:"))
        .nth(1)
        .unwrap();
    assert_ne!(second_pack.deps[0].as_str(), "src:a.rs");
}

#[test]
fn edits_to_different_files_stay_independent_and_get_a_join() {
    let chain = build_chain(
        &vec![edit("a.rs", "fn:one", "x"), edit("b.rs", "fn:two", "y")],
        &cfg(),
    );
    assert_eq!(chain.tail, "join");
    let join = chain.nodes.last().unwrap();
    assert_eq!(join.deps.len(), 2, "the join waits on both files");
    let b_pack = chain
        .nodes
        .iter()
        .find(|n| n.key.as_str().contains("b.rs") && n.key.as_str().starts_with("pack:"))
        .unwrap();
    assert_eq!(
        b_pack.deps[0].as_str(),
        "src:b.rs",
        "a second file must not wait on the first"
    );
}

// ---- prompts -------------------------------------------------------------------------------

#[test]
fn versions_are_derived_from_the_text_not_declared() {
    let a = version(EDIT_SYSTEM);
    let b = version(EDIT_SYSTEM);
    assert_eq!(a, b, "the same template must hash the same every time");
    assert_ne!(
        version(EDIT_SYSTEM),
        version(REPAIR_SYSTEM),
        "different templates must be different versions"
    );
    assert_ne!(
        version(EDIT_SYSTEM),
        version(&format!("{EDIT_SYSTEM} ")),
        "a one character change must bump the version"
    );
}

#[test]
fn an_edit_prompt_carries_instruction_diagnostics_and_context_in_that_order() {
    let u = edit_user(
        "add bounds checking",
        "## target\nfn x() {}",
        &vec!["E0308".into()],
    );
    let i = u.find("# instruction").unwrap();
    let d = u.find("# diagnostics").unwrap();
    let c = u.find("# context").unwrap();
    assert!(i < d && d < c, "{u}");
}

#[test]
fn a_first_attempt_has_no_diagnostics_section() {
    let u = edit_user("do a thing", "ctx", &vec![]);
    assert!(!u.contains("# diagnostics"));
}

#[test]
fn diagnostics_are_capped_in_the_prompt_too() {
    let many: Vec<String> = (0..50).map(|i| format!("diag {i}")).collect();
    let u = edit_user("x", "ctx", &many);
    assert_eq!(u.matches("- diag").count(), MAX_DIAGNOSTICS);
}

#[test]
fn the_plan_schema_forbids_free_form_fields() {
    let s: serde_json::Value = serde_json::from_str(plan_schema()).unwrap();
    assert_eq!(
        s["properties"]["edits"]["items"]["additionalProperties"],
        false
    );
}

// ---- the decisions of a run ----------------------------------------------------------------

fn spec() -> NodeSpec {
    NodeSpec::new("edit:a.rs#fn:a", NodeKind::Op)
        .dep("src:a.rs")
        .dep("pack:a.rs#fn:a")
}

const TASK: EditTask<'static> = EditTask {
    path: "a.rs",
    target: "fn:a",
    instruction: "do it",
};

#[test]
fn a_refused_edit_is_tried_again_then_by_diff_and_then_given_up() {
    assert_eq!(next_attempt(0, 3), Some(EditMode::Ops));
    assert_eq!(next_attempt(1, 3), Some(EditMode::Diff));
    assert_eq!(next_attempt(2, 3), None);
    assert_eq!(next_attempt(u32::MAX, 3), None);

    let mut m = MetricsSnapshot::default();
    edit_started(&mut m);
    let err = AdapterError::BadOp("no such thing".to_string());
    let first = edit_refused(&mut m, &spec(), &TASK, 0, 3, Refusal::Rejected(&err));
    let again = first.expansion.expect("the edit is tried again");
    assert_eq!(again.nodes.len(), 1);
    match NodeOp::decode(&again.nodes[0].op).unwrap() {
        NodeOp::Edit {
            attempt,
            mode,
            diagnostics,
            ..
        } => {
            assert_eq!(attempt, 1);
            assert_eq!(mode, EditMode::Ops);
            assert!(diagnostics[0].contains("no such thing"), "{diagnostics:?}");
        }
        _ => panic!("a retry is an edit"),
    }
    assert_eq!(again.nodes[0].deps, spec().deps);
    let last = edit_refused(&mut m, &spec(), &TASK, 2, 3, Refusal::NotOps);
    assert!(last.expansion.is_none());
    assert!(!last.output.verdict.passed());
    assert_eq!(
        (m.edits_attempted, m.ops_rejected, m.repairs, m.gave_up),
        (1, 2, 1, 1)
    );
    edit_applied(&mut m);
    assert_eq!(m.ops_applied, 1);
}

#[test]
fn a_failed_rung_is_fixed_and_checked_again() {
    let mut m = MetricsSnapshot::default();
    let r = verify_failed(
        &mut m,
        &spec(),
        &TASK,
        1,
        0,
        3,
        vec!["dangling".to_string()],
    );
    let e = r.expansion.expect("a fix and a recheck");
    assert_eq!(e.nodes.len(), 2);
    assert_eq!(e.nodes[0].kind, NodeKind::Op);
    assert_eq!(e.nodes[1].kind, NodeKind::Verify);
    assert_eq!(e.substitute.as_str(), e.nodes[1].key.as_str());
    assert_eq!(e.nodes[1].deps[0].as_str(), e.nodes[0].key.as_str());
}

#[test]
fn an_outcome_is_counted_and_an_unavailable_rung_is_no_failure() {
    let mut m = MetricsSnapshot::default();
    assert!(matches!(
        after_rung(&RungOutcome::pass(), &mut m),
        AfterRung::Passed
    ));
    assert!(matches!(
        after_rung(&RungOutcome::unavailable("no cargo"), &mut m),
        AfterRung::Unavailable(_)
    ));
    let failed = RungOutcome::fail(vec![Diagnostic::new("E1", "bad")]);
    match after_rung(&failed, &mut m) {
        AfterRung::Failed(d) => assert!(d[0].contains("bad"), "{d:?}"),
        _ => panic!("a failure is a failure"),
    }
    assert_eq!(
        (m.rungs_run, m.rungs_failed, m.rungs_unavailable),
        (3, 1, 1)
    );
}

#[test]
fn a_plan_is_read_whole_or_not_at_all() {
    let good = r#"{"edits":[{"path":"a.rs","target":"fn:a","instruction":"x"}]}"#;
    let plan = read_plan(&Some(good.to_string())).ok().unwrap();
    assert_eq!(plan.len(), 1);
    assert_eq!(plan[0].target, "fn:a");
    let why = |t: Option<&str>| read_plan(&t.map(|s| s.to_string())).err().unwrap();
    assert_eq!(why(Some(r#"{"edits":[]}"#)), "planner returned no edits");
    for bad in [None, Some("nonsense"), Some(r#"{"edits":[{"path":"a.rs"}]}"#)] {
        assert_eq!(why(bad), "planner did not return a valid edit list");
    }
}

#[test]
fn a_request_carries_the_prompt_and_its_version() {
    let r = edit_request(
        "executor",
        EditMode::Ops,
        0,
        "do it",
        "ctx",
        &vec![],
        r#"{"type":"array"}"#,
    );
    assert_eq!(r.system, EDIT_SYSTEM);
    assert_eq!(r.prompt_version, version(EDIT_SYSTEM));
    assert_eq!(r.user, edit_user("do it", "ctx", &vec![]));
    let env = env_for(EDIT_SYSTEM, "code-v1", "executor");
    assert_eq!(env.prompt_version, version(EDIT_SYSTEM));
}

#[test]
fn a_join_depends_on_every_file_and_their_order() {
    let (x, y) = (Digest::of(b"x"), Digest::of(b"y"));
    assert_ne!(join_digest(&vec![x, y]), join_digest(&vec![y, x]));
    assert_ne!(join_digest(&vec![x]), join_digest(&vec![x, y]));
}
