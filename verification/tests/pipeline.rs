//! Whole tasks, with scripted models and a store that is kept in memory.

use flash::adapter::Adapter;
use flash::adapter::Artifact;
use flash::adapter::Field;
use flash::adapter::Outline;
use flash::adapter::PackRequest;
use flash::adapter::VerifyCtx;
use flash::code::ladder::Step;
use flash::code::CodeAdapter;
use flash::engine::eta::Eta;
use flash::engine::exec::Expansion;
use flash::engine::exec::NodeResult;
use flash::engine::report::NodeStatus;
use flash::engine::report::RunReport;
use flash::engine::scheduler::EngineConfig;
use flash::engine::scheduler::RunState;
use flash::identity::Attribution;
use flash::identity::Digest;
use flash::orchestrator::exec::MetricsSnapshot;
use flash::orchestrator::exec::RuntimeConfig;
use flash::orchestrator::model::ScriptedModel;
use flash::orchestrator::nodes::NodeOp;
use flash::orchestrator::result_for;
use flash::orchestrator::task_graph;
use flash::orchestrator::work::advance;
use flash::orchestrator::work::begin;
use flash::orchestrator::work::Act;
use flash::orchestrator::work::Node;
use flash::orchestrator::work::Told;
use std::collections::BTreeMap;

const FILE: &str = "fn answer() -> u32 {\n    41\n}\n";

const PLAN: &str =
    r#"{"edits":[{"path":"lib.rs","target":"fn:answer","instruction":"return 42"}]}"#;

const REPLACE: &str = r#"[{"op":"replace_body","entity":"fn:answer","body":"42"}]"#;

struct Memo {
    outputs: Vec<Digest>,
    expansion: Option<Expansion>,
}

#[derive(Default)]
struct Disk {
    content: BTreeMap<String, Vec<u8>>,
    memo: BTreeMap<String, Memo>,
}

impl Disk {
    fn put(&mut self, bytes: &[u8]) -> Digest {
        let d = Digest::of(bytes);
        self.content.insert(d.hex(), bytes.to_vec());
        d
    }

    fn get(&self, d: &Digest) -> Option<Vec<u8>> {
        self.content.get(&d.hex()).cloned()
    }

    fn text(&self, d: &Digest) -> String {
        String::from_utf8(self.get(d).unwrap()).unwrap()
    }
}

fn copy(e: &Expansion) -> Expansion {
    Expansion::new(e.nodes.clone(), e.substitute.as_str())
}

struct Runtime {
    planner: ScriptedModel,
    executor: ScriptedModel,
    cfg: RuntimeConfig,
    metrics: MetricsSnapshot,
}

fn runtime(executor: ScriptedModel) -> Runtime {
    Runtime {
        planner: ScriptedModel::new().otherwise(PLAN),
        executor,
        cfg: RuntimeConfig::default(),
        metrics: MetricsSnapshot::default(),
    }
}

fn path_of(op: &NodeOp) -> String {
    match op {
        NodeOp::Source { path, .. }
        | NodeOp::Outline { path }
        | NodeOp::Pack { path, .. }
        | NodeOp::Edit { path, .. }
        | NodeOp::Verify { path, .. } => path.clone(),
        NodeOp::Plan { .. } => String::new(),
    }
}

/// Drives one node to its end.
fn execute(
    disk: &mut Disk,
    rt: &mut Runtime,
    spec: &flash::engine::graph::NodeSpec,
    inputs: &Vec<Digest>,
) -> NodeResult {
    let op = NodeOp::decode(&spec.op).expect("a node op");
    let path = path_of(&op);
    let adapter = CodeAdapter::new();
    let handled = adapter.handles(&path);
    let mut metrics = rt.metrics;
    let node = Node { op: &op, spec, inputs, cfg: &rt.cfg, adapter_version: adapter.version() };
    let mut file: Option<Artifact> = None;
    let mut outline: Option<Outline> = None;
    let (mut stage, mut act) = begin(&node, &mut metrics);
    let result = loop {
        let told = match act {
            Act::Done(r) => break r,
            Act::Look(d) => Told::Present(disk.content.contains_key(&d.hex())),
            Act::Load(d) => match disk.get(&d) {
                Some(b) => {
                    file = Some(Artifact::new(&path, b));
                    Told::Loaded(Ok(()))
                }
                None => Told::Loaded(Err("no such content".to_string())),
            },
            Act::Read(d) => Told::Content(disk.get(&d)),
            Act::Outline => {
                if handled {
                    let o = adapter.outline(file.as_ref().unwrap());
                    if let Ok(o) = &o {
                        outline = Some(Outline {
                            path: o.path.clone(),
                            entities: o.entities.iter().map(|e| e.copy()).collect(),
                        });
                    }
                    Told::Outlined(o)
                } else {
                    Told::NoAdapter
                }
            }
            Act::Pack { budget } => {
                let target = match &op {
                    NodeOp::Pack { target, .. } => target.clone(),
                    _ => unreachable!(),
                };
                Told::Packed(adapter.pack(&PackRequest {
                    artifact: file.as_ref().unwrap(),
                    outline: outline.as_ref().unwrap(),
                    target: &target,
                    budget_chars: budget,
                }))
            }
            Act::Schema => {
                if handled {
                    Told::Schema(adapter.op_schema().to_string())
                } else {
                    Told::NoAdapter
                }
            }
            Act::Ask { planner, request } => {
                let model = if planner { &mut rt.planner } else { &mut rt.executor };
                Told::Replied { reply: model.answer(&request), ms: 0 }
            }
            Act::Apply(ops) => Told::Applied {
                applied: adapter.apply(file.as_ref().unwrap(), &ops).map(|a| a.artifact.bytes),
                ms: 0,
            },
            Act::Check { level, before } => {
                let artifact = file.as_ref().unwrap();
                let now = outline.as_ref().unwrap();
                let before = before.and_then(|d| disk.get(&d)).map(|b| Artifact::new(&path, b));
                let (delta, impact) = adapter.since(before.as_ref(), artifact, now);
                let ctx = VerifyCtx {
                    artifact,
                    outline: now,
                    delta: &delta,
                    impact: &impact,
                    workspace: rt.cfg.workspace.as_deref(),
                };
                match adapter.rung_at(level) {
                    None => Told::NoRung,
                    Some(rung) => match rung.step(&ctx, &vec![]) {
                        Step::Done(outcome) => Told::Checked { outcome, ms: 0 },
                        Step::Run(_) => panic!("no tool runs here"),
                    },
                }
            }
            Act::Store(bytes) => Told::Stored { stored: Ok(disk.put(&bytes)), ms: 0 },
        };
        let next = advance(&node, stage, told, &mut metrics);
        stage = next.0;
        act = next.1;
    };
    rt.metrics = metrics;
    result
}

fn run(disk: &mut Disk, rt: &mut Runtime, body: &str) -> RunReport {
    let d = disk.put(body.as_bytes());
    let graph = task_graph("make answer return 42", &vec![("lib.rs".to_string(), d)])
        .unwrap_or_else(|e| panic!("{}", e.message()));
    let plan = graph.validate().unwrap_or_else(|e| panic!("{}", e.message()));
    let depth = EngineConfig::for_cpus(1).max_expansion_depth;
    let mut st = RunState::new(graph, plan, depth);
    while let Some(next) = st.next_dispatch() {
        let at = next.action.0.hex();
        let done = match disk.memo.get(&at) {
            Some(m) => st.hit(
                &next.spec,
                next.action,
                m.outputs.clone(),
                0,
                m.expansion.as_ref().map(copy),
                0,
            ),
            None => {
                st.start(&next.spec.key);
                let r = execute(disk, rt, &next.spec, &next.inputs);
                if r.output.verdict.passed() {
                    disk.memo.insert(
                        at,
                        Memo {
                            outputs: r.output.outputs.clone(),
                            expansion: r.expansion.as_ref().map(copy),
                        },
                    );
                }
                st.complete(&next.spec, next.action, r.output, r.expansion, 0, 0, false, 0)
            }
        };
        if let Err(e) = done {
            panic!("{}", e.message());
        }
    }
    st.skip_leftovers(0);
    st.into_report("t", 0, Eta { known_ms: 0, unknown_nodes: 0 })
}

#[test]
fn a_rejected_op_is_retried_with_the_diagnostics_and_then_succeeds() {
    let mut disk = Disk::default();
    let mut rt = runtime(
        ScriptedModel::new()
            .on("# diagnostics", REPLACE)
            .otherwise(r#"[{"op":"replace_body","entity":"fn:does_not_exist","body":"42"}]"#),
    );
    let report = run(&mut disk, &mut rt, FILE);
    assert!(report.ok(), "the task should recover through a repair");
    let digest = result_for(&report, "lib.rs").expect("a result");
    let text = disk.text(digest);
    assert!(text.contains("42"), "{text}");
    let m = rt.metrics;
    assert_eq!(m.ops_rejected, 1, "the first attempt must be counted as a rejection");
    assert_eq!(m.ops_applied, 1);
    assert_eq!(m.repairs, 1);
    assert_eq!(m.diff_fallbacks, 0, "ops recovered, so no fallback was needed");
}

#[test]
fn ops_failing_twice_falls_back_to_a_unified_diff() {
    let mut disk = Disk::default();
    let mut rt = runtime(
        ScriptedModel::new()
            .on(
                "emit one unified diff",
                r#"[{"op":"unified_diff","diff":"@@ -1,3 +1,3 @@\n fn answer() -> u32 {\n-    41\n+    42\n }\n"}]"#,
            )
            .otherwise(r#"[{"op":"replace_body","entity":"fn:nope","body":"42"}]"#),
    );
    let report = run(&mut disk, &mut rt, FILE);
    assert!(report.ok(), "the diff fallback should carry the edit");
    let text = disk.text(result_for(&report, "lib.rs").expect("a result"));
    assert!(text.contains("42"), "{text}");
    let m = rt.metrics;
    assert_eq!(m.diff_fallbacks, 1, "the fallback must be counted: {m:?}");
    assert_eq!(m.ops_rejected, 2, "ops were tried twice before the diff");
}

#[test]
fn a_model_that_never_gets_it_right_fails_the_task_rather_than_looping() {
    let never = || {
        ScriptedModel::new().otherwise(r#"[{"op":"replace_body","entity":"fn:nope","body":"x"}]"#)
    };
    let mut disk = Disk::default();
    let mut rt = runtime(never());
    let report = run(&mut disk, &mut rt, FILE);
    assert!(!report.ok(), "an unfixable edit must fail the task");
    let m = rt.metrics;
    assert_eq!(m.gave_up, 1, "it must stop, not keep paying for attempts");
    assert!(m.edits_attempted <= 3, "ops, ops, diff: {m:?}");
    let mut rt2 = runtime(never());
    let again = run(&mut disk, &mut rt2, FILE);
    assert!(!again.ok());
    assert!(
        rt2.metrics.edits_attempted > 0,
        "a failed edit must not be served from the cache"
    );
}

#[test]
fn a_repair_is_cached_so_the_second_run_of_a_repaired_task_is_hot() {
    let make = || {
        ScriptedModel::new()
            .on("# diagnostics", REPLACE)
            .otherwise(r#"[{"op":"replace_body","entity":"fn:missing","body":"42"}]"#)
    };
    let mut disk = Disk::default();
    let mut first = runtime(make());
    let r1 = run(&mut disk, &mut first, FILE);
    assert!(r1.ok());
    assert_eq!(first.metrics.repairs, 1);
    let mut second = runtime(make());
    let r2 = run(&mut disk, &mut second, FILE);
    assert!(r2.ok());
    assert_eq!(
        second.metrics.edits_attempted, 0,
        "the repaired path must replay from the cache, including the repair itself"
    );
    assert!(r2.is_hot(), "a repaired task reruns hot: {:?}", r2.nodes.len());
}

#[test]
fn a_lint_failure_produces_a_fix_and_a_recheck() {
    let mut disk = Disk::default();
    let mut rt = runtime(
        ScriptedModel::new()
            .on(
                "dangling-reference",
                r#"[{"op":"insert_after","entity":"fn:describe","code":"fn answer() -> u32 {\n    42\n}"}]"#,
            )
            .otherwise(r#"[{"op":"delete","entity":"fn:answer"}]"#),
    );
    let report = run(
        &mut disk,
        &mut rt,
        "fn answer() -> u32 {\n    41\n}\n\nfn describe() -> String {\n    format!(\"{}\", answer())\n}\n",
    );
    let m = rt.metrics;
    assert!(m.rungs_failed >= 1, "rung 1 should have caught the dangling reference: {m:?}");
    assert!(m.repairs >= 1, "the failed rung should have produced a repair: {m:?}");
    assert!(report.ok(), "the recheck should pass after the repair");
    let text = disk.text(result_for(&report, "lib.rs").expect("a result"));
    assert!(text.contains("fn answer()"), "the repair should have restored the function: {text}");
    assert!(text.contains("42"), "{text}");
}

#[test]
fn a_body_edit_does_not_re_plan_but_a_new_entity_does() {
    let make = || runtime(ScriptedModel::new().otherwise(REPLACE));
    let mut disk = Disk::default();
    run(&mut disk, &mut make(), FILE);
    let warm = run(&mut disk, &mut make(), "fn answer() -> u32 {\n    40\n}\n");
    assert_eq!(
        warm.node("plan").unwrap().status,
        NodeStatus::Hit,
        "a body edit must not re-plan"
    );
    let structural = run(
        &mut disk,
        &mut make(),
        "fn answer() -> u32 {\n    40\n}\n\nfn extra() -> u32 {\n    1\n}\n",
    );
    assert_eq!(
        structural.node("plan").unwrap().status,
        NodeStatus::Expanded,
        "a new entity must re-plan"
    );
}

#[test]
fn a_scripted_task_edits_a_real_file_through_the_whole_pipeline() {
    let mut disk = Disk::default();
    let mut rt = runtime(ScriptedModel::new().otherwise(REPLACE));
    let report = run(&mut disk, &mut rt, FILE);
    assert!(report.ok());
    let text = disk.text(result_for(&report, "lib.rs").expect("a result for the edited file"));
    assert!(text.contains("42"), "{text}");
    assert!(text.contains("fn answer() -> u32"), "signature kept: {text}");
    assert_eq!(rt.metrics.ops_applied, 1);
    assert_eq!(rt.metrics.ops_rejected, 0);
}

#[test]
fn rerunning_an_unchanged_task_calls_no_model_at_all() {
    let make = || runtime(ScriptedModel::new().otherwise(REPLACE));
    let mut disk = Disk::default();
    let mut first = make();
    let r1 = run(&mut disk, &mut first, FILE);
    assert!(r1.ok());
    assert!(first.metrics.edits_attempted > 0);
    let mut second = make();
    let r2 = run(&mut disk, &mut second, FILE);
    assert!(r2.is_hot(), "an unchanged task must be hot");
    assert_eq!(
        second.metrics.edits_attempted, 0,
        "a hot task must not call the executor model"
    );
    assert!(second.planner.prompts().is_empty() && second.executor.prompts().is_empty());
}

fn alone(op: NodeOp, inputs: Vec<Digest>, told: Vec<Told>) -> (MetricsSnapshot, NodeResult) {
    let spec = flash::engine::graph::NodeSpec::new("n", op.kind());
    let cfg = RuntimeConfig::default();
    let node = Node { op: &op, spec: &spec, inputs: &inputs, cfg: &cfg, adapter_version: "v" };
    let mut m = MetricsSnapshot::default();
    let (mut stage, mut act) = begin(&node, &mut m);
    for t in told {
        let next = advance(&node, stage, t, &mut m);
        stage = next.0;
        act = next.1;
    }
    match act {
        Act::Done(r) => (m, r),
        _ => panic!("the node is not done"),
    }
}

#[test]
fn a_node_without_its_file_fails() {
    let op = NodeOp::Outline { path: "a.rs".to_string() };
    let (_, r) = alone(op, vec![], vec![]);
    assert_eq!(r.output.diagnostics, vec!["outline node has no artifact input"]);
    let d = Digest::of(b"x");
    let op = NodeOp::Outline { path: "a.rs".to_string() };
    let (_, r) = alone(op, vec![d], vec![Told::Loaded(Err("gone".to_string()))]);
    assert_eq!(
        r.output.diagnostics,
        vec![format!("content {} is missing: gone", d.hex())]
    );
    let op = NodeOp::Outline { path: "a.bin".to_string() };
    let (_, r) = alone(op, vec![d], vec![Told::Loaded(Ok(())), Told::NoAdapter]);
    assert_eq!(r.output.diagnostics, vec!["no adapter handles a.bin"]);
}

#[test]
fn a_join_puts_out_what_it_waited_for() {
    let op = |b: usize| NodeOp::Pack {
        path: "<join>".to_string(),
        target: "<all>".to_string(),
        budget_chars: b,
    };
    let (a, b) = (Digest::of(b"a"), Digest::of(b"b"));
    let (_, x) = alone(op(0), vec![a, b], vec![]);
    let (_, y) = alone(op(0), vec![b, a], vec![]);
    assert!(x.output.verdict.passed());
    assert_eq!(x.output.outputs.len(), 1);
    assert_ne!(x.output.outputs[0].hex(), y.output.outputs[0].hex(), "the order counts");
}

#[test]
fn a_source_that_is_not_there_fails() {
    let d = Digest::of(b"x");
    let op = || NodeOp::Source { path: "a.rs".to_string(), content: d };
    let (_, r) = alone(op(), vec![], vec![Told::Present(false)]);
    assert_eq!(
        r.output.diagnostics,
        vec![format!("source content {} is not in the store", d.hex())]
    );
    let (_, r) = alone(op(), vec![], vec![Told::Present(true)]);
    assert_eq!(r.output.outputs[0].hex(), d.hex());
}

#[test]
fn a_rung_that_could_not_run_is_not_a_pass() {
    let d = Digest::of(b"x");
    let op = || NodeOp::Verify {
        path: "a.rs".to_string(),
        level: 2,
        attempt: 0,
        target: "fn:a".to_string(),
        instruction: "go".to_string(),
    };
    let outline = || Outline { path: "a.rs".to_string(), entities: vec![] };
    let to = |outcome: flash::adapter::RungOutcome| {
        vec![
            Told::Loaded(Ok(())),
            Told::Outlined(Ok(outline())),
            Told::Checked { outcome, ms: 7 },
        ]
    };
    let (m, r) = alone(op(), vec![d], to(flash::adapter::RungOutcome::unavailable("no cargo")));
    assert!(!r.output.verdict.passed());
    assert!(r.expansion.is_none() && r.output.outputs.is_empty());
    assert_eq!((m.rungs_run, m.rungs_unavailable, m.rungs_failed), (1, 1, 0));
    let (m, r) = alone(op(), vec![d], to(flash::adapter::RungOutcome::pass()));
    assert_eq!(r.output.outputs[0].hex(), d.hex());
    assert_eq!(r.output.attribution.verify_ms, 7);
    assert_eq!((m.rungs_run, m.rungs_unavailable, m.rungs_failed), (1, 0, 0));
    let (_, r) = alone(
        op(),
        vec![d],
        vec![Told::Loaded(Ok(())), Told::Outlined(Ok(outline())), Told::NoRung],
    );
    assert_eq!(r.output.diagnostics, vec!["no rung at level 2"]);
}

#[test]
fn a_model_that_fails_fails_its_node() {
    let d = Digest::of(b"x");
    let edit = NodeOp::Edit {
        path: "a.rs".to_string(),
        target: "fn:a".to_string(),
        instruction: "go".to_string(),
        mode: flash::orchestrator::nodes::EditMode::Ops,
        attempt: 0,
        diagnostics: vec![],
    };
    let no = || Told::Replied {
        reply: Err(flash::orchestrator::model::ModelError::NoRecording),
        ms: 1,
    };
    let (m, r) = alone(
        edit,
        vec![d],
        vec![Told::Loaded(Ok(())), Told::Schema("{}".to_string()), no()],
    );
    assert_eq!(
        r.output.diagnostics,
        vec!["executor model failed: no recorded response for this request; run with recording enabled first"]
    );
    assert_eq!((m.edits_attempted, m.ops_rejected), (1, 0));
    let plan = NodeOp::Plan { instruction: "go".to_string(), paths: vec![] };
    let (_, r) = alone(plan, vec![], vec![no()]);
    assert_eq!(
        r.output.diagnostics,
        vec!["planner model failed: no recorded response for this request; run with recording enabled first"]
    );
}

#[test]
fn a_plan_is_stored_as_its_list_of_edits() {
    let edits = vec![
        flash::orchestrator::chain::EditRequest {
            path: "a.rs".to_string(),
            target: "fn:a".to_string(),
            instruction: "say \"hi\"".to_string(),
        },
        flash::orchestrator::chain::EditRequest {
            path: "b.rs".to_string(),
            target: "fn:b".to_string(),
            instruction: "go".to_string(),
        },
    ];
    assert_eq!(
        flash::orchestrator::work::write_plan(&edits),
        r#"[{"path":"a.rs","target":"fn:a","instruction":"say \"hi\""},{"path":"b.rs","target":"fn:b","instruction":"go"}]"#
    );
}

#[test]
fn ops_are_read_field_by_field() {
    let text = r#"[{"op":"set_values","cells":{"B1":true,"A2":1.5,"A1":"x","C1":null,"D1":-3}},{"at":7,"list":[1]},4]"#;
    let ops = flash::orchestrator::ops::read_ops(&Some(text.to_string())).expect("an array");
    assert_eq!(ops.len(), 3);
    assert_eq!(ops[0].kind(), Some("set_values"));
    match ops[0].get("cells") {
        Some(Field::Table(t)) => {
            let t: Vec<(&str, &str)> = t.iter().map(|e| (e.0.as_str(), e.1.as_str())).collect();
            assert_eq!(
                t,
                vec![("A1", "x"), ("A2", "1.5"), ("B1", "true"), ("C1", "null"), ("D1", "-3")]
            );
        }
        _ => panic!("cells are a table"),
    }
    assert_eq!(ops[1].opt_whole("at"), Some(7));
    assert!(matches!(ops[1].get("list"), Some(Field::Other)));
    assert!(ops[1].get("op").is_none());
    assert!(ops[2].fields.is_empty());
    assert!(flash::orchestrator::ops::read_ops(&Some("{}".to_string())).is_none());
    assert!(flash::orchestrator::ops::read_ops(&Some("[".to_string())).is_none());
    assert!(flash::orchestrator::ops::read_ops(&None).is_none());
}

#[test]
fn time_is_put_down_to_what_took_it() {
    let d = Digest::of(b"x");
    let op = NodeOp::Pack {
        path: "a.rs".to_string(),
        target: "fn:a".to_string(),
        budget_chars: 10,
    };
    let outline = Outline { path: "a.rs".to_string(), entities: vec![] };
    let (_, r) = alone(
        op,
        vec![d],
        vec![
            Told::Loaded(Ok(())),
            Told::Outlined(Ok(outline)),
            Told::Packed(Ok(flash::adapter::Pack::default())),
            Told::Stored { stored: Ok(d), ms: 9 },
        ],
    );
    assert_eq!(
        r.output.attribution,
        Attribution { decode_ms: 0, verify_ms: 0, apply_ms: 9, render_ms: 0, wait_ms: 0 }
    );
}

#[test]
fn a_value_in_a_table_is_stored_as_it_is_printed() {
    let text = r#"[{"op": "set", "values": {"b": {"y": [1, "z"], "x": null}, "a": 2.5, "c": "s"}}]"#;
    let ops = flash::orchestrator::ops::read_ops(&Some(text.to_string())).expect("an array");
    let table = ops[0]
        .fields
        .iter()
        .find_map(|(name, field)| match field {
            Field::Table(t) if name == "values" => Some(t.clone()),
            _ => None,
        })
        .expect("a table");
    let expected = [("a", "2.5"), ("b", r#"{"x":null,"y":[1,"z"]}"#), ("c", "s")];
    assert_eq!(table, expected.map(|(k, v)| (k.to_string(), v.to_string())));
}

#[test]
fn a_payload_that_says_nothing_fails_its_node() {
    match flash::orchestrator::work::read_payload(b"not a payload") {
        Err(failure) => {
            assert!(!failure.output.verdict.passed());
            assert_eq!(failure.output.diagnostics, vec!["node op payload is not a flash node op"]);
            assert!(failure.expansion.is_none());
        }
        Ok(_) => panic!("there is nothing to do"),
    }
}
