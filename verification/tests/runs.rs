//! Whole runs of the scheduler, with steps that are scripted and a store that is kept in memory.

use flash::engine::eta::estimate_over;
use flash::engine::eta::Eta;
use flash::engine::exec::Expansion;
use flash::engine::exec::NodeResult;
use flash::engine::graph::NodeSpec;
use flash::engine::graph::TaskGraph;
use flash::engine::report::NodeStatus;
use flash::engine::report::RunReport;
use flash::engine::run::hit_line;
use flash::engine::run::run_line;
use flash::engine::run::Ended;
use flash::engine::run::Found;
use flash::engine::run::Looked;
use flash::engine::run::Run;
use flash::engine::run::Turn;
use flash::engine::scheduler::CostWalk;
use flash::engine::scheduler::Dispatch;
use flash::engine::scheduler::RunState;
use flash::identity::Digest;
use flash::identity::Env;
use flash::identity::Hasher;
use flash::identity::NodeKey;
use flash::identity::NodeKind;
use flash::identity::NodeOutput;
use flash::store::history::History;
use flash::store::journal::JournalEntry;
use std::collections::BTreeMap;
use std::collections::BTreeSet;

struct Memo {
    outputs: Vec<Digest>,
    ms: u64,
    expansion: Option<Expansion>,
}

struct World {
    memo: BTreeMap<String, Memo>,
    history: History,
    journal: Vec<JournalEntry>,
    /// The steps that ran, in order.
    ran: Vec<String>,
    /// Stop after so many steps, as a crash would.
    limit: usize,
    /// How many nodes were not settled when the last run was over.
    stranded: usize,
}

fn world() -> World {
    World {
        memo: BTreeMap::new(),
        history: History::new(),
        journal: Vec::new(),
        ran: Vec::new(),
        limit: usize::MAX,
        stranded: 0,
    }
}

fn copy_line(e: &JournalEntry) -> JournalEntry {
    JournalEntry {
        node_key: e.node_key.clone(),
        action: e.action,
        outputs: e.outputs.clone(),
        hit: e.hit,
        duration_ms: e.duration_ms,
        attribution: e.attribution,
        at_unix_ms: e.at_unix_ms,
    }
}

fn copy(e: &Expansion) -> Expansion {
    Expansion::new(e.nodes.clone(), e.substitute.as_str())
}

/// What a step does: its result, and how long it takes.
type Step = fn(&NodeSpec, &[Digest]) -> (NodeResult, u64);

impl World {
    fn eta(&mut self, st: &RunState) -> Eta {
        let mut walk = CostWalk::new();
        while let Some(q) = walk.next(st) {
            let hit = q
                .action
                .as_ref()
                .and_then(|a| self.memo.get(&a.0.hex()))
                .map(|m| m.outputs.clone());
            let p50 = self.history.stats(&q.key, &vec![]).map(|s| s.p50_ms);
            walk.answer(q, hit, p50, 0);
        }
        estimate_over(&st.topo, &st.graph, &walk.costs)
    }

    fn run(&mut self, graph: TaskGraph, step: Step) -> Option<RunReport> {
        let entries = self.journal.iter().map(copy_line).collect();
        let mut run = match Run::begin(graph, entries, 8) {
            Ok(run) => run,
            Err(e) => panic!("{}", e.message()),
        };
        let eta = self.eta(&run.st);
        let mut clock: u64 = 0;
        let mut going: Vec<(Dispatch, NodeResult, u64)> = Vec::new();
        loop {
            match run.next() {
                Turn::Resumed(d) => {
                    let replay = self
                        .memo
                        .get(&d.action.0.hex())
                        .and_then(|m| m.expansion.as_ref().map(copy));
                    if let Err(e) = run.resumed(&d, replay, clock) {
                        panic!("{}", e.message());
                    }
                }
                Turn::Look(d) => {
                    let at = d.action.0.hex();
                    let found = self.memo.get(&at).map(|m| Found {
                        outputs: m.outputs.clone(),
                        duration_ms: m.ms,
                        replay: m.expansion.as_ref().map(copy),
                    });
                    if let Some(f) = &found {
                        self.journal.push(hit_line(&d, f, 0));
                    }
                    match run.looked(&d, found, clock) {
                        Ok(Looked::Served(_)) => {}
                        Ok(Looked::Start) => {
                            if self.ran.len() >= self.limit {
                                return None;
                            }
                            self.ran.push(d.spec.key.as_str().to_string());
                            let (r, ms) = step(&d.spec, &d.inputs);
                            going.push((d, r, ms));
                        }
                        Err(e) => panic!("{}", e.message()),
                    }
                }
                Turn::Wait => {
                    let (d, r, ms) = going.remove(0);
                    clock += ms;
                    self.history.record(&d.spec.key, ms, &vec![]);
                    let ended = Ended {
                        spec: d.spec,
                        action: d.action,
                        result: r,
                        exec_ms: ms,
                        queue_ms: 0,
                        was_job: false,
                    };
                    if let Some(line) = run_line(&ended, 0) {
                        self.journal.push(line);
                        self.memo.insert(
                            ended.action.0.hex(),
                            Memo {
                                outputs: ended.result.output.outputs.clone(),
                                ms,
                                expansion: ended.result.expansion.as_ref().map(copy),
                            },
                        );
                    }
                    if let Err(e) = run.ended(ended, clock) {
                        panic!("{}", e.message());
                    }
                }
                Turn::Over => break,
            }
        }
        self.stranded =
            run.st.topo.iter().filter(|k| !run.st.settled.contains(&k.0)).count();
        self.journal.clear();
        Some(run.finish("t", clock, clock, eta))
    }
}

fn made(spec: &NodeSpec, inputs: &[Digest]) -> Digest {
    let mut h = Hasher::new("test.exec");
    h.bytes(&spec.op);
    for d in inputs {
        h.digest(d);
    }
    h.finish()
}

/// Steps that are driven by their op.
///
/// * `plan:<n>` expands into a chain of n steps and delegates to its tail
/// * `verify:strict` expands into a fix and a recheck and delegates to the recheck
/// * anything else puts out a digest of the op and the inputs
fn scripted(spec: &NodeSpec, inputs: &[Digest]) -> (NodeResult, u64) {
    let key = spec.key.as_str();
    let op = String::from_utf8_lossy(&spec.op).to_string();
    let out = made(spec, inputs);
    if let Some(n) = op.strip_prefix("plan:") {
        let n: usize = n.parse().unwrap_or(1);
        let mut nodes = Vec::new();
        for i in 0..n {
            let mut s = NodeSpec::new(&format!("step{i}"), NodeKind::Op)
                .op(format!("plain:{key}-step{i}").into_bytes());
            if i == 0 {
                for d in &spec.deps {
                    s = s.dep(d.as_str());
                }
            } else {
                s = s.dep(&format!("step{}", i - 1));
            }
            nodes.push(s);
        }
        let tail = format!("step{}", n - 1);
        return (NodeResult::expand(vec![out], Expansion::new(nodes, &tail)), 1);
    }
    if op == "verify:strict" {
        let diagnostics = Digest::of(b"E0308: mismatched types at line 12");
        let fix = NodeSpec::new("fix", NodeKind::Op)
            .op(format!("plain:fix-for-{}", diagnostics.short()).into_bytes())
            .deps(&spec.deps.iter().map(|d| d.as_str().to_string()).collect());
        let recheck = NodeSpec::new("recheck", NodeKind::Verify)
            .op(b"verify:relaxed".to_vec())
            .dep("fix");
        let expansion = Expansion::new(vec![fix, recheck], "recheck");
        return (NodeResult::expand(vec![out], expansion), 1);
    }
    (NodeResult::done(NodeOutput::pass(vec![out])), 1)
}

fn step(key: &str, kind: NodeKind, op: &str, dep: &str) -> NodeSpec {
    NodeSpec::new(key, kind).op(op.as_bytes().to_vec()).dep(dep)
}

fn source(key: &str, content: &[u8]) -> NodeSpec {
    NodeSpec::source(key, Digest::of(content))
}

fn planning(brief: &[u8], plan: &str) -> TaskGraph {
    TaskGraph::new()
        .with(source("brief", brief))
        .with(step("plan", NodeKind::Plan, plan, "brief"))
        .with(step("publish", NodeKind::Data, "plain:publish", "plan"))
}

#[test]
fn a_planner_emits_work_that_did_not_exist_and_its_consumer_waits_for_it() {
    let mut w = world();
    let report = w.run(planning(b"write me a report", "plan:3"), scripted).unwrap();
    assert!(report.ok(), "the expanded run should finish clean");
    assert_eq!(
        report.node("plan").unwrap().status,
        NodeStatus::Expanded,
        "the planner delegated rather than producing the answer itself"
    );
    for i in 0..3 {
        assert!(w.ran.contains(&format!("plan/step{i}")), "planned step {i} should have run");
    }
    let tail_out = report.node("plan/step2").unwrap().outputs.clone();
    assert_eq!(report.node("plan").unwrap().outputs, tail_out);
    assert!(
        report.node("publish").unwrap().finished_at_ms
            >= report.node("plan/step2").unwrap().finished_at_ms,
        "the consumer must wait for the subgraph, not for the planner"
    );
}

#[test]
fn a_second_run_replays_the_plan_without_calling_the_planner() {
    let mut w = world();
    let first = w.run(planning(b"same brief", "plan:2"), scripted).unwrap();
    assert!(first.ok());
    assert!(!w.ran.is_empty());
    w.ran.clear();
    let second = w.run(planning(b"same brief", "plan:2"), scripted).unwrap();
    assert!(w.ran.is_empty(), "a hot run must not call the planner; ran: {:?}", w.ran);
    assert!(second.ok());
    assert_eq!(
        second.node("plan/step1").unwrap().status,
        NodeStatus::Hit,
        "the planned subgraph must come back from the cache, not be re-planned"
    );
    assert_eq!(
        second.node("publish").unwrap().outputs,
        first.node("publish").unwrap().outputs,
        "replaying a cached plan must reproduce the same result"
    );
}

#[test]
fn a_failing_rung_repairs_itself_and_the_repair_is_cached() {
    let graph = || {
        TaskGraph::new()
            .with(source("file", b"fn main() {}"))
            .with(step("edit", NodeKind::Op, "plain:edit", "file"))
            .with(step("verify", NodeKind::Verify, "verify:strict", "edit"))
            .with(step("commit", NodeKind::Data, "plain:commit", "verify"))
    };
    let mut w = world();
    let first = w.run(graph(), scripted).unwrap();
    assert!(first.ok(), "the task should succeed through repair, not fail at the rung");
    assert!(w.ran.contains(&"verify/fix".to_string()), "a repair node should have run");
    assert!(w.ran.contains(&"verify/recheck".to_string()), "the recheck should have run");
    assert_eq!(first.node("verify").unwrap().status, NodeStatus::Expanded);
    assert_eq!(
        first.node("commit").unwrap().status,
        NodeStatus::Computed,
        "downstream work proceeds once the repair passes"
    );
    w.ran.clear();
    let second = w.run(graph(), scripted).unwrap();
    assert!(w.ran.is_empty(), "a repeated task must not redo the repair; ran: {:?}", w.ran);
    assert!(second.is_hot());
}

/// A step whose op says whether its result is constant, whether it fails, and what it costs.
fn stub_op(name: &str, constant: bool, failing: bool, cost: u64) -> String {
    format!("{name}|{constant}|{failing}|{cost}")
}

fn stubbed(spec: &NodeSpec, inputs: &[Digest]) -> (NodeResult, u64) {
    let op = String::from_utf8_lossy(&spec.op).to_string();
    let words: Vec<&str> = op.split('|').collect();
    if words.len() != 4 {
        return (NodeResult::done(NodeOutput::pass(vec![Digest::of(&spec.op)])), 0);
    }
    let cost: u64 = words[3].parse().unwrap();
    if words[2] == "true" {
        return (NodeResult::done(NodeOutput::fail(vec![format!("{} failed", words[0])])), cost);
    }
    let out = if words[1] == "true" { Digest::of(&spec.op) } else { made(spec, inputs) };
    (NodeResult::done(NodeOutput::pass(vec![out])), cost)
}

#[test]
fn a_constant_node_keeps_its_children_hot() {
    let graph = |rows: &[u8]| {
        TaskGraph::new()
            .with(source("csv:q3", rows))
            .with(step(
                "data:summary",
                NodeKind::Data,
                &stub_op("summary", true, false, 0),
                "csv:q3",
            ))
            .with(step(
                "section:methodology",
                NodeKind::Op,
                &stub_op("methodology", false, false, 40),
                "data:summary",
            ))
    };
    let mut w = world();
    let cold = w.run(graph(b"rows-v1"), stubbed).unwrap();
    assert_eq!(cold.computed(), 3);
    let warm = w.run(graph(b"rows-v2"), stubbed).unwrap();
    assert_eq!(
        warm.computed_keys(),
        vec!["csv:q3", "data:summary"],
        "only the changed source and the summary should rerun"
    );
    assert_eq!(
        warm.node("section:methodology").unwrap().status,
        NodeStatus::Hit,
        "the section must stay hot: its input bytes did not move"
    );
}

#[test]
fn a_prompt_version_bump_invalidates_only_nodes_that_used_it() {
    let graph = |prompt: &str| {
        TaskGraph::new()
            .with(source("file:lib.rs", b"fn main() {}"))
            .with(
                step("op:edit", NodeKind::Op, &stub_op("edit", false, false, 0), "file:lib.rs")
                    .env(Env::new("exec-small", prompt, "code-v1")),
            )
            .with(
                step("verify:lsp", NodeKind::Verify, &stub_op("lsp", false, false, 0), "op:edit")
                    .env(Env::deterministic("code-v1")),
            )
    };
    let mut w = world();
    let cold = w.run(graph("prompt-v1"), stubbed).unwrap();
    assert_eq!(cold.computed(), 3);
    let bumped = w.run(graph("prompt-v2"), stubbed).unwrap();
    let recomputed = bumped.computed_keys();
    assert!(
        recomputed.contains(&"op:edit".to_string()),
        "the node using the bumped prompt must rerun"
    );
    assert!(
        !recomputed.contains(&"file:lib.rs".to_string()),
        "an unrelated source must not rerun"
    );
    assert_eq!(
        bumped.node("verify:lsp").unwrap().status,
        NodeStatus::Hit,
        "identical output must cut off the invalidation"
    );
}

#[test]
fn identical_work_across_two_tasks_shares_one_cache() {
    let graph = || {
        TaskGraph::new()
            .with(source("input", b"same bytes"))
            .with(step("work", NodeKind::Op, &stub_op("work", false, false, 40), "input"))
    };
    let mut w = world();
    let first = w.run(graph(), stubbed).unwrap();
    assert_eq!(first.computed(), 2);
    w.ran.clear();
    let second = w.run(graph(), stubbed).unwrap();
    assert!(second.is_hot(), "a different task, the same content, no work");
    assert!(w.ran.is_empty());
    assert!(second.saved_ms > 0, "the report should say how much wall time the cache saved");
}

/// A layered graph that a seed gives: every third step is constant.
fn layered(seed: u64, changed: Option<usize>) -> (TaskGraph, BTreeMap<String, (Vec<String>, bool)>) {
    let mut state = seed.wrapping_mul(6364136223846793005).wrapping_add(1442695040888963407);
    let mut roll = |n: u64| {
        state = state.wrapping_mul(6364136223846793005).wrapping_add(1442695040888963407);
        (state >> 33) % n
    };
    let mut g = TaskGraph::new();
    let mut shape = BTreeMap::new();
    let mut keys: Vec<String> = Vec::new();
    for i in 0..3usize {
        let key = format!("src:{i}");
        let content = if changed == Some(i) { format!("new {seed}") } else { format!("old {i}") };
        g = g.with(source(&key, content.as_bytes()));
        shape.insert(key.clone(), (vec![], false));
        keys.push(key);
    }
    for i in 0..(9 + seed % 20) {
        let key = format!("n:{i}");
        let constant = roll(100) < 15;
        let mut deps: Vec<String> = Vec::new();
        for _ in 0..(1 + roll(3)) {
            let d = keys[roll(keys.len() as u64) as usize].clone();
            if !deps.contains(&d) {
                deps.push(d);
            }
        }
        let spec = NodeSpec::new(&key, NodeKind::Op)
            .op(stub_op(&key, constant, false, 0).into_bytes())
            .deps(&deps);
        g = g.with(spec);
        shape.insert(key.clone(), (deps, constant));
        keys.push(key);
    }
    (g, shape)
}

#[test]
fn a_warm_rerun_recomputes_exactly_the_dirty_closure() {
    for seed in 0..100u64 {
        let mut w = world();
        let (g, shape) = layered(seed, None);
        let n = shape.len();
        let cold = w.run(g, stubbed).unwrap();
        assert!(cold.ok(), "seed {seed}: cold run should be clean");
        assert_eq!(w.stranded, 0, "seed {seed}: a run is over when every node is settled");
        assert_eq!(cold.computed() + cold.hits(), n, "seed {seed}");
        w.ran.clear();
        let hot = w.run(layered(seed, None).0, stubbed).unwrap();
        assert!(hot.is_hot(), "seed {seed}: identical inputs must compute nothing");
        assert!(w.ran.is_empty());

        let mutated = (seed % 3) as usize;
        let warm = w.run(layered(seed, Some(mutated)).0, stubbed).unwrap();
        let mut moved: BTreeMap<String, bool> = BTreeMap::new();
        let mut expected: BTreeSet<String> = BTreeSet::new();
        let order = layered(seed, None).0.validate().ok().unwrap();
        for key in &order.topo {
            let (deps, constant) = &shape[key.as_str()];
            let acted = key.as_str() == format!("src:{mutated}") || deps.iter().any(|d| moved[d]);
            if acted {
                expected.insert(key.as_str().to_string());
            }
            moved.insert(key.as_str().to_string(), acted && !constant);
        }
        let actual: BTreeSet<String> = warm.computed_keys().into_iter().collect();
        assert_eq!(actual, expected, "seed {seed}");
        let root = NodeKey::new(&format!("src:{mutated}"));
        let structural = layered(seed, None).0.downstream_closure(&vec![root]);
        assert!(actual.iter().all(|k| structural.contains(k)), "seed {seed}");
    }
}

#[test]
fn a_crash_resumes_at_the_frontier_not_from_zero() {
    let graph = || {
        let mut g = TaskGraph::new().with(source("src", b"x"));
        let mut prev = "src".to_string();
        for i in 0..8 {
            let key = format!("step:{i}");
            g = g.with(step(&key, NodeKind::Op, &stub_op(&key, false, false, 60), &prev));
            prev = key;
        }
        g
    };
    let mut w = world();
    w.limit = 4;
    assert!(w.run(graph(), stubbed).is_none(), "the run was interrupted");
    w.memo.clear();
    w.limit = usize::MAX;
    let report = w.run(graph(), stubbed).unwrap();
    let resumed = report.count(NodeStatus::Resumed);
    assert_eq!(resumed, 4, "the journal records the frontier");
    assert!(resumed < graph().len());
    assert!(report.ok(), "the resumed run should still finish the task");
}

#[test]
fn a_failure_skips_its_dependents_and_spares_everything_else() {
    let graph = || {
        TaskGraph::new()
            .with(source("src", b"x"))
            .with(step("edit", NodeKind::Op, &stub_op("edit", false, false, 0), "src"))
            .with(step("verify", NodeKind::Verify, &stub_op("verify", false, true, 0), "edit"))
            .with(step("render", NodeKind::Render, &stub_op("render", false, false, 0), "verify"))
            .with(step("unrelated", NodeKind::Op, &stub_op("unrelated", false, false, 0), "src"))
    };
    let mut w = world();
    let report = w.run(graph(), stubbed).unwrap();
    assert_eq!(report.node("verify").unwrap().status, NodeStatus::Failed);
    assert_eq!(report.node("render").unwrap().status, NodeStatus::Skipped);
    assert_eq!(report.node("unrelated").unwrap().status, NodeStatus::Computed);
    assert!(!report.ok());
    assert!(
        !report.node("verify").unwrap().diagnostics.is_empty(),
        "a failure must carry structured diagnostics back for the model to act on"
    );
    let rerun = w.run(graph(), stubbed).unwrap();
    assert_eq!(rerun.node("edit").unwrap().status, NodeStatus::Hit);
    assert_eq!(rerun.node("verify").unwrap().status, NodeStatus::Failed);
}

fn report_graph(marker: &str) -> TaskGraph {
    let mut g = TaskGraph::new().with(source("csv", marker.as_bytes())).with(step(
        "summary",
        NodeKind::Data,
        &stub_op("summary", false, false, 60),
        "csv",
    ));
    for s in ["intro", "results", "outlook"] {
        g = g.with(step(
            &format!("section:{s}"),
            NodeKind::Op,
            &stub_op(s, false, false, 90),
            "summary",
        ));
    }
    g.with(
        NodeSpec::new("assemble", NodeKind::Data)
            .op(stub_op("assemble", false, false, 50).into_bytes())
            .deps(&vec![
                "section:intro".to_string(),
                "section:results".to_string(),
                "section:outlook".to_string(),
            ])
            .dep("summary"),
    )
}

#[test]
fn a_graph_with_no_history_reports_unknown_rather_than_a_number() {
    let mut w = world();
    let r = w.run(report_graph("first-ever"), stubbed).unwrap();
    assert_eq!(r.eta_at_start.known_ms, 0, "with no history there is nothing to add up");
    assert_eq!(
        r.eta_at_start.unknown_nodes,
        report_graph("first-ever").len(),
        "every node should be counted as unknown, not estimated"
    );
    assert!(r.eta_at_start.render("0.0").contains("unknown"));
}

#[test]
fn a_cached_task_predicts_near_zero() {
    let mut w = world();
    let cold = w.run(report_graph("stable"), stubbed).unwrap();
    let hot = w.run(report_graph("stable"), stubbed).unwrap();
    assert!(hot.is_hot());
    assert!(hot.wall_ms * 4 < cold.wall_ms.max(1), "a different order of magnitude");
    assert!(hot.saved_ms > hot.wall_ms, "more time saved than spent");
    assert_eq!(hot.eta_at_start.known_ms, 0);
    assert!(hot.eta_at_start.is_complete());
}

#[test]
fn an_eta_from_history_is_the_longest_path() {
    let mut w = world();
    w.run(report_graph("a"), stubbed).unwrap();
    let r = w.run(report_graph("b"), stubbed).unwrap();
    assert!(r.eta_at_start.is_complete(), "every node has history by now");
    assert_eq!(r.eta_at_start.known_ms, 60 + 90 + 50);
}

/// A planner whose first step fails, and whose second stands in for it.
fn doomed(spec: &NodeSpec, inputs: &[Digest]) -> (NodeResult, u64) {
    let out = made(spec, inputs);
    if spec.kind == NodeKind::Plan {
        let nodes = vec![
            NodeSpec::new("draft", NodeKind::Op).op(b"draft".to_vec()),
            NodeSpec::new("final", NodeKind::Op).op(b"final".to_vec()).dep("draft"),
        ];
        return (NodeResult::expand(vec![out], Expansion::new(nodes, "final")), 1);
    }
    if spec.op == b"draft".to_vec() {
        return (NodeResult::done(NodeOutput::fail(vec!["no draft".to_string()])), 1);
    }
    (NodeResult::done(NodeOutput::pass(vec![out])), 1)
}

#[test]
fn what_waits_behind_a_failed_plan_is_reported_as_skipped() {
    let mut w = world();
    let report = w.run(planning(b"brief", "plan"), doomed).unwrap();
    assert_eq!(report.node("plan/draft").unwrap().status, NodeStatus::Failed);
    assert_eq!(report.node("plan/final").unwrap().status, NodeStatus::Skipped);
    assert_eq!(report.node("publish").unwrap().status, NodeStatus::Skipped);
    assert_eq!(w.stranded, 1, "nobody answered for the planner");
    assert_eq!(report.nodes.len(), 5, "every node is accounted for");
    assert!(!report.ok());
}

#[test]
fn a_failure_leaves_no_node_waiting() {
    let mut w = world();
    let graph = TaskGraph::new()
        .with(source("src", b"x"))
        .with(step("bad", NodeKind::Op, &stub_op("bad", false, true, 0), "src"))
        .with(step("behind", NodeKind::Op, &stub_op("behind", false, false, 0), "bad"))
        .with(step("last", NodeKind::Op, &stub_op("last", false, false, 0), "behind"));
    w.run(graph, stubbed).unwrap();
    assert_eq!(w.stranded, 0);
    assert_eq!(w.ran, vec!["src", "bad"]);
}

#[test]
fn a_graph_that_cannot_be_executed_is_not_begun() {
    let graph = TaskGraph::new().with(step("a", NodeKind::Op, "x", "nowhere"));
    let e = Run::begin(graph, vec![], 8).err().unwrap();
    assert_eq!(e.message(), TaskGraph::new()
        .with(step("a", NodeKind::Op, "x", "nowhere"))
        .validate()
        .err()
        .unwrap()
        .message());
}

#[test]
fn turns_are_taken_in_order() {
    let graph = TaskGraph::new()
        .with(source("src", b"x"))
        .with(step("work", NodeKind::Op, "work", "src"));
    let mut run = Run::begin(graph, vec![], 8).ok().unwrap();
    let Turn::Look(src) = run.next() else { panic!("the source is ready") };
    assert_eq!(src.spec.key.as_str(), "src");
    assert!(src.inputs.is_empty());
    let found = Found { outputs: vec![Digest::of(b"x")], duration_ms: 7, replay: None };
    let line = hit_line(&src, &found, 99);
    assert_eq!(line.node_key.as_str(), "src");
    assert!(line.action == src.action && line.hit && line.duration_ms == 0);
    assert_eq!(line.outputs, vec![Digest::of(b"x")]);
    assert_eq!(line.at_unix_ms, 99);
    assert!(matches!(run.looked(&src, Some(found), 1), Ok(Looked::Served(_))));
    assert_eq!(run.st.saved_ms, 7);
    let Turn::Look(work) = run.next() else { panic!("the work is ready") };
    assert_eq!(work.inputs, vec![Digest::of(b"x")]);
    assert!(matches!(run.looked(&work, None, 1), Ok(Looked::Start)));
    assert!(matches!(run.next(), Turn::Wait));
    let passed = Ended {
        spec: work.spec.clone(),
        action: work.action,
        result: NodeResult::done(NodeOutput::pass(vec![Digest::of(b"y")])),
        exec_ms: 5,
        queue_ms: 3,
        was_job: true,
    };
    let line = run_line(&passed, 100).unwrap();
    assert!(!line.hit && line.duration_ms == 5 && line.at_unix_ms == 100);
    assert_eq!(line.outputs, vec![Digest::of(b"y")]);
    let failed = Ended {
        spec: work.spec.clone(),
        action: work.action,
        result: NodeResult::done(NodeOutput::fail(vec!["no".to_string()])),
        exec_ms: 5,
        queue_ms: 3,
        was_job: true,
    };
    assert!(run_line(&failed, 100).is_none(), "what failed is not done");
    assert!(run.ended(passed, 8).is_ok());
    assert!(matches!(run.next(), Turn::Over));
    let eta = world().eta(&run.st);
    let report = run.finish("t", 9, 9, eta);
    let node = report.node("work").unwrap();
    assert_eq!((node.exec_ms, node.queue_ms, node.was_job), (5, 3, true));
    assert_eq!(report.node("src").unwrap().status, NodeStatus::Hit);
    assert_eq!(report.wall_ms, 9);
}

#[test]
fn an_interrupted_plan_is_taken_up_inside_its_subgraph() {
    let graph = || planning(b"write me a report", "plan:3");
    let mut w = world();
    w.limit = 3;
    assert!(w.run(graph(), scripted).is_none(), "the run was interrupted");
    assert_eq!(w.ran, ["brief", "plan", "plan/step0"]);
    w.limit = usize::MAX;
    w.ran.clear();
    let report = w.run(graph(), scripted).unwrap();
    assert_eq!(w.ran, ["plan/step1", "plan/step2", "publish"]);
    assert_eq!(report.node("plan").unwrap().status, NodeStatus::Resumed);
    assert_eq!(report.node("plan/step0").unwrap().status, NodeStatus::Resumed);
    assert_eq!(
        report.node("plan").unwrap().outputs,
        report.node("plan/step2").unwrap().outputs
    );
    assert!(report.ok());
    let straight = world().run(graph(), scripted).unwrap();
    assert_eq!(
        report.node("publish").unwrap().outputs,
        straight.node("publish").unwrap().outputs
    );
}

#[test]
fn a_substitute_that_is_skipped_fails_the_node_it_stands_for() {
    let report = world().run(planning(b"brief", "plan"), doomed).unwrap();
    assert_eq!(report.node("plan/draft").unwrap().status, NodeStatus::Failed);
    assert_eq!(report.node("plan/final").unwrap().status, NodeStatus::Skipped);
    assert_eq!(report.node("plan").unwrap().status, NodeStatus::Failed);
    assert_eq!(report.node("publish").unwrap().status, NodeStatus::Skipped);
    assert!(!report.ok());
}

/// `early` expands into one step; `plan` expands into one that reads `early`, and `lost` fails.
fn crossing(spec: &NodeSpec, inputs: &[Digest]) -> (NodeResult, u64) {
    let one = |key: &str, dep: &str| {
        let s = NodeSpec::new(key, NodeKind::Op).op(key.as_bytes().to_vec());
        let s = if dep.is_empty() { s } else { s.dep(dep) };
        Expansion::new(vec![s], key)
    };
    let op = String::from_utf8_lossy(&spec.op).to_string();
    match op.as_str() {
        "expand" => (NodeResult::expand(vec![], one("work", "")), 1),
        "read-early" => (NodeResult::expand(vec![], one("use", "early")), 1),
        "read-lost" => (NodeResult::expand(vec![], one("use", "lost")), 1),
        "fail" => (NodeResult::done(NodeOutput::fail(vec!["lost".to_string()])), 1),
        _ => (NodeResult::done(NodeOutput::pass(vec![made(spec, inputs)])), 1),
    }
}

#[test]
fn a_step_of_a_plan_waits_for_a_node_that_has_handed_its_identity_on() {
    let graph = TaskGraph::new()
        .with(source("brief", b"x"))
        .with(step("early", NodeKind::Plan, "expand", "brief"))
        .with(step("plan", NodeKind::Plan, "read-early", "brief"));
    let mut w = world();
    let report = w.run(graph, crossing).unwrap();
    assert!(report.ok());
    let at = |k: &str| w.ran.iter().position(|x| x == k).unwrap();
    assert!(at("plan") < at("early/work") && at("early/work") < at("plan/use"));
    let mut h = Hasher::new("test.exec");
    h.bytes(b"use");
    h.digest(&report.node("early/work").unwrap().outputs[0]);
    assert_eq!(report.node("plan/use").unwrap().outputs, vec![h.finish()]);
}

#[test]
fn a_step_of_a_plan_behind_a_failure_does_not_run() {
    let graph = TaskGraph::new()
        .with(source("brief", b"x"))
        .with(step("lost", NodeKind::Op, "fail", "brief"))
        .with(step("plan", NodeKind::Plan, "read-lost", "brief"));
    let mut w = world();
    let report = w.run(graph, crossing).unwrap();
    assert!(!w.ran.contains(&"plan/use".to_string()));
    assert_eq!(report.node("lost").unwrap().status, NodeStatus::Failed);
    assert_eq!(report.node("plan/use").unwrap().status, NodeStatus::Skipped);
    assert_eq!(report.node("plan").unwrap().status, NodeStatus::Failed);
}
