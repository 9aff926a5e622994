use flash::cli::made;
use flash::cli::parse_args;
use flash::cli::quarterly_report;
use flash::cli::spent;
use flash::cli::split_cmd;
use flash::cli::still_hot;
use flash::cli::stub;
use flash::engine::eta::Eta;
use flash::engine::graph::NodeSpec;
use flash::engine::report::NodeReport;
use flash::engine::report::NodeStatus;
use flash::engine::report::RunReport;
use flash::identity::Attribution;
use flash::identity::Digest;
use flash::identity::Hasher;
use flash::identity::NodeKey;
use flash::identity::NodeKind;

fn words(s: &[&str]) -> Vec<String> {
    s.iter().map(|w| w.to_string()).collect()
}

#[test]
fn a_command_line_is_read_from_left_to_right() {
    let a = parse_args(&words(&[
        "--store", "s", "run", "do it", "--live", "a.rs", "--planner-cmd", "p x", "--scale", "2",
        "--scale",
    ]));
    assert_eq!(a.cmd, "run");
    assert_eq!(a.rest, vec!["do it", "a.rs"]);
    assert_eq!(a.store, "s");
    assert_eq!(a.root, ".");
    assert!(a.live && !a.json);
    assert_eq!(a.scales, vec!["2"]);
    assert_eq!(a.planner_cmd, Some("p x".to_string()));
    assert_eq!(a.executor_cmd, None);
}

#[test]
fn help_is_what_is_left() {
    assert_eq!(parse_args(&words(&[])).cmd, "help");
    assert_eq!(parse_args(&words(&["run", "-h"])).cmd, "help");
    let a = parse_args(&words(&["-x", "demo", "--store"]));
    assert_eq!(a.cmd, "demo");
    assert_eq!(a.rest, vec!["-x"]);
    assert_eq!(a.store, ".flash");
}

#[test]
fn a_command_is_split_at_white_space() {
    assert_eq!(split_cmd("  my-llm --model\tbig \n"), vec!["my-llm", "--model", "big"]);
    assert!(split_cmd("   ").is_empty());
}

#[test]
fn the_demo_is_a_graph_that_can_be_run() {
    let g = quarterly_report(&words(&["a", "b", "c"]));
    assert_eq!(g.len(), 20);
    let plan = g.validate().ok().unwrap();
    assert_eq!(plan.topo.last().unwrap().as_str(), "verify:pages");
    let csv = g.get(&NodeKey::new("csv:1")).unwrap();
    assert_eq!(csv.op, Digest::of(b"b").as_bytes().to_vec());
    let section = g.get(&NodeKey::new("section:risks")).unwrap();
    assert_eq!(section.deps[0].as_str(), "data:2");
    let render = g.get(&NodeKey::new("render:pdf")).unwrap();
    assert_eq!(render.deps.len(), 12);
    assert_eq!(render.kind, NodeKind::Render);
}

#[test]
fn the_steps_of_the_demo_cost_what_they_cost() {
    assert_eq!(stub("csv:0", NodeKind::Data).cost_ms, 0);
    assert_eq!(stub("data:0", NodeKind::Data).cost_ms, 1_800);
    assert!(!stub("data:0", NodeKind::Data).constant);
    assert!(stub("data:2", NodeKind::Data).constant);
    assert_eq!(stub("render:pdf", NodeKind::Render).cost_ms, 38_000);
}

#[test]
fn only_sections_that_hit_were_free() {
    let node = |key: &str, status: NodeStatus| NodeReport {
        key: NodeKey::new(key),
        kind: NodeKind::Op,
        action: None,
        status,
        outputs: Vec::new(),
        exec_ms: 0,
        queue_ms: 0,
        attribution: Attribution::default(),
        was_job: false,
        finished_at_ms: 0,
        diagnostics: Vec::new(),
    };
    let report = RunReport {
        task_id: "t".to_string(),
        wall_ms: 0,
        eta_at_start: Eta {
            known_ms: 0,
            unknown_nodes: 0,
        },
        first_change_ms: None,
        nodes: vec![
            node("section:costs", NodeStatus::Hit),
            node("section:risks", NodeStatus::Computed),
            node("data:1", NodeStatus::Hit),
        ],
        attribution: Attribution::default(),
        saved_ms: 0,
    };
    assert_eq!(still_hot(&report), vec!["section:costs"]);
}

#[test]
fn a_demo_step_puts_out_what_its_key_its_op_and_its_inputs_decide() {
    let framed = |fields: &[&[u8]]| {
        let mut h = Hasher::new("flash.demo.v1");
        for f in fields {
            h.bytes(f);
        }
        h.finish()
    };
    let (x, y) = (Digest::of(b"x"), Digest::of(b"y"));
    let s = NodeSpec::new("data:0", NodeKind::Data).op(b"op".to_vec());
    assert_eq!(
        made(&s, &vec![x, y]),
        framed(&[b"data:0", b"op", x.as_bytes(), y.as_bytes()])
    );
    let c = NodeSpec::new("data:1", NodeKind::Data).op(b"op".to_vec());
    assert_eq!(made(&c, &vec![x]), framed(&[b"data:1", b"op"]));
    assert_eq!(spent(NodeKind::Build, 7).render_ms, 7);
    assert_eq!(spent(NodeKind::Plan, 7).decode_ms, 7);
    assert_eq!(spent(NodeKind::Data, 7).apply_ms, 7);
    assert_eq!(spent(NodeKind::Verify, 7).verify_ms, 7);
}
