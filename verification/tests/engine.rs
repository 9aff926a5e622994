use flash::engine::eta::estimate;
use flash::engine::eta::estimate_within;
use flash::engine::eta::Eta;
use flash::engine::eta::NodeCost;
use flash::engine::exec::Expansion;
use flash::engine::exec::JobRegistry;
use flash::engine::graph::GraphError;
use flash::engine::graph::NodeSpec;
use flash::engine::graph::TaskGraph;
use flash::engine::report::NodeStatus;
use flash::engine::report::RunReport;
use flash::engine::scheduler::CostWalk;
use flash::engine::scheduler::Effect;
use flash::engine::scheduler::EngineConfig;
use flash::engine::scheduler::EngineError;
use flash::engine::scheduler::RunState;
use flash::identity::ActionKey;
use flash::identity::Digest;
use flash::identity::Lane;
use flash::identity::NodeKey;
use flash::identity::NodeKind;
use flash::identity::NodeOutput;
use flash::maps::NameMap;

// ---- graphs --------------------------------------------------------------------------------

fn chain() -> TaskGraph {
    TaskGraph::new()
        .with(NodeSpec::source("a", Digest::of(b"a")))
        .with(NodeSpec::new("b", NodeKind::Op).dep("a"))
        .with(NodeSpec::new("c", NodeKind::Verify).dep("b"))
}

#[test]
fn topo_order_respects_edges() {
    let plan = chain().validate().ok().unwrap();
    let pos = |k: &str| plan.topo.iter().position(|n| n.as_str() == k).unwrap();
    assert!(pos("a") < pos("b"));
    assert!(pos("b") < pos("c"));
}

#[test]
fn topo_order_is_stable_across_validations() {
    let g = chain();
    assert_eq!(
        g.validate().ok().unwrap().topo,
        g.validate().ok().unwrap().topo
    );
}

#[test]
fn cycles_are_rejected() {
    let mut g = TaskGraph::new();
    g.add(NodeSpec::new("a", NodeKind::Op).dep("b")).unwrap();
    g.add(NodeSpec::new("b", NodeKind::Op).dep("a")).unwrap();
    assert!(matches!(g.validate(), Err(GraphError::Cycle(_))));
}

#[test]
fn missing_deps_are_rejected() {
    let mut g = TaskGraph::new();
    g.add(NodeSpec::new("a", NodeKind::Op).dep("ghost"))
        .unwrap();
    assert!(matches!(g.validate(), Err(GraphError::MissingDep { .. })));
}

#[test]
fn self_dependency_is_rejected() {
    let mut g = TaskGraph::new();
    assert!(matches!(
        g.add(NodeSpec::new("a", NodeKind::Op).dep("a")),
        Err(GraphError::SelfDep(_))
    ));
}

#[test]
fn downstream_closure_is_transitive() {
    let g = chain();
    let closure = g.downstream_closure(&vec![NodeKey::new("a")]);
    assert_eq!(closure.len(), 3);
    let from_b = g.downstream_closure(&vec![NodeKey::new("b")]);
    assert_eq!(from_b.len(), 2);
}

#[test]
fn a_name_is_taken_once() {
    let mut g = TaskGraph::new();
    g.add(NodeSpec::new("a", NodeKind::Op)).unwrap();
    assert!(matches!(
        g.add(NodeSpec::new("a", NodeKind::Op)),
        Err(GraphError::Duplicate(_))
    ));
    assert_eq!(
        GraphError::Duplicate(NodeKey::new("a")).message(),
        "node a declared twice"
    );
}

// ---- eta -----------------------------------------------------------------------------------

fn diamond() -> TaskGraph {
    // a -> b -> d, a -> c -> d. b is the slow branch.
    TaskGraph::new()
        .with(NodeSpec::source("a", Digest::of(b"a")))
        .with(NodeSpec::new("b", NodeKind::Op).dep("a").op(b"b".to_vec()))
        .with(NodeSpec::new("c", NodeKind::Op).dep("a").op(b"c".to_vec()))
        .with(NodeSpec::new("d", NodeKind::Verify).dep("b").dep("c"))
}

fn costs(pairs: &[(&str, NodeCost)]) -> NameMap<NodeCost> {
    let mut m = NameMap::empty();
    for (k, c) in pairs {
        m.insert(k.to_string(), *c);
    }
    m
}

#[test]
fn eta_follows_the_critical_path_not_the_sum() {
    let g = diamond();
    let plan = g.validate().ok().unwrap();
    let c = costs(&[
        ("a", NodeCost::Known(100)),
        ("b", NodeCost::Known(500)),
        ("c", NodeCost::Known(50)),
        ("d", NodeCost::Known(200)),
    ]);
    // critical path a->b->d = 800, not 850 total.
    assert_eq!(estimate(&plan, &g, &c).known_ms, 800);
}

#[test]
fn finished_nodes_drop_out_of_the_estimate() {
    let g = diamond();
    let plan = g.validate().ok().unwrap();
    let c = costs(&[
        ("a", NodeCost::Done),
        ("b", NodeCost::Done),
        ("c", NodeCost::Done),
        ("d", NodeCost::Known(200)),
    ]);
    assert_eq!(estimate(&plan, &g, &c).known_ms, 200);
}

#[test]
fn nodes_without_history_are_counted_never_guessed() {
    let g = diamond();
    let plan = g.validate().ok().unwrap();
    let c = costs(&[
        ("a", NodeCost::Known(100)),
        ("b", NodeCost::Unknown),
        ("c", NodeCost::Known(50)),
        ("d", NodeCost::Unknown),
    ]);
    let eta = estimate(&plan, &g, &c);
    assert_eq!(eta.unknown_nodes, 2);
    assert!(!eta.is_complete());
    assert!(eta.render("0.1").contains("unknown"));
}

#[test]
fn only_costs_along_a_chain_add_up() {
    let g = diamond();
    let plan = g.validate().ok().unwrap();
    let half = u64::MAX / 2;
    let c = costs(&[
        ("a", NodeCost::Known(1)),
        ("b", NodeCost::Known(half)),
        ("c", NodeCost::Known(half)),
        ("d", NodeCost::Known(half)),
    ]);
    // All four together are over 64 bits; the longest path is not.
    assert_eq!(estimate(&plan, &g, &c).known_ms, u64::MAX);
    let over = costs(&[
        ("a", NodeCost::Known(2)),
        ("b", NodeCost::Known(half)),
        ("c", NodeCost::Known(0)),
        ("d", NodeCost::Known(half)),
    ]);
    assert!(estimate_within(&plan.topo, &g, &over).is_none());
}

// ---- a whole run, without waiting ----------------------------------------------------------

/// What was remembered, by action.
type Memo = Vec<(ActionKey, Vec<Digest>, u64)>;

/// Runs a graph to its end. `act` is what a node does.
fn run(
    graph: TaskGraph,
    memo: &mut Memo,
    act: impl FnMut(&NodeSpec, &[Digest]) -> (NodeOutput, Option<Expansion>),
) -> RunReport {
    try_run(graph, memo, 4, act).unwrap()
}

/// Runs a graph to its end, or to what stops it.
fn try_run(
    graph: TaskGraph,
    memo: &mut Memo,
    max_depth: usize,
    mut act: impl FnMut(&NodeSpec, &[Digest]) -> (NodeOutput, Option<Expansion>),
) -> Result<RunReport, EngineError> {
    let plan = graph.validate().ok().unwrap();
    let mut st = RunState::new(graph, plan, max_depth);
    let mut now: u64 = 0;
    while let Some(d) = st.next_dispatch() {
        now += 1;
        let found = memo
            .iter()
            .find(|(k, _, _)| *k == d.action)
            .map(|(_, o, ms)| (o.clone(), *ms));
        match found {
            Some((outputs, ms)) => {
                st.hit(&d.spec, d.action, outputs, ms, None, now)?;
            }
            None => {
                st.start(&d.spec.key);
                let (output, expansion) = act(&d.spec, &d.inputs);
                if output.verdict.passed() && expansion.is_none() {
                    memo.push((d.action, output.outputs.clone(), 10));
                }
                st.complete(&d.spec, d.action, output, expansion, 10, 0, false, now)?;
            }
        }
    }
    st.skip_leftovers(now);
    Ok(st.into_report(
        "t",
        now,
        Eta {
            known_ms: 0,
            unknown_nodes: 0,
        },
    ))
}

/// A node that hashes what it is and what it reads.
fn hash(spec: &NodeSpec, inputs: &[Digest]) -> (NodeOutput, Option<Expansion>) {
    let mut bytes = spec.op.clone();
    for d in inputs {
        bytes.extend_from_slice(d.as_bytes());
    }
    (NodeOutput::pass(vec![Digest::of(&bytes)]), None)
}

#[test]
fn an_unchanged_graph_costs_nothing_the_second_time() {
    let mut memo = Memo::new();
    let cold = run(diamond(), &mut memo, hash);
    assert_eq!((cold.computed(), cold.hits()), (4, 0));
    assert!(cold.ok());
    let hot = run(diamond(), &mut memo, hash);
    assert_eq!((hot.computed(), hot.hits()), (0, 4));
    assert!(hot.is_hot());
    assert_eq!(hot.saved_ms, 40);
    assert_eq!(
        hot.node("d").unwrap().outputs,
        cold.node("d").unwrap().outputs
    );
}

#[test]
fn a_changed_source_moves_only_what_it_reaches() {
    let two = |x: &[u8]| {
        TaskGraph::new()
            .with(NodeSpec::source("x", Digest::of(x)))
            .with(NodeSpec::source("y", Digest::of(b"y")))
            .with(NodeSpec::new("fx", NodeKind::Op).dep("x"))
            .with(NodeSpec::new("fy", NodeKind::Op).dep("y").op(b"y".to_vec()))
    };
    let mut memo = Memo::new();
    run(two(b"1"), &mut memo, hash);
    let warm = run(two(b"2"), &mut memo, hash);
    assert_eq!(warm.computed_keys(), vec!["fx", "x"]);
    assert_eq!(warm.node("fy").unwrap().status, NodeStatus::Hit);
}

#[test]
fn a_failed_node_takes_its_dependents_and_nothing_else() {
    let mut memo = Memo::new();
    let report = run(diamond(), &mut memo, |spec, inputs| {
        if spec.key.as_str() == "b" {
            (NodeOutput::fail(vec!["no".to_string()]), None)
        } else {
            hash(spec, inputs)
        }
    });
    assert!(!report.ok());
    assert_eq!(report.node("b").unwrap().status, NodeStatus::Failed);
    assert_eq!(report.node("c").unwrap().status, NodeStatus::Computed);
    assert_eq!(report.node("d").unwrap().status, NodeStatus::Skipped);
    assert_eq!(report.failed(), 1);
    assert_eq!(memo.len(), 2, "a failure is never remembered");
}

#[test]
fn work_that_a_node_emits_is_done_and_its_consumer_waits_for_it() {
    let g = TaskGraph::new()
        .with(NodeSpec::new("plan", NodeKind::Plan))
        .with(NodeSpec::new("use", NodeKind::Op).dep("plan"));
    let mut memo = Memo::new();
    let report = run(g, &mut memo, |spec, inputs| {
        if spec.key.as_str() == "plan" {
            let work = NodeSpec::new("work", NodeKind::Op).op(b"work".to_vec());
            (
                NodeOutput::pass(vec![]),
                Some(Expansion::new(vec![work], "work")),
            )
        } else {
            hash(spec, inputs)
        }
    });
    assert!(report.ok(), "{report:?}");
    assert_eq!(report.expanded(), 1);
    let plan = report.node("plan").unwrap();
    assert_eq!(plan.outputs, vec![Digest::of(b"work")]);
    let mut fed = Vec::new();
    fed.extend_from_slice(Digest::of(b"work").as_bytes());
    assert_eq!(report.node("use").unwrap().outputs, vec![Digest::of(&fed)]);
}

#[test]
fn an_expansion_loop_is_stopped_rather_than_left_to_burn_tokens() {
    let graph = TaskGraph::new().with(NodeSpec::new("spin", NodeKind::Op).op(b"loop".to_vec()));
    let mut calls = 0;
    let err = try_run(graph, &mut Memo::new(), 3, |_, _| {
        calls += 1;
        (
            NodeOutput::pass(vec![]),
            Some(Expansion::new(
                vec![NodeSpec::new("again", NodeKind::Op).op(b"loop".to_vec())],
                "again",
            )),
        )
    })
    .expect_err("an endless repair loop must stop the run");
    assert!(
        matches!(err, EngineError::ExpansionDepth(_)),
        "expected a depth limit, got {}",
        err.message()
    );
    assert!(
        calls <= 4,
        "the loop should have been cut off quickly, ran {calls} times"
    );
}

#[test]
fn an_expansion_that_does_not_contain_its_substitute_is_rejected() {
    let graph = TaskGraph::new().with(NodeSpec::new("n", NodeKind::Plan).op(b"x".to_vec()));
    let err = try_run(graph, &mut Memo::new(), 4, |_, _| {
        (
            NodeOutput::pass(vec![Digest::of(b"x")]),
            Some(Expansion::new(
                vec![NodeSpec::new("real", NodeKind::Op).op(b"plain:real".to_vec())],
                "does-not-exist",
            )),
        )
    })
    .expect_err("a malformed expansion must not be spliced in");
    assert!(matches!(err, EngineError::BadExpansion { .. }));
}

#[test]
fn what_a_journal_holds_is_not_done_again() {
    let g = diamond();
    let plan = g.validate().ok().unwrap();
    let mut st = RunState::new(g, plan, 4);
    let a = st.next_dispatch().unwrap();
    assert_eq!(a.spec.key.as_str(), "a");
    let effect = st.resume(
        &a.spec,
        a.action,
        vec![Digest::of(b"a")],
        Default::default(),
        None,
        1,
    );
    assert!(matches!(effect, Ok(Effect::Settled(ref skipped)) if skipped.is_empty()));
    let b = st.next_dispatch().unwrap();
    assert_eq!(b.inputs, vec![Digest::of(b"a")]);
    st.skip_leftovers(2);
    let report = st.into_report(
        "t",
        2,
        Eta {
            known_ms: 0,
            unknown_nodes: 0,
        },
    );
    assert_eq!(report.node("a").unwrap().status, NodeStatus::Resumed);
    assert_eq!(report.hits(), 1);
}

#[test]
fn the_cost_walk_asks_for_every_node_and_follows_the_hits() {
    let g = chain();
    let plan = g.validate().ok().unwrap();
    let st = RunState::new(g, plan, 4);
    let mut walk = CostWalk::new();
    let mut asked = Vec::new();
    while let Some(q) = walk.next(&st) {
        asked.push((q.key.as_str().to_string(), q.action.is_some()));
        let hit = if q.key.as_str() == "a" {
            Some(vec![Digest::of(b"a")])
        } else {
            None
        };
        walk.answer(q, hit, Some(70), 0);
    }
    assert_eq!(
        asked,
        vec![
            ("a".to_string(), true),
            ("b".to_string(), true),
            ("c".to_string(), false),
        ],
        "what reads a miss cannot be looked up"
    );
    assert_eq!(walk.costs.get("a"), Some(&NodeCost::Done));
    assert_eq!(walk.costs.get("b"), Some(&NodeCost::Known(70)));
    assert_eq!(walk.costs.get("c"), Some(&NodeCost::Known(70)));
}

#[test]
fn jobs_are_listed_until_they_finish() {
    let mut jobs = JobRegistry::new();
    let a = jobs.register(&NodeKey::new("a"));
    let b = jobs.register(&NodeKey::new("b"));
    assert_ne!(a, b);
    assert!(jobs.cancel(a));
    jobs.finish(a);
    assert!(!jobs.cancel(a));
    assert_eq!(jobs.live().len(), 1);
    assert_eq!(jobs.live()[0].1.as_str(), "b");
}

#[test]
fn slow_kinds_and_slow_histories_are_jobs() {
    let cfg = EngineConfig::for_cpus(4);
    assert!(cfg.is_job(NodeKind::Render, None));
    assert!(!cfg.is_job(NodeKind::Op, None));
    assert!(cfg.is_job(NodeKind::Op, Some(cfg.job_threshold_ms + 1)));
    assert!(cfg.lane_cap(&Lane::new("elsewhere")) == cfg.default_lane_cap);
}

#[test]
fn a_dependency_that_is_listed_twice_is_one_dependency() {
    let mut b = NodeSpec::new("b", NodeKind::Op);
    b.deps = vec![NodeKey::new("a"), NodeKey::new("a")];
    let g = TaskGraph::new().with(NodeSpec::source("a", Digest::of(b"a"))).with(b);
    let plan = g.validate().ok().unwrap();
    assert_eq!(plan.topo, vec![NodeKey::new("a"), NodeKey::new("b")]);
    assert_eq!(plan.indegree.get("b"), Some(&1));
    let mut st = RunState::new(g, plan, 4);
    let a = st.next_dispatch().unwrap();
    let one = Digest::of(b"one");
    assert!(st.hit(&a.spec, a.action, vec![one], 0, None, 0).is_ok());
    assert_eq!(st.next_dispatch().unwrap().inputs, vec![one, one]);
}

#[test]
fn the_step_that_is_named_lies_on_the_cycle() {
    let step = |k: &str, d: &str| NodeSpec::new(k, NodeKind::Op).dep(d);
    let mut g = TaskGraph::new();
    for (k, d) in [("a", "b"), ("b", "c"), ("c", "b")] {
        g.add(step(k, d)).unwrap();
    }
    match g.validate() {
        Err(GraphError::Cycle(k)) => assert_eq!(k.as_str(), "b"),
        _ => panic!("b and c wait for each other"),
    }
    let mut g = TaskGraph::new();
    match g.add_batch(vec![step("a", "b"), step("b", "c"), step("c", "b")]) {
        Err(GraphError::Cycle(k)) => assert_eq!(k.as_str(), "b"),
        _ => panic!("b and c wait for each other"),
    }
    assert_eq!(g.len(), 0);
}

#[test]
fn a_batch_that_names_a_step_twice_is_refused() {
    let mut g = chain();
    let step = |k: &str| NodeSpec::new(k, NodeKind::Op).dep("a");
    match g.add_batch(vec![step("x"), step("y"), step("x")]) {
        Err(GraphError::Duplicate(k)) => assert_eq!(k.as_str(), "x"),
        _ => panic!("x is there twice"),
    }
    assert_eq!(g.len(), 3, "a refused batch leaves the graph as it was");
}
