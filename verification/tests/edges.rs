//! The corners: refusals in words, and the small functions that the rest stands on.

use flash::adapter::bad_op;
use flash::adapter::unknown;
use flash::adapter::AdapterError;
use flash::adapter::Artifact;
use flash::code::ladder::summarise_test_failure;
use flash::code::CodeAdapter;
use flash::engine::graph::GraphError;
use flash::engine::graph::NodeSpec;
use flash::engine::graph::TaskGraph;
use flash::engine::scheduler::EngineError;
use flash::identity::Attribution;
use flash::identity::Digest;
use flash::identity::Lane;
use flash::identity::NodeKey;
use flash::identity::NodeKind;
use flash::identity::NodeOutput;
use flash::orchestrator::exec::pack_budget;
use flash::orchestrator::model::exit_error;
use flash::orchestrator::model::read_reply;
use flash::orchestrator::model::ModelError;
use flash::orchestrator::model::ModelResponse;
use flash::server::cancel_outcome;
use flash::server::content_outcome;
use flash::server::Outcome;
use flash::splice::splice;
use flash::splice::Edit;
use flash::splice::SpliceError;
use flash::store::journal::sanitize;
use flash::text::trim;
use flash::wording::count_words;
use flash::wording::identifiers;
use flash::wording::parse_number;
use flash::wording::replace_all;
use flash::wording::tail_after_last;
use flash::wording::to_lower;
use flash::wording::to_upper;

#[test]
fn engine_errors_read_as_what_went_wrong() {
    let graph = EngineError::Graph(GraphError::SelfDep(NodeKey::new("a")));
    assert_eq!(graph.message(), "node a depends on itself");
    assert_eq!(EngineError::Store("disk full".to_string()).message(), "disk full");
    let panicked = EngineError::Panicked("boom".to_string());
    assert_eq!(panicked.message(), "a node task panicked: boom");
}

#[test]
fn adapter_errors_read_as_what_went_wrong() {
    assert_eq!(AdapterError::Parse("no grammar".to_string()).message(), "no grammar");
    assert_eq!(AdapterError::Io("gone".to_string()).message(), "gone");
    assert_eq!(bad_op("why").message(), "op rejected: why");
    assert_eq!(unknown("x").message(), "no entity called x");
}

#[test]
fn a_file_that_no_grammar_handles_does_not_parse() {
    let e = CodeAdapter::new().outline(&Artifact::new("notes.txt", b"hi".to_vec())).err().unwrap();
    assert!(matches!(e, AdapterError::Parse(_)));
    assert_eq!(e.message(), "no grammar handles notes.txt");
}

#[test]
fn an_edit_outside_the_text_is_refused() {
    let e = splice(b"abc", vec![Edit { start: 2, end: 9, text: vec![] }]).err().unwrap();
    assert!(matches!(e, SpliceError::Outside));
}

#[test]
fn model_errors_read_as_what_went_wrong() {
    let e = read_reply("not json").err().unwrap();
    assert!(matches!(e, ModelError::NotJson(_)));
    assert!(e.message().starts_with("model returned something that is not valid json: "));
    let e = exit_error("llm", "exit status: 2", "bad key");
    assert!(matches!(e, ModelError::Call(_)));
    assert!(e.message().starts_with("model call failed: "));
    assert!(e.message().contains("bad key"));
}

#[test]
fn a_reply_counts_a_token_for_every_four_bytes() {
    let r = ModelResponse::from_json("{\"a\": [1, 2]}");
    assert_eq!(r.output_tokens, 3);
    assert_eq!(r.input_tokens, 0);
    assert_eq!(r.text, "{\"a\": [1, 2]}");
}

#[test]
fn outcomes_are_results_where_there_is_something_to_say() {
    assert!(matches!(cancel_outcome(true), Outcome::Result(_)));
    assert!(matches!(content_outcome("ab", Some("text")), Outcome::Result(_)));
    assert!(matches!(content_outcome("ab", None), Outcome::Error(_, _)));
}

#[test]
fn test_failures_are_told_from_the_noise() {
    let out = "running 1 test\ntest a::b ... FAILED\n\nthread 'a::b' panicked at src/lib.rs:3:5:\n";
    let d = summarise_test_failure(out, "assertion `left == right` failed\nwarning: x\n", "tests");
    let said: Vec<&str> = d.iter().map(|d| d.message.as_str()).collect();
    assert_eq!(
        said,
        vec![
            "test a::b ... FAILED",
            "thread 'a::b' panicked at src/lib.rs:3:5:",
            "assertion `left == right` failed"
        ]
    );
    assert!(d.iter().all(|d| d.code == "test-failed"));
    let d = summarise_test_failure("noise\n", "", "the suite");
    assert_eq!(d.len(), 1);
    assert_eq!(d[0].message, "the suite failed without a parseable assertion");
}

#[test]
fn a_batch_joins_in_dependency_order_or_not_at_all() {
    let mut g = TaskGraph::new().with(NodeSpec::new("src", NodeKind::Data));
    let batch = vec![
        NodeSpec::new("b", NodeKind::Op).dep("a"),
        NodeSpec::new("a", NodeKind::Op).dep("src"),
    ];
    let added = g.add_batch(batch).ok().unwrap();
    assert_eq!(added.iter().map(|k| k.as_str()).collect::<Vec<_>>(), vec!["a", "b"]);
    let e = g
        .add_batch(vec![
            NodeSpec::new("c", NodeKind::Op).dep("d"),
            NodeSpec::new("d", NodeKind::Op).dep("c"),
        ])
        .err()
        .unwrap();
    assert!(matches!(e, GraphError::Cycle(_)));
    assert_eq!(g.len(), 3, "what is refused leaves nothing behind");
}

#[test]
fn outputs_lanes_and_digests_are_what_they_are_made_of() {
    let spec = NodeSpec::new("n", NodeKind::Op).lane(Lane::cpu());
    assert_eq!(spec.lane.as_str(), "cpu");
    let a = Attribution { decode_ms: 3, ..Attribution::default() };
    assert_eq!(NodeOutput::pass(vec![]).with_attribution(a).attribution.decode_ms, 3);
    assert_eq!(Digest::from_bytes([0u8; 32]).hex(), "0".repeat(64));
}

#[test]
fn names_are_safe_as_file_names() {
    assert_eq!(sanitize("task/1: a-b_c"), "task_1__a-b_c");
}

#[test]
fn a_pack_has_the_budget_that_was_asked_for() {
    assert_eq!(pack_budget(10, 4), 10);
    assert_eq!(pack_budget(3, 4), 3);
    assert_eq!(pack_budget(0, 4), 1);
    assert_eq!(pack_budget(0, 0), 0);
}

#[test]
fn words_are_cut_and_counted() {
    assert_eq!(trim("  a b \n"), "a b");
    assert_eq!(count_words(" one  two\nthree "), 3);
    assert_eq!(to_lower("AbC"), "abc");
    assert_eq!(to_upper("sum"), "SUM");
    assert_eq!(identifiers("foo(bar_1, foo)"), vec!["foo", "bar_1", "foo"]);
    assert_eq!(parse_number("42", 100), Some(42));
    assert_eq!(parse_number("420", 100), None);
    assert_eq!(parse_number("4x", 100), None);
    assert_eq!(replace_all("a.b.c", ".", "::"), "a::b::c");
    assert_eq!(tail_after_last("a/b/c", '/'), "c");
}
