use flash::adapter::Adapter;
use flash::adapter::AdapterError;
use flash::adapter::Artifact;
use flash::adapter::Delta;
use flash::adapter::Field;
use flash::adapter::ImpactSet;
use flash::adapter::Op;
use flash::adapter::Outline;
use flash::adapter::Pack;
use flash::adapter::PackRequest;
use flash::adapter::RungOutcome;
use flash::adapter::VerifyCtx;
use flash::adapter::VerifyRung;
use flash::code::diff::apply_unified;
use flash::code::impact::analyse;
use flash::code::index::RepoIndex;
use flash::code::ladder::mentions_word;
use flash::code::ladder::parse_cargo_json;
use flash::code::ladder::FullSuite;
use flash::code::ladder::ImpactedTests;
use flash::code::ladder::Lint;
use flash::code::ladder::Reparse;
use flash::code::ladder::Step;
use flash::code::ladder::ToolRun;
use flash::code::ladder::ToolSpec;
use flash::code::ladder::Typecheck;
use flash::code::ladder_for;
use flash::code::lang::LangSpec;
use flash::code::ops::apply;
use flash::code::ops::MAX_OP_LINES;
use flash::code::pack::build;
use flash::code::pack::DEFAULT_BUDGET_CHARS;
use flash::code::symbols::outline;
use flash::code::syntax::parse;
use flash::code::syntax::syntax_errors;
use flash::code::CodeAdapter;
use flash::code::ToolConfig;
use flash::identity::Digest;

// ---- unified diffs -------------------------------------------------------------------------

const SRC: &str = "fn one() {\n    1\n}\n\nfn two() {\n    2\n}\n";

#[test]
fn a_well_formed_diff_applies() {
    let diff = "--- a/x.rs\n+++ b/x.rs\n@@ -5,3 +5,3 @@\n fn two() {\n-    2\n+    22\n }\n";
    let out = apply_unified(SRC, diff).unwrap();
    assert!(out.contains("    22"), "{out}");
    assert!(out.contains("fn one()"), "{out}");
}

#[test]
fn line_numbers_may_be_wrong_as_long_as_context_is_right() {
    // Models routinely miscount. Context is the real anchor.
    let diff = "@@ -99,3 +99,3 @@\n fn two() {\n-    2\n+    22\n }\n";
    let out = apply_unified(SRC, diff).unwrap();
    assert!(out.contains("    22"), "{out}");
}

#[test]
fn context_that_does_not_exist_is_refused() {
    let diff = "@@ -1,3 +1,3 @@\n fn three() {\n-    3\n+    33\n }\n";
    let err = apply_unified(SRC, diff).unwrap_err();
    assert!(err.message().contains("context not found"), "{}", err.message());
}

#[test]
fn several_hunks_apply_without_shifting_each_other() {
    let diff = "@@ -1,3 +1,3 @@\n fn one() {\n-    1\n+    11\n }\n@@ -5,3 +5,3 @@\n fn two() {\n-    2\n+    22\n }\n";
    let out = apply_unified(SRC, diff).unwrap();
    assert!(out.contains("    11"), "{out}");
    assert!(out.contains("    22"), "{out}");
}

#[test]
fn an_empty_diff_is_an_error_not_a_silent_noop() {
    assert!(apply_unified(SRC, "").is_err());
}

#[test]
fn trailing_newline_is_preserved() {
    let diff = "@@ -1,3 +1,3 @@\n fn one() {\n-    1\n+    11\n }\n";
    let out = apply_unified(SRC, diff).unwrap();
    assert!(out.ends_with('\n'));
}

#[test]
fn a_hunk_goes_to_the_context_nearest_its_line_number() {
    let src = "a\nx\na\nx\na\n";
    let diff = "@@ -4,1 +4,1 @@\n-x\n+y\n";
    assert_eq!(apply_unified(src, diff).unwrap(), "a\nx\na\ny\na\n");
    let diff = "@@ -2,1 +2,1 @@\n-x\n+y\n";
    assert_eq!(apply_unified(src, diff).unwrap(), "a\ny\na\nx\na\n");
}

// ---- impact --------------------------------------------------------------------------------

fn outline_of(code: &str) -> Outline {
    let spec = LangSpec::for_path("x.rs").unwrap();
    outline(&spec, &Artifact::new("x.rs", code.as_bytes().to_vec())).unwrap()
}

const CHAIN: &str = r#"
fn core() -> u32 { 1 }

fn wrapper() -> u32 { core() + 1 }

fn unrelated() -> u32 { 99 }

#[test]
fn tests_wrapper() { assert_eq!(wrapper(), 2); }

#[test]
fn tests_unrelated() { assert_eq!(unrelated(), 99); }
"#;

#[test]
fn impact_reaches_tests_through_a_call_chain() {
    let o = outline_of(CHAIN);
    let delta = Delta {
        changed: vec!["fn:core".into()],
        ..Default::default()
    };
    let impact = analyse(&o, &delta);
    assert!(
        impact.tests.iter().any(|t| t == "tests_wrapper"),
        "the test two hops away must be selected: {:?}",
        impact.tests
    );
}

#[test]
fn impact_leaves_unrelated_tests_alone() {
    let o = outline_of(CHAIN);
    let delta = Delta {
        changed: vec!["fn:core".into()],
        ..Default::default()
    };
    let impact = analyse(&o, &delta);
    assert!(
        !impact.tests.iter().any(|t| t == "tests_unrelated"),
        "an unrelated test must not be dragged in: {:?}",
        impact.tests
    );
}

#[test]
fn an_empty_delta_impacts_nothing() {
    let o = outline_of(CHAIN);
    assert!(analyse(&o, &Delta::default()).is_empty());
}

#[test]
fn a_cycle_in_the_reference_graph_terminates() {
    let o = outline_of("fn a() { b(); }\nfn b() { a(); }\n");
    let delta = Delta {
        changed: vec!["fn:a".into()],
        ..Default::default()
    };
    let impact = analyse(&o, &delta);
    assert!(impact.entities.contains(&"fn:b".to_string()));
}

#[test]
fn a_removed_entity_is_not_offered_up_for_checking() {
    let o = outline_of("fn stays() {}\n");
    let delta = Delta {
        removed: vec!["fn:gone".into()],
        ..Default::default()
    };
    let impact = analyse(&o, &delta);
    assert!(
        !impact.entities.contains(&"fn:gone".to_string()),
        "an entity that no longer exists cannot be re-verified"
    );
}

// ---- the index over many files -------------------------------------------------------------

/// Three files, one call chain, and the test three hops from the change.
fn three_files() -> Vec<(Artifact, Outline)> {
    let adapter = CodeAdapter::new();
    let files = [
        ("src/core.rs", "pub fn core() -> u32 {\n    1\n}\n"),
        (
            "src/mid.rs",
            "use crate::core::core;\n\npub fn wrapper() -> u32 {\n    core() + 1\n}\n",
        ),
        (
            "src/tests.rs",
            "use crate::mid::wrapper;\n\n#[test]\nfn checks_wrapper() {\n    assert_eq!(wrapper(), 2);\n}\n\n#[test]\nfn checks_nothing() {\n    assert!(true);\n}\n",
        ),
    ];
    files
        .iter()
        .map(|(p, body)| {
            let a = Artifact::new(p, body.as_bytes().to_vec());
            let o = adapter.outline(&a).unwrap();
            (a, o)
        })
        .collect()
}

#[test]
fn a_change_reaches_a_test_three_files_away() {
    let index = RepoIndex::build(&three_files());
    let tests = index.reachable_tests(&vec!["fn:core".to_string()]);
    assert!(
        tests.contains(&"checks_wrapper".to_string()),
        "the test two hops and two files away must be selected: {tests:?}"
    );
}

#[test]
fn per_file_analysis_cannot_find_it_which_is_the_whole_point() {
    // The same change, through the single-file path, selects nothing. This test exists so the
    // difference is a fact in the suite rather than a claim in a readme.
    let adapter = CodeAdapter::new();
    let files = three_files();
    let (_, core_outline) = &files[0];
    let delta = Delta {
        changed: vec!["fn:core".into()],
        ..Default::default()
    };
    let per_file = adapter.impact(core_outline, &delta);
    assert!(
        per_file.tests.is_empty(),
        "single file impact should find nothing here: {:?}",
        per_file.tests
    );

    let index = RepoIndex::build(&files);
    assert!(!index.impact(&delta).tests.is_empty());
}

#[test]
fn an_unrelated_test_is_not_dragged_in() {
    let index = RepoIndex::build(&three_files());
    let tests = index.reachable_tests(&vec!["fn:core".to_string()]);
    assert!(!tests.contains(&"checks_nothing".to_string()), "{tests:?}");
}

#[test]
fn impact_names_the_files_worth_rechecking() {
    let index = RepoIndex::build(&three_files());
    let delta = Delta {
        changed: vec!["fn:core".into()],
        ..Default::default()
    };
    let units = index.impact(&delta).units;
    assert!(units.iter().any(|u| u.contains("mid.rs")), "{units:?}");
    assert!(units.iter().any(|u| u.contains("tests.rs")), "{units:?}");
}

#[test]
fn the_index_is_identified_by_its_inputs() {
    let a = RepoIndex::build(&three_files());
    let b = RepoIndex::build(&three_files());
    assert_eq!(a.digest(), b.digest(), "same files, same index identity");

    let adapter = CodeAdapter::new();
    let mut files = three_files();
    let changed = Artifact::new(
        "src/core.rs",
        b"pub fn core() -> u32 {\n    2\n}\n".to_vec(),
    );
    let outline = adapter.outline(&changed).unwrap();
    files[0] = (changed, outline);
    assert_ne!(
        a.digest(),
        RepoIndex::build(&files).digest(),
        "changed content must change the index identity"
    );
}

#[test]
fn a_stale_index_reports_itself_as_stale() {
    let files = three_files();
    let index = RepoIndex::build(&files);
    let current: Vec<(String, Digest)> = files
        .iter()
        .map(|(a, _)| (a.path.clone(), a.digest()))
        .collect();
    assert!(index.is_current(&current));

    let mut moved = current.clone();
    moved[0].1 = Digest::of(b"something else");
    assert!(!index.is_current(&moved));
}

#[test]
fn a_cycle_between_files_terminates() {
    let adapter = CodeAdapter::new();
    let files: Vec<(Artifact, Outline)> = [
        ("a.rs", "pub fn ping() {\n    pong();\n}\n"),
        ("b.rs", "pub fn pong() {\n    ping();\n}\n"),
    ]
    .iter()
    .map(|(p, b)| {
        let a = Artifact::new(p, b.as_bytes().to_vec());
        let o = adapter.outline(&a).unwrap();
        (a, o)
    })
    .collect();

    let index = RepoIndex::build(&files);
    let reached = index.reachable(&vec!["fn:ping".to_string()]);
    assert!(reached.contains(&"fn:pong".to_string()));
}

#[test]
fn an_empty_delta_reaches_nothing() {
    let index = RepoIndex::build(&three_files());
    assert!(index.impact(&Delta::default()).tests.is_empty());
}

// ---- the ladder ----------------------------------------------------------------------------

fn ctx_for<'a>(
    artifact: &'a Artifact,
    outline: &'a Outline,
    delta: &'a Delta,
    impact: &'a ImpactSet,
) -> VerifyCtx<'a> {
    VerifyCtx {
        artifact,
        outline,
        delta,
        impact,
        workspace: None,
    }
}

fn rust() -> LangSpec {
    LangSpec::for_path("x.rs").unwrap()
}

/// What a rung that runs a tool comes to, where each run of it ends the same way.
fn settled(first: Step, then: impl Fn(&Vec<ToolRun>) -> Step, run: impl Fn() -> ToolRun) -> RungOutcome {
    let mut runs: Vec<ToolRun> = Vec::new();
    let mut step = first;
    loop {
        match step {
            Step::Done(o) => return o,
            Step::Run(_) => {
                runs.push(run());
                step = then(&runs);
            }
        }
    }
}

#[test]
fn rung_zero_passes_clean_code_and_locates_breakage() {
    let good = Artifact::new("x.rs", b"fn a() {}\n".to_vec());
    let good_outline = outline(&rust(), &good).unwrap();
    let (d, i) = (Delta::default(), ImpactSet::default());
    let rung = Reparse { spec: rust() };
    assert!(rung.check(&ctx_for(&good, &good_outline, &d, &i)).passed);

    let bad = Artifact::new("x.rs", b"fn a() {\n\nfn b( {\n".to_vec());
    let bad_outline = outline(&rust(), &bad).unwrap();
    let outcome = rung.check(&ctx_for(&bad, &bad_outline, &d, &i));
    assert!(!outcome.passed);
    assert!(
        outcome.diagnostics.iter().any(|d| d.line.is_some()),
        "a syntax diagnostic should carry a line number"
    );
}

#[test]
fn lint_catches_a_reference_to_something_the_edit_deleted() {
    // No hand-injected edges: this is the outline as it really is after the deletion, which is
    // the only state this rung ever sees in production.
    let art = Artifact::new("x.rs", b"fn caller() { helper(); }\n".to_vec());
    let o = outline(&rust(), &art).unwrap();
    let delta = Delta {
        removed: vec!["fn:helper".into()],
        ..Default::default()
    };
    let impact = ImpactSet::default();
    let outcome = Lint { spec: rust() }.check(&ctx_for(&art, &o, &delta, &impact));
    assert!(!outcome.passed);
    assert_eq!(outcome.diagnostics[0].code, "dangling-reference");
}

#[test]
fn a_dangling_reference_is_matched_on_whole_identifiers() {
    // Deleting `parse` must not accuse `parser` of referring to it.
    let art = Artifact::new("x.rs", b"fn caller() { parser(); }\n".to_vec());
    let o = outline(&rust(), &art).unwrap();
    let delta = Delta {
        removed: vec!["fn:parse".into()],
        ..Default::default()
    };
    let impact = ImpactSet::default();
    let outcome = Lint { spec: rust() }.check(&ctx_for(&art, &o, &delta, &impact));
    assert!(outcome.passed, "{:?}", outcome.diagnostics);
    assert!(mentions_word("let x = parse();", "parse"));
    assert!(!mentions_word("let x = parser();", "parse"));
    assert!(!mentions_word("let reparse = 1;", "parse"));
}

#[test]
fn lint_stays_quiet_about_re_exports_and_trait_imports() {
    // The two shapes that made the old unused-import heuristic unusable. A rung 1 diagnostic
    // costs two repair attempts, so silence here is the feature.
    let rung = Lint { spec: rust() };
    let (d, i) = (Delta::default(), ImpactSet::default());

    for source in [
        "pub use crate::thing::Thing;\nfn a() { let _ = 1; }\n",
        "use std::io::Write;\nfn a(f: &mut std::fs::File) { let _ = f.write_all(b\"x\"); }\n",
    ] {
        let art = Artifact::new("x.rs", source.as_bytes().to_vec());
        let o = outline(&rust(), &art).unwrap();
        let outcome = rung.check(&ctx_for(&art, &o, &d, &i));
        assert!(
            outcome.passed,
            "rung 1 fired on clean code: {:?}",
            outcome.diagnostics
        );
    }
}

#[test]
fn two_trait_impls_of_the_same_method_are_distinct_entities() {
    // `impl Debug for T` and `impl Display for T` both define `fmt`. If they share an id, an
    // op naming that id is ambiguous and rung 1 reports a duplicate definition that is not one.
    let art = Artifact::new(
        "x.rs",
        b"struct T;\nimpl std::fmt::Debug for T { fn fmt(&self) {} }\nimpl std::fmt::Display for T { fn fmt(&self) {} }\n"
            .to_vec(),
    );
    let o = outline(&rust(), &art).unwrap();
    let fmts: Vec<String> = o
        .ids()
        .into_iter()
        .filter(|id| id.ends_with("fmt"))
        .collect();
    assert_eq!(fmts.len(), 2, "{fmts:?}");
    assert_ne!(fmts[0], fmts[1], "both impls collapsed to one id: {fmts:?}");

    let (d, i) = (Delta::default(), ImpactSet::default());
    let outcome = Lint { spec: rust() }.check(&ctx_for(&art, &o, &d, &i));
    assert!(
        outcome.passed,
        "distinct impls must not read as duplicates: {:?}",
        outcome.diagnostics
    );
}

#[test]
fn an_external_rung_without_a_workspace_reports_unavailable_not_pass() {
    let art = Artifact::new("x.rs", b"fn a() {}\n".to_vec());
    let o = outline(&rust(), &art).unwrap();
    let (d, i) = (Delta::default(), ImpactSet::default());
    let rung = Typecheck {
        tool: ToolSpec::rust_typecheck(),
        expected_ms: 4000,
    };
    let ctx = ctx_for(&art, &o, &d, &i);
    let outcome = match rung.step(&ctx, &vec![]) {
        Step::Done(o) => o,
        Step::Run(_) => panic!("there is nowhere to run it"),
    };
    assert!(outcome.unavailable);
    assert!(!outcome.passed, "unavailable must never read as a pass");
}

#[test]
fn a_missing_toolchain_is_unavailable_rather_than_a_failure() {
    let art = Artifact::new("x.rs", b"fn a() {}\n".to_vec());
    let o = outline(&rust(), &art).unwrap();
    let (d, i) = (Delta::default(), ImpactSet::default());
    let rung = Typecheck {
        tool: ToolSpec::new("definitely-not-a-real-program-xyz", &[]),
        expected_ms: 10,
    };
    let ctx = VerifyCtx {
        artifact: &art,
        outline: &o,
        delta: &d,
        impact: &i,
        workspace: Some("somewhere"),
    };
    let outcome = settled(
        rung.step(&ctx, &vec![]),
        |runs| rung.step(&ctx, runs),
        || ToolRun::Broken("no such program".to_string()),
    );
    assert!(outcome.unavailable, "{outcome:?}");
}

#[test]
fn cargo_json_becomes_structured_diagnostics() {
    let line = r#"{"reason":"compiler-message","message":{"level":"error","code":{"code":"E0308"},"message":"mismatched types","spans":[{"line_start":12}]}}"#;
    let diags = parse_cargo_json(line);
    assert_eq!(diags.len(), 1);
    assert_eq!(diags[0].code, "E0308");
    assert_eq!(diags[0].line, Some(12));
}

#[test]
fn cargo_warnings_are_not_reported_as_errors() {
    let line = r#"{"reason":"compiler-message","message":{"level":"warning","code":{"code":"unused_variables"},"message":"unused","spans":[]}}"#;
    assert!(parse_cargo_json(line).is_empty());
}

#[test]
fn an_empty_delta_means_nothing_to_run() {
    let art = Artifact::new("x.rs", b"fn a() {}\n".to_vec());
    let o = outline(&rust(), &art).unwrap();
    let d = Delta::default();
    let i = ImpactSet::default();
    let rung = ImpactedTests {
        tool: ToolSpec::rust_test(),
        expected_ms: 3000,
        fallback_to_all_above: 10,
    };
    let ctx = VerifyCtx {
        artifact: &art,
        outline: &o,
        delta: &d,
        impact: &i,
        workspace: Some("somewhere"),
    };
    match rung.step(&ctx, &vec![]) {
        Step::Done(o) => assert!(o.passed),
        Step::Run(_) => panic!("there is nothing to run"),
    }
}

#[test]
fn a_change_that_selected_no_tests_falls_back_to_the_suite() {
    // The safety property. Selection is an approximation that was measured under-selecting on
    // a real repository, so an empty selection against a real delta must not read as a pass.
    // The program cannot be started, so the rung reports unavailable, which proves it tried to
    // run something rather than passing for free.
    let art = Artifact::new("x.rs", b"fn a() {}\n".to_vec());
    let o = outline(&rust(), &art).unwrap();
    let d = Delta {
        changed: vec!["fn:a".into()],
        ..Default::default()
    };
    let i = ImpactSet::default();
    let rung = ImpactedTests {
        tool: ToolSpec::new("definitely-not-a-real-program-xyz", &[]),
        expected_ms: 3000,
        fallback_to_all_above: 10,
    };
    let ctx = VerifyCtx {
        artifact: &art,
        outline: &o,
        delta: &d,
        impact: &i,
        workspace: Some("somewhere"),
    };
    let outcome = settled(
        rung.step(&ctx, &vec![]),
        |runs| rung.step(&ctx, runs),
        || ToolRun::Broken("no such program".to_string()),
    );
    assert!(
        !outcome.passed,
        "an empty selection against a real change must never pass for free"
    );
    assert!(outcome.unavailable, "{outcome:?}");
}

#[test]
fn a_suite_that_fails_fails_the_rung() {
    let art = Artifact::new("x.rs", b"fn a() {}\n".to_vec());
    let o = outline(&rust(), &art).unwrap();
    let (d, i) = (Delta::default(), ImpactSet::default());
    let rung = FullSuite {
        tool: ToolSpec::rust_test(),
        expected_ms: 3000,
    };
    let ctx = VerifyCtx {
        artifact: &art,
        outline: &o,
        delta: &d,
        impact: &i,
        workspace: Some("somewhere"),
    };
    let run = |success: bool| {
        settled(
            rung.step(&ctx, &vec![]),
            |runs| rung.step(&ctx, runs),
            move || ToolRun::Ended {
                success,
                stdout: "test a ... FAILED\n".to_string(),
                stderr: String::new(),
            },
        )
    };
    assert!(run(true).passed);
    let failed = run(false);
    assert!(!failed.passed && !failed.unavailable);
    assert!(!failed.diagnostics.is_empty());
}

// ---- languages -----------------------------------------------------------------------------

#[test]
fn paths_route_to_the_right_grammar() {
    assert_eq!(LangSpec::for_path("src/lib.rs").unwrap().name, "rust");
    assert_eq!(LangSpec::for_path("app/main.py").unwrap().name, "python");
    assert_eq!(
        LangSpec::for_path("web/App.tsx").unwrap().name,
        "typescript"
    );
    assert!(LangSpec::for_path("README.md").is_none());
    assert!(LangSpec::for_path("Makefile").is_none());
}

#[test]
fn every_grammar_loads() {
    for path in ["a.rs", "a.py", "a.ts"] {
        let spec = LangSpec::for_path(path).unwrap();
        if let Err(e) = parse(&spec, &Artifact::new(path, Vec::new())) {
            panic!("{} grammar failed to load: {}", spec.name, e.message());
        }
    }
}

// ---- the adapter ---------------------------------------------------------------------------

const WRAPPED: &str = r#"use std::fmt;

fn core() -> u32 { 1 }

fn wrapper() -> u32 { core() + 1 }

#[test]
fn checks_wrapper() { assert_eq!(wrapper(), 2); }
"#;

/// An op whose fields are all texts.
fn op(fields: &[(&str, &str)]) -> Op {
    Op::new(
        fields
            .iter()
            .map(|(k, v)| (k.to_string(), Field::Text(v.to_string())))
            .collect(),
    )
}

#[test]
fn the_adapter_routes_only_code_files() {
    let a = CodeAdapter::new();
    assert!(a.handles("src/lib.rs"));
    assert!(a.handles("app/main.py"));
    assert!(!a.handles("docs/report.md"));
}

#[test]
fn op_schema_is_valid_json_schema_shaped() {
    let schema: serde_json::Value = serde_json::from_str(CodeAdapter::new().op_schema()).unwrap();
    assert_eq!(schema["type"], "array");
    let variants = schema["items"]["oneOf"].as_array().unwrap();
    assert!(variants.len() >= 7, "expected the full op vocabulary");
    assert!(
        variants
            .iter()
            .any(|v| v["properties"]["op"]["const"] == "unified_diff"),
        "the fallback must be part of the schema so its rate is measurable"
    );
}

#[test]
fn ladder_is_ordered_cheapest_first_and_ends_once_per_task() {
    let rungs = CodeAdapter::new().ladder();
    let levels: Vec<u8> = rungs.iter().map(|r| r.level()).collect();
    assert_eq!(levels, vec![0, 1, 2, 3, 4]);
    let times: Vec<u64> = rungs.iter().map(|r| r.expected_ms()).collect();
    // Typechecking and the impacted tests overlap in cost, so the invariant is not a strict
    // ordering. What must hold is the gap the ladder exists to exploit: the local rungs are
    // orders of magnitude cheaper than anything that shells out, and the full suite is the most
    // expensive.
    assert!(
        times[1] * 10 < times[2],
        "the local rungs must be far cheaper than the toolchain ones: {times:?}"
    );
    assert_eq!(
        times.iter().max(),
        times.last(),
        "the full suite must be the most expensive rung: {times:?}"
    );
    assert!(rungs.last().unwrap().once_per_task());
}

#[test]
fn an_edit_flows_through_apply_then_impact() {
    let adapter = CodeAdapter::new();
    let file = Artifact::new("src/lib.rs", WRAPPED.as_bytes().to_vec());
    let applied = adapter
        .apply(
            &file,
            &vec![op(&[
                ("op", "replace_body"),
                ("entity", "fn:core"),
                ("body", "2"),
            ])],
        )
        .unwrap();
    assert_eq!(applied.delta.changed, vec!["fn:core"]);

    let outline = adapter.outline(&applied.artifact).unwrap();
    let impact = adapter.impact(&outline, &applied.delta);
    assert!(
        impact.tests.iter().any(|t| t == "checks_wrapper"),
        "the impacted test should be selected through the call chain: {:?}",
        impact.tests
    );
}

#[test]
fn packs_for_python_use_the_python_grammar() {
    let adapter = CodeAdapter::new();
    let py = Artifact::new(
        "app.py",
        b"def core():\n    return 1\n\ndef test_core():\n    assert core() == 1\n".to_vec(),
    );
    let outline = adapter.outline(&py).unwrap();
    let pack = adapter
        .pack(&PackRequest {
            artifact: &py,
            outline: &outline,
            target: "fn:core",
            budget_chars: 4_000,
        })
        .unwrap();
    assert!(pack.render().contains("def core()"));
}

#[test]
fn ladder_for_a_python_file_uses_python_local_rungs() {
    let rungs = ladder_for("app.py", &ToolConfig::default());
    assert_eq!(rungs.len(), 5);
    assert_eq!(rungs[0].name(), "reparse");
}

#[test]
fn version_is_part_of_the_contract() {
    // A silent change to this string would leave stale nodes cached against new semantics.
    assert_eq!(CodeAdapter::new().version(), "code-v1");
}

// ---- ops -----------------------------------------------------------------------------------

fn art(code: &str) -> Artifact {
    Artifact::new("src/lib.rs", code.as_bytes().to_vec())
}

const SAMPLE: &str = r#"use std::fmt;

struct Header {
    name: String,
}

impl Header {
    fn parse(input: &str) -> Header {
        Header { name: input.to_string() }
    }
}

fn helper() -> u32 {
    7
}
"#;

#[test]
fn replace_body_keeps_the_signature_and_the_braces() {
    let a = art(SAMPLE);
    let applied = apply(
        &rust(),
        &a,
        &vec![op(&[
            ("op", "replace_body"),
            ("entity", "fn:helper"),
            ("body", "42"),
        ])],
    )
    .unwrap();
    let text = applied.artifact.text().to_string();
    assert!(text.contains("fn helper() -> u32 {"), "{text}");
    assert!(text.contains("42"), "{text}");
    assert!(!text.contains("    7\n"), "old body should be gone: {text}");
    assert_eq!(applied.delta.changed, vec!["fn:helper"]);
}

#[test]
fn an_edit_to_one_entity_leaves_every_other_entity_byte_identical() {
    // This is the property the whole incremental story rests on: if an unrelated entity's
    // bytes move, its downstream nodes all re-run for nothing.
    let a = art(SAMPLE);
    let applied = apply(
        &rust(),
        &a,
        &vec![op(&[
            ("op", "replace_body"),
            ("entity", "fn:helper"),
            ("body", "42"),
        ])],
    )
    .unwrap();
    assert_eq!(applied.delta.changed, vec!["fn:helper"]);
    assert!(applied.delta.added.is_empty());
    assert!(applied.delta.removed.is_empty());
}

#[test]
fn replace_signature_rewrites_only_the_head() {
    let a = art(SAMPLE);
    let applied = apply(
        &rust(),
        &a,
        &vec![op(&[
            ("op", "replace_signature"),
            ("entity", "fn:helper"),
            ("signature", "fn helper() -> u64"),
        ])],
    )
    .unwrap();
    let text = applied.artifact.text().to_string();
    assert!(text.contains("fn helper() -> u64 {"), "{text}");
    assert!(text.contains("    7"), "body survives: {text}");
}

#[test]
fn add_import_is_idempotent() {
    let a = art(SAMPLE);
    let once = apply(
        &rust(),
        &a,
        &vec![op(&[
            ("op", "add_import"),
            ("import", "use std::io::Write;"),
        ])],
    )
    .unwrap();
    assert!(once.artifact.text().contains("use std::io::Write;"));

    let twice = apply(
        &rust(),
        &once.artifact,
        &vec![op(&[
            ("op", "add_import"),
            ("import", "use std::io::Write;"),
        ])],
    )
    .unwrap();
    assert_eq!(
        twice.artifact.text().matches("use std::io::Write;").count(),
        1,
        "adding the same import twice must not duplicate it"
    );
}

#[test]
fn add_test_creates_the_tests_module_when_there_is_none() {
    let a = art(SAMPLE);
    let applied = apply(
        &rust(),
        &a,
        &vec![op(&[
            ("op", "add_test"),
            ("name", "helper_is_seven"),
            ("code", "assert_eq!(helper(), 7);"),
        ])],
    )
    .unwrap();
    let text = applied.artifact.text().to_string();
    assert!(text.contains("#[cfg(test)]"), "{text}");
    assert!(text.contains("fn helper_is_seven()"), "{text}");
    assert!(
        applied
            .delta
            .added
            .iter()
            .any(|id| id.contains("helper_is_seven")),
        "the new test should show up as an added entity: {:?}",
        applied.delta.added
    );
}

#[test]
fn add_test_reuses_an_existing_tests_module() {
    let with_tests = art(&format!(
        "{SAMPLE}\n#[cfg(test)]\nmod tests {{\n    use super::*;\n\n    #[test]\n    fn old() {{ assert!(true); }}\n}}\n"
    ));
    let applied = apply(
        &rust(),
        &with_tests,
        &vec![op(&[
            ("op", "add_test"),
            ("name", "fresh"),
            ("code", "assert!(true);"),
        ])],
    )
    .unwrap();
    let text = applied.artifact.text().to_string();
    assert_eq!(text.matches("mod tests").count(), 1, "{text}");
    assert!(text.contains("fn fresh()"), "{text}");
}

#[test]
fn rename_is_word_boundary_aware() {
    let a = art("fn parse() {}\nfn parser() { parse(); }\n");
    let applied = apply(
        &rust(),
        &a,
        &vec![op(&[
            ("op", "rename"),
            ("entity", "fn:parse"),
            ("to", "decode"),
        ])],
    )
    .unwrap();
    let text = applied.artifact.text().to_string();
    assert!(text.contains("fn decode()"), "{text}");
    assert!(text.contains("fn parser()"), "parser must survive: {text}");
    assert!(text.contains("decode();"), "call site renamed: {text}");
}

#[test]
fn delete_removes_the_entity_and_reports_it() {
    let a = art(SAMPLE);
    let applied = apply(
        &rust(),
        &a,
        &vec![op(&[("op", "delete"), ("entity", "fn:helper")])],
    )
    .unwrap();
    assert!(!applied.artifact.text().contains("fn helper"));
    assert_eq!(applied.delta.removed, vec!["fn:helper"]);
}

#[test]
fn an_unknown_entity_is_rejected_and_changes_nothing() {
    let a = art(SAMPLE);
    let err = apply(
        &rust(),
        &a,
        &vec![op(&[
            ("op", "replace_body"),
            ("entity", "fn:nope"),
            ("body", "1"),
        ])],
    )
    .unwrap_err();
    assert!(
        matches!(err, AdapterError::UnknownEntity(_)),
        "{}",
        err.message()
    );
}

#[test]
fn a_batch_that_would_break_the_parse_is_refused_whole() {
    let a = art(SAMPLE);
    let err = apply(
        &rust(),
        &a,
        &vec![op(&[
            ("op", "replace_body"),
            ("entity", "fn:helper"),
            ("body", "let x = ;;;("),
        ])],
    )
    .unwrap_err();
    assert!(
        matches!(err, AdapterError::BadOp(_)),
        "a parse-breaking batch must be refused: {}",
        err.message()
    );
}

#[test]
fn overlapping_ops_are_refused() {
    let a = art(SAMPLE);
    let err = apply(
        &rust(),
        &a,
        &vec![
            op(&[
                ("op", "replace_body"),
                ("entity", "fn:helper"),
                ("body", "1"),
            ]),
            op(&[("op", "delete"), ("entity", "fn:helper")]),
        ],
    )
    .unwrap_err();
    assert!(matches!(err, AdapterError::BadOp(_)), "{}", err.message());
}

#[test]
fn oversized_ops_are_refused() {
    let a = art(SAMPLE);
    let huge = (0..MAX_OP_LINES + 5)
        .map(|i| format!("let x{i} = {i};"))
        .collect::<Vec<_>>()
        .join("\n");
    let err = apply(
        &rust(),
        &a,
        &vec![op(&[
            ("op", "replace_body"),
            ("entity", "fn:helper"),
            ("body", &huge),
        ])],
    )
    .unwrap_err();
    assert!(err.message().contains("line cap"), "{}", err.message());
}

#[test]
fn applying_the_same_ops_twice_gives_byte_identical_output() {
    // Determinism is what makes an op node cacheable at all.
    let a = art(SAMPLE);
    let ops = vec![op(&[
        ("op", "replace_body"),
        ("entity", "fn:helper"),
        ("body", "42"),
    ])];
    let one = apply(&rust(), &a, &ops).unwrap();
    let two = apply(&rust(), &a, &ops).unwrap();
    assert_eq!(one.artifact.bytes, two.artifact.bytes);
}

#[test]
fn python_bodies_reindent_rather_than_brace() {
    let spec = LangSpec::for_path("app.py").unwrap();
    let a = Artifact::new("app.py", b"def parse():\n    return 1\n".to_vec());
    let applied = apply(
        &spec,
        &a,
        &vec![op(&[
            ("op", "replace_body"),
            ("entity", "fn:parse"),
            ("body", "return 42"),
        ])],
    )
    .unwrap();
    let text = applied.artifact.text().to_string();
    assert!(text.contains("def parse():"), "{text}");
    assert!(text.contains("    return 42"), "{text}");
}

#[test]
fn an_op_of_no_known_kind_is_refused() {
    let a = art(SAMPLE);
    let err = apply(&rust(), &a, &vec![op(&[("op", "paint")])]).unwrap_err();
    assert!(matches!(err, AdapterError::BadOp(_)), "{}", err.message());
    let err = apply(&rust(), &a, &vec![op(&[("entity", "fn:helper")])]).unwrap_err();
    assert!(matches!(err, AdapterError::BadOp(_)), "{}", err.message());
}

#[test]
fn a_unified_diff_is_an_op_too() {
    let a = art("fn one() {\n    1\n}\n");
    let applied = apply(
        &rust(),
        &a,
        &vec![op(&[
            ("op", "unified_diff"),
            ("diff", "@@ -1,3 +1,3 @@\n fn one() {\n-    1\n+    11\n }\n"),
        ])],
    )
    .unwrap();
    assert_eq!(applied.artifact.text(), "fn one() {\n    11\n}\n");
    assert_eq!(applied.delta.changed, vec!["fn:one"]);
}

// ---- packs ---------------------------------------------------------------------------------

const CALLED: &str = r#"use std::fmt;

struct Header { name: String }

fn parse(input: &str) -> Header {
    Header { name: input.to_string() }
}

fn caller() -> Header {
    let h = parse("x");
    h
}

#[test]
fn parses() { assert_eq!(parse("x").name, "x"); }
"#;

fn pack_for(target: &str, budget: usize) -> Pack {
    let artifact = Artifact::new("x.rs", CALLED.as_bytes().to_vec());
    let o = outline(&rust(), &artifact).unwrap();
    build(&PackRequest {
        artifact: &artifact,
        outline: &o,
        target,
        budget_chars: budget,
    })
    .unwrap()
}

#[test]
fn a_pack_contains_the_target_body_and_its_callers_signature() {
    let p = pack_for("fn:parse", DEFAULT_BUDGET_CHARS);
    let text = p.render();
    assert!(text.contains("fn parse(input: &str) -> Header"), "{text}");
    assert!(text.contains("fn caller()"), "{text}");
    assert!(text.contains("use std::fmt;"), "{text}");
}

#[test]
fn a_pack_carries_signatures_not_bodies_for_neighbours() {
    let p = pack_for("fn:parse", DEFAULT_BUDGET_CHARS);
    let callers = p
        .parts
        .iter()
        .find(|(n, _)| n == "callers")
        .map(|(_, b)| b.clone())
        .unwrap_or_default();
    assert!(
        !callers.contains("h\n}"),
        "the caller's whole body leaked into the pack: {callers}"
    );
}

#[test]
fn packs_are_byte_identical_across_builds() {
    // The pack is a node. If it is not deterministic, nothing downstream of it can be cached.
    let a = pack_for("fn:parse", DEFAULT_BUDGET_CHARS);
    let b = pack_for("fn:parse", DEFAULT_BUDGET_CHARS);
    assert_eq!(a.render(), b.render());
}

#[test]
fn tests_that_reach_the_target_are_included_whole() {
    let p = pack_for("fn:parse", DEFAULT_BUDGET_CHARS);
    let text = p.render();
    assert!(text.contains("fn parses()"), "{text}");
}

#[test]
fn a_tight_budget_drops_extras_before_it_drops_the_target() {
    let p = pack_for("fn:parse", 1_000);
    let text = p.render();
    assert!(text.contains("fn parse"), "the target must survive: {text}");
    assert!(p.chars() <= 1_000, "pack is {} chars", p.chars());
}

#[test]
fn an_unknown_target_is_an_error() {
    let artifact = Artifact::new("x.rs", CALLED.as_bytes().to_vec());
    let o = outline(&rust(), &artifact).unwrap();
    assert!(build(&PackRequest {
        artifact: &artifact,
        outline: &o,
        target: "fn:nope",
        budget_chars: 4_000,
    })
    .is_err());
}

// ---- symbols -------------------------------------------------------------------------------

fn rust_outline(code: &str) -> Outline {
    let spec = LangSpec::for_path("src/lib.rs").unwrap();
    outline(&spec, &Artifact::new("src/lib.rs", code.as_bytes().to_vec())).unwrap()
}

fn has(ids: &[String], id: &str) -> bool {
    ids.iter().any(|i| i == id)
}

#[test]
fn functions_structs_and_impl_methods_get_qualified_ids() {
    let o = rust_outline(
        r#"
struct Header { name: String }

impl Header {
    fn parse(input: &str) -> Header { Header { name: input.to_string() } }
}

fn helper() -> u32 { 7 }
"#,
    );
    let ids = o.ids();
    assert!(has(&ids, "struct:Header"), "{ids:?}");
    assert!(has(&ids, "fn:Header::parse"), "{ids:?}");
    assert!(has(&ids, "fn:helper"), "{ids:?}");
}

#[test]
fn ids_survive_the_entity_moving_within_the_file() {
    let a = rust_outline("fn one() {}\nfn two() {}\n");
    let b = rust_outline("fn two() {}\nfn one() {}\n");
    let mut ids_a = a.ids();
    let mut ids_b = b.ids();
    ids_a.sort();
    ids_b.sort();
    assert_eq!(
        ids_a, ids_b,
        "reordering a file must not change any entity id"
    );
}

#[test]
fn tests_are_recognised_by_attribute_and_by_module() {
    let o = rust_outline(
        r#"
fn parse() -> u32 { 1 }

#[cfg(test)]
mod tests {
    use super::*;

    #[test]
    fn parses_a_header() { assert_eq!(parse(), 1); }
}
"#,
    );
    let ids = o.ids();
    assert!(
        ids.iter().any(|i| i.starts_with("test:")),
        "no test entity found in {ids:?}"
    );
}

#[test]
fn references_link_a_test_to_what_it_calls() {
    let o = rust_outline(
        r#"
fn parse() -> u32 { 1 }

#[test]
fn checks_parse() { assert_eq!(parse(), 1); }
"#,
    );
    let t = o
        .entities
        .iter()
        .find(|e| e.kind == "test")
        .expect("a test entity");
    assert!(
        t.refs.iter().any(|r| r == "fn:parse"),
        "test should reference fn:parse, got {:?}",
        t.refs
    );
}

#[test]
fn imports_are_entities_too() {
    let o = rust_outline("use std::io::Write;\nfn f() {}\n");
    assert!(o.ids().iter().any(|i| i.starts_with("import:")));
}

#[test]
fn syntax_errors_are_located_not_just_detected() {
    let art = Artifact::new("x.rs", b"fn broken( { }".to_vec());
    let tree = parse(&rust(), &art).unwrap();
    let errs = syntax_errors(&tree);
    assert!(!errs.is_empty(), "a broken file must report an error range");
}

#[test]
fn python_functions_and_classes_parse() {
    let spec = LangSpec::for_path("app.py").unwrap();
    let code = "class Parser:\n    def parse(self):\n        return 1\n\ndef test_parse():\n    assert Parser().parse() == 1\n";
    let o = outline(&spec, &Artifact::new("app.py", code.as_bytes().to_vec())).unwrap();
    let ids = o.ids();
    assert!(has(&ids, "class:Parser"), "{ids:?}");
    assert!(has(&ids, "fn:Parser.parse"), "{ids:?}");
    assert!(has(&ids, "test:test_parse"), "{ids:?}");
}

#[test]
fn typescript_classes_and_methods_parse() {
    let spec = LangSpec::for_path("app.ts").unwrap();
    let code = "export class Parser {\n  parse(s: string): number { return 1; }\n}\nfunction helper() { return 2; }\n";
    let o = outline(&spec, &Artifact::new("app.ts", code.as_bytes().to_vec())).unwrap();
    let ids = o.ids();
    assert!(has(&ids, "class:Parser"), "{ids:?}");
    assert!(has(&ids, "fn:Parser.parse"), "{ids:?}");
    assert!(has(&ids, "fn:helper"), "{ids:?}");
}

#[test]
fn the_index_round_trips_so_it_can_be_cached() {
    let index = RepoIndex::build(&three_files());
    let bytes = index.encode();
    let back = RepoIndex::decode(&bytes).expect("decodes");
    assert_eq!(back.digest(), index.digest());
    assert_eq!(
        back.reachable_tests(&vec!["fn:core".to_string()]),
        index.reachable_tests(&vec!["fn:core".to_string()])
    );
    assert_eq!(back.len(), index.len());
    assert_eq!(back.encode(), bytes);
    assert!(RepoIndex::decode(b"{}").is_none());
    assert!(RepoIndex::decode(b"\xff").is_none());
    assert!(RepoIndex::decode(br#"{"entities":{"a":{"path":1,"kind":"fn"}},"referrers":{},"inputs":[]}"#).is_none());
    let small = RepoIndex::decode(
        br#"{"entities":{"test:t":{"path":"a.rs","kind":"test","selector":"t"}},"referrers":{"fn:x":["test:t"]},"inputs":[]}"#,
    )
    .expect("decodes");
    assert_eq!(small.reachable_tests(&vec!["fn:x".to_string()]), vec!["t"]);
}

#[test]
fn a_blank_last_line_is_kept() {
    let out = apply_unified("a\nb\n\n", "@@ -1,2 +1,2 @@\n-a\n+c\n b\n").unwrap();
    assert_eq!(out, "c\nb\n\n");
}

#[test]
fn a_target_that_is_too_long_is_cut_to_the_budget() {
    let body = "    let x = 1; // a line of the body\n".repeat(200);
    let code = format!("fn long() {{\n{body}}}\n");
    let artifact = Artifact::new("x.rs", code.into_bytes());
    let o = outline(&rust(), &artifact).unwrap();
    let p = build(&PackRequest {
        artifact: &artifact,
        outline: &o,
        target: "fn:long",
        budget_chars: 1_000,
    })
    .unwrap();
    assert!(p.chars() <= 1_000, "pack is {} chars", p.chars());
    let text = p.render();
    assert!(text.contains("fn long()"), "{text}");
    assert!(text.contains("// ... truncated to fit the context budget"), "{text}");
}

#[test]
fn rename_leaves_other_letters_alone() {
    let a = art("// \u{e9}t\u{e9} parse\nfn parse() {}\n");
    let applied = apply(
        &rust(),
        &a,
        &vec![op(&[("op", "rename"), ("entity", "fn:parse"), ("to", "decode")])],
    )
    .unwrap();
    assert_eq!(applied.artifact.text().to_string(), "// \u{e9}t\u{e9} decode\nfn decode() {}\n");
}

#[test]
fn an_attribute_that_only_mentions_test_marks_no_test() {
    let o = rust_outline("#[cfg(not(test))]\nfn a() {}\n\n#[tokio::test]\nfn b() {}\n");
    let kind = |id: &str| o.entities.iter().any(|e| e.id == id);
    assert!(kind("fn:a") && kind("test:b"), "{o:?}");
}

#[test]
fn any_attribute_named_for_tests_marks_a_test() {
    let marked = |attribute: &str| {
        let o = rust_outline(&format!("{attribute}\nfn a() {{}}\n"));
        let ids: Vec<String> = o.entities.iter().map(|e| e.id.clone()).collect();
        assert_eq!(ids.len(), 1, "{attribute}: {ids:?}");
        ids[0] == "test:a"
    };
    for attribute in [
        "#[test]",
        "#[ test ]",
        "# [test]",
        "#[tokio :: test]",
        "#[rstest]",
        "#[test_case(1)]",
        "#[wasm_bindgen_test]",
        "#[tokio::test(flavor = \"multi_thread\")]",
        "#[cfg_attr(not(unix), test)]",
        "#[cfg_attr(all(unix, miri), test_case(1))]",
    ] {
        assert!(marked(attribute), "{attribute} marks a test");
    }
    for attribute in [
        "#[inline]",
        "#[cfg(test)]",
        "#[cfg(not(test))]",
        "#[doc = \"test\"]",
        "#[allow(untested)]",
        "#[cfg_attr(test, inline)]",
        "#[cfg_attr(all(unix, test), inline)]",
    ] {
        assert!(!marked(attribute), "{attribute} marks no test");
    }
}

#[test]
fn the_order_of_files_does_not_matter() {
    let one = RepoIndex::build(&three_files());
    let mut files = three_files();
    files.reverse();
    let other = RepoIndex::build(&files);
    assert_eq!(one.digest(), other.digest());
    let seeds = vec!["fn:core".to_string()];
    assert_eq!(one.reachable(&seeds), other.reachable(&seeds));
    assert_eq!(one.reachable_tests(&seeds), other.reachable_tests(&seeds));
    assert_eq!(one.reachable_files(&seeds), other.reachable_files(&seeds));
}

#[test]
fn a_verify_node_holds_its_file_to_what_it_was_before() {
    let adapter = CodeAdapter::new();
    let before = art("fn a() -> u32 { 1 }\nfn b() {}\n");
    let now = art("fn a() -> u32 { 2 }\n");
    let o = adapter.outline(&now).unwrap();
    let (delta, impact) = adapter.since(Some(&before), &now, &o);
    assert_eq!(delta.changed, vec!["fn:a"]);
    assert_eq!(delta.removed, vec!["fn:b"]);
    assert!(impact.entities.iter().any(|e| e == "fn:a"));
    let (nothing, _) = adapter.since(None, &now, &o);
    assert!(nothing.is_empty());
    for level in 0..5u8 {
        assert_eq!(adapter.rung_at(level).map(|r| r.level()), Some(level));
    }
    assert!(adapter.rung_at(5).is_none());
}
