use flash::adapter::cap_diagnostics;
use flash::adapter::route;
use flash::adapter::Adapter;
use flash::adapter::AdapterError;
use flash::adapter::Artifact;
use flash::adapter::Delta;
use flash::adapter::Diagnostic;
use flash::adapter::Entity;
use flash::adapter::Field;
use flash::adapter::MAX_DIAGNOSTICS;
use flash::adapter::Op;
use flash::adapter::Outline;
use flash::adapter::Pack;
use flash::adapter::RungOutcome;
use flash::code::CodeAdapter;
use flash::splice::splice;
use flash::splice::Edit;
use flash::splice::SpliceError;

#[test]
fn artifact_digest_covers_path_and_bytes() {
    let a = Artifact::new("src/lib.rs", b"x".to_vec());
    let b = Artifact::new("src/main.rs", b"x".to_vec());
    let c = Artifact::new("src/lib.rs", b"y".to_vec());
    assert_ne!(a.digest(), b.digest(), "path is part of identity");
    assert_ne!(a.digest(), c.digest());
    assert_eq!(
        a.digest(),
        Artifact::new("src/lib.rs", b"x".to_vec()).digest()
    );
}

#[test]
fn diagnostics_are_capped() {
    let many: Vec<Diagnostic> = (0..50)
        .map(|i| Diagnostic::new("x", &i.to_string()))
        .collect();
    let kept = cap_diagnostics(many);
    assert_eq!(kept.len(), MAX_DIAGNOSTICS);
    assert_eq!(kept[0].message, "0");
    assert_eq!(kept[MAX_DIAGNOSTICS - 1].message, "19");
}

#[test]
fn a_rung_that_cannot_run_is_not_a_pass() {
    let o = RungOutcome::unavailable("cargo not on PATH");
    assert!(!o.passed);
    assert!(o.unavailable);
}

#[test]
fn pack_render_is_stable_and_skips_empty_parts() {
    let mut p = Pack::default();
    p.push("target", "fn a() {}");
    p.push("callers", "   ");
    p.push("imports", "use std::io;");
    let text = p.render();
    assert!(text.starts_with("## target"));
    assert!(!text.contains("callers"), "empty parts are dropped");
    assert_eq!(p.parts.len(), 2);
}

#[test]
fn delta_merge_is_idempotent() {
    let mut a = Delta {
        changed: vec!["x".into()],
        ..Default::default()
    };
    let b = Delta {
        changed: vec!["x".into(), "y".into()],
        added: vec!["z".into()],
        ..Default::default()
    };
    a.merge(&b);
    a.merge(&b);
    assert_eq!(a.changed, vec!["x", "y"]);
    assert_eq!(a.added, vec!["z"]);
}

fn entity(id: &str, refs: &[&str]) -> Entity {
    Entity {
        id: id.to_string(),
        kind: "fn".to_string(),
        start: 0,
        end: 0,
        body: None,
        signature: None,
        refs: refs.iter().map(|r| r.to_string()).collect(),
        parent: None,
    }
}

#[test]
fn an_outline_is_looked_up_by_id_and_by_reference() {
    let o = Outline {
        path: "x".to_string(),
        entities: vec![entity("a", &[]), entity("b", &["a"]), entity("c", &["b"])],
    };
    assert_eq!(o.get("b").map(|e| e.id.as_str()), Some("b"));
    assert!(o.get("z").is_none());
    assert_eq!(o.ids(), vec!["a", "b", "c"]);
    let who: Vec<&str> = o.referrers("a").iter().map(|e| e.id.as_str()).collect();
    assert_eq!(who, vec!["b"]);
    assert_eq!(o.of_kind("fn").len(), 3);
    assert!(o.of_kind("test").is_empty());
}

#[test]
fn a_field_that_an_op_lacks_is_named_in_the_error() {
    let op = Op::new(vec![("op".to_string(), Field::Text("rename".to_string()))]);
    assert_eq!(op.kind(), Some("rename"));
    assert_eq!(op.opt_str("to"), None);
    let err = op.str_field("to").unwrap_err();
    assert!(matches!(err, AdapterError::BadOp(_)));
    assert!(err.message().contains("to"), "{}", err.message());
}

#[test]
fn a_path_routes_to_the_adapter_that_handles_it() {
    let adapters = vec![CodeAdapter::new()];
    assert_eq!(route(&adapters, "a.rs").map(|a| a.name()), Some("code"));
    assert!(route(&adapters, "a.md").is_none());
}

#[test]
fn a_pack_gives_up_its_last_parts_first() {
    let mut p = Pack::default();
    p.push("target", "0123456789");
    p.push("callers", "0123456789");
    p.push("imports", "0123456789");
    let whole = p.chars();
    p.fit(whole - 1, 1);
    let names: Vec<&str> = p.parts.iter().map(|(n, _)| n.as_str()).collect();
    assert_eq!(names, vec!["target", "callers"]);
    p.fit(0, 1);
    assert_eq!(p.parts.len(), 1, "what must be kept is kept");
}

#[test]
fn edits_are_made_where_they_say_and_nowhere_else() {
    let edits = vec![
        Edit {
            start: 6,
            end: 11,
            text: b"there".to_vec(),
        },
        Edit {
            start: 0,
            end: 0,
            text: b"oh ".to_vec(),
        },
    ];
    let out = splice(b"hello world!", edits).unwrap();
    assert_eq!(out, b"oh hello there!".to_vec());
}

#[test]
fn edits_that_overlap_are_refused() {
    let edits = vec![
        Edit {
            start: 0,
            end: 4,
            text: Vec::new(),
        },
        Edit {
            start: 3,
            end: 5,
            text: Vec::new(),
        },
    ];
    assert!(matches!(
        splice(b"abcdef", edits),
        Err(SpliceError::Overlap { .. })
    ));
}
