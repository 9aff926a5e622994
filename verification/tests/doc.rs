use flash::adapter::Adapter;
use flash::adapter::AdapterError;
use flash::adapter::Artifact;
use flash::adapter::Delta;
use flash::adapter::Field;
use flash::adapter::ImpactSet;
use flash::adapter::Op;
use flash::adapter::Outline;
use flash::adapter::PackRequest;
use flash::adapter::VerifyCtx;
use flash::adapter::VerifyRung;
use flash::doc::model::outline;
use flash::doc::model::pages_for;
use flash::doc::model::paginate;
use flash::doc::model::parse;
use flash::doc::model::slug;
use flash::doc::model::BlockKind;
use flash::doc::DocAdapter;
use flash::doc::MAX_OP_WORDS;

const DOC: &str = "# Report\n\nIntro paragraph.\n\n## Methodology\n\nWe counted things.\n\n## Revenue\n\n| q | usd |\n| - | --- |\n| 3 | 10  |\n";

fn art() -> Artifact {
    Artifact::new("report.md", DOC.as_bytes().to_vec())
}

fn ctx<'a>(
    artifact: &'a Artifact,
    outline: &'a Outline,
    delta: &'a Delta,
    impact: &'a ImpactSet,
) -> VerifyCtx<'a> {
    VerifyCtx {
        artifact,
        outline,
        delta,
        impact,
        workspace: None,
    }
}

fn op(fields: &[(&str, &str)]) -> Op {
    Op::new(
        fields
            .iter()
            .map(|(k, v)| (k.to_string(), Field::Text(v.to_string())))
            .collect(),
    )
}

#[test]
fn the_adapter_takes_documents_and_leaves_code_alone() {
    let a = DocAdapter::new();
    assert!(a.handles("docs/report.md"));
    assert!(a.handles("Q3.docx"));
    assert!(!a.handles("src/lib.rs"));
}

#[test]
fn replace_block_changes_one_block_and_nothing_else() {
    let a = DocAdapter::new();
    let applied = a
        .apply(
            &art(),
            &vec![op(&[
                ("op", "replace_block"),
                ("block", "p:methodology/1"),
                ("text", "We counted things carefully."),
            ])],
        )
        .unwrap();
    assert!(applied.artifact.text().contains("carefully"));
    assert_eq!(applied.delta.changed, vec!["p:methodology/1"]);
    assert!(
        applied.delta.added.is_empty() && applied.delta.removed.is_empty(),
        "{:?}",
        applied.delta
    );
}

#[test]
fn insert_and_delete_round_trip() {
    let a = DocAdapter::new();
    let inserted = a
        .apply(
            &art(),
            &vec![op(&[
                ("op", "insert_block"),
                ("after", "p:methodology/1"),
                ("text", "A second paragraph."),
            ])],
        )
        .unwrap();
    assert!(inserted.artifact.text().contains("A second paragraph."));
    assert!(!inserted.delta.added.is_empty());

    let deleted = a
        .apply(
            &inserted.artifact,
            &vec![op(&[("op", "delete_block"), ("block", "p:methodology/2")])],
        )
        .unwrap();
    assert!(!deleted.artifact.text().contains("A second paragraph."));
}

#[test]
fn an_oversized_op_is_refused() {
    let a = DocAdapter::new();
    let long = "word ".repeat(MAX_OP_WORDS + 10);
    let err = a
        .apply(
            &art(),
            &vec![op(&[
                ("op", "replace_block"),
                ("block", "p:methodology/1"),
                ("text", &long),
            ])],
        )
        .unwrap_err();
    assert!(err.message().contains("word cap"), "{}", err.message());
}

#[test]
fn set_style_rewrites_a_heading_level() {
    let a = DocAdapter::new();
    let applied = a
        .apply(
            &art(),
            &vec![Op::new(vec![
                ("op".to_string(), Field::Text("set_style".to_string())),
                ("block".to_string(), Field::Text("heading:revenue".to_string())),
                ("level".to_string(), Field::Whole(3)),
            ])],
        )
        .unwrap();
    assert!(
        applied.artifact.text().contains("### Revenue"),
        "{}",
        applied.artifact.text()
    );
}

#[test]
fn impact_turns_a_changed_block_into_a_page_to_re_render() {
    let a = DocAdapter::new();
    let artifact = art();
    let outline = a.outline(&artifact).unwrap();
    let delta = Delta {
        changed: vec!["p:methodology/1".into()],
        ..Default::default()
    };
    let impact = a.impact(&outline, &delta);
    assert_eq!(impact.units, vec!["page:1"], "{impact:?}");
    assert!(impact.tests.is_empty(), "documents have no tests");
}

#[test]
fn rung_one_catches_a_heading_jump() {
    let doc = Artifact::new(
        "x.md",
        b"# One\n\ntext\n\n### Three\n\nmore text\n".to_vec(),
    );
    let a = DocAdapter::new();
    let outline = a.outline(&doc).unwrap();
    let (d, i) = (Delta::default(), ImpactSet::default());
    let outcome = a.ladder()[1].check(&ctx(&doc, &outline, &d, &i));
    assert!(!outcome.passed);
    assert_eq!(outcome.diagnostics[0].code, "heading-order");
}

#[test]
fn rung_one_catches_an_empty_section_and_a_broken_link() {
    let doc = Artifact::new(
        "x.md",
        b"# One\n\nSee [that](#nowhere).\n\n## Two\n".to_vec(),
    );
    let a = DocAdapter::new();
    let outline = a.outline(&doc).unwrap();
    let (d, i) = (Delta::default(), ImpactSet::default());
    let outcome = a.ladder()[1].check(&ctx(&doc, &outline, &d, &i));
    let codes: Vec<&str> = outcome
        .diagnostics
        .iter()
        .map(|d| d.code.as_str())
        .collect();
    assert!(codes.contains(&"empty-section"), "{codes:?}");
    assert!(codes.contains(&"broken-ref"), "{codes:?}");
}

#[test]
fn rung_three_is_unavailable_without_a_vision_model_not_a_pass() {
    let artifact = art();
    let a = DocAdapter::new();
    let outline = a.outline(&artifact).unwrap();
    let (d, i) = (Delta::default(), ImpactSet::default());
    let outcome = a.ladder()[3].check(&ctx(&artifact, &outline, &d, &i));
    assert!(outcome.unavailable);
    assert!(!outcome.passed);
}

#[test]
fn a_pack_carries_the_section_and_the_outline_but_not_the_whole_document() {
    let artifact = art();
    let a = DocAdapter::new();
    let outline = a.outline(&artifact).unwrap();
    let pack = a
        .pack(&PackRequest {
            artifact: &artifact,
            outline: &outline,
            target: "p:methodology/1",
            budget_chars: 8_000,
        })
        .unwrap();
    let text = pack.render();
    assert!(text.contains("We counted things"), "{text}");
    assert!(
        text.contains("Revenue"),
        "the outline lists every section: {text}"
    );
    assert!(
        !text.contains("| 3 | 10"),
        "another section's table must not be in this pack: {text}"
    );
}

#[test]
fn packs_are_deterministic() {
    let artifact = art();
    let a = DocAdapter::new();
    let outline = a.outline(&artifact).unwrap();
    let build = || {
        a.pack(&PackRequest {
            artifact: &artifact,
            outline: &outline,
            target: "p:methodology/1",
            budget_chars: 8_000,
        })
        .unwrap()
        .render()
    };
    assert_eq!(build(), build());
}

#[test]
fn a_block_that_is_not_there_is_an_unknown_entity() {
    let err = DocAdapter::new()
        .apply(
            &art(),
            &vec![op(&[("op", "delete_block"), ("block", "p:nowhere/1")])],
        )
        .unwrap_err();
    assert!(
        matches!(err, AdapterError::UnknownEntity(_)),
        "{}",
        err.message()
    );
}

#[test]
fn a_document_with_its_whole_ladder_is_clean() {
    let artifact = art();
    let a = DocAdapter::new();
    let outline = a.outline(&artifact).unwrap();
    let delta = Delta {
        changed: vec!["p:methodology/1".into()],
        ..Default::default()
    };
    let impact = a.impact(&outline, &delta);
    let c = ctx(&artifact, &outline, &delta, &impact);
    let ladder = a.ladder();
    let passed: Vec<bool> = ladder.iter().map(|r| r.check(&c).passed).collect();
    assert_eq!(passed, vec![true, true, true, false, true]);
    let levels: Vec<u8> = ladder.iter().map(|r| r.level()).collect();
    assert_eq!(levels, vec![0, 1, 2, 3, 4]);
}

// ---- the model -----------------------------------------------------------------------------

const QUARTER: &str = "---\ntitle: Q3\n---\n\n# Quarterly report\n\nOpening paragraph.\n\n## Methodology\n\nWe counted things.\n\n- one\n- two\n\n## Revenue\n\n| q | usd |\n| - | --- |\n| 3 | 10  |\n\nClosing note.\n";

fn quarter() -> Artifact {
    Artifact::new("report.md", QUARTER.as_bytes().to_vec())
}

#[test]
fn blocks_are_typed_and_sectioned() {
    let blocks = parse(&quarter());
    let kinds: Vec<&str> = blocks.iter().map(|b| b.kind.as_str()).collect();
    assert!(kinds.contains(&"meta"), "{kinds:?}");
    assert!(kinds.contains(&"heading"), "{kinds:?}");
    assert!(kinds.contains(&"table"), "{kinds:?}");
    assert!(kinds.contains(&"list"), "{kinds:?}");

    let table = blocks.iter().find(|b| b.kind == BlockKind::Table).unwrap();
    assert_eq!(table.section, "revenue");
}

#[test]
fn byte_ranges_slice_back_to_the_block_text() {
    let a = quarter();
    let text = a.text().to_string();
    for b in parse(&a) {
        assert_eq!(
            text[b.start..b.end].trim_end(),
            b.text.trim_end(),
            "block {} has wrong byte range",
            b.id
        );
    }
}

#[test]
fn editing_one_section_does_not_renumber_another() {
    // The property the whole incremental story needs from block ids.
    let before = parse(&quarter());
    let edited = QUARTER.replace(
        "We counted things.",
        "We counted things twice.\n\nAnd again.",
    );
    let after = parse(&Artifact::new("report.md", edited.into_bytes()));

    let revenue_before: Vec<&String> = before
        .iter()
        .filter(|b| b.section == "revenue")
        .map(|b| &b.id)
        .collect();
    let revenue_after: Vec<&String> = after
        .iter()
        .filter(|b| b.section == "revenue")
        .map(|b| &b.id)
        .collect();
    assert_eq!(
        revenue_before, revenue_after,
        "an edit under methodology renumbered revenue"
    );
}

#[test]
fn the_text_of_a_section_names_its_blocks() {
    let part = "## Revenue\n\nFirst.\n\n| q |\n| - |\n\n```\n# no heading\n```\n\nSecond.\n\n";
    let named = |doc: String| -> Vec<String> {
        parse(&Artifact::new("report.md", doc.into_bytes()))
            .into_iter()
            .filter(|b| b.section == "revenue")
            .map(|b| b.id)
            .collect()
    };
    let expected = vec![
        "heading:revenue",
        "p:revenue/1",
        "table:revenue/1",
        "code:revenue/1",
        "p:revenue/2",
    ];
    assert_eq!(named(part.to_string()), expected);
    assert_eq!(named(format!("---\ntitle: x\n---\n# A\n\nOne.\n\n{part}# B\n\nTwo.\n")), expected);
    assert_eq!(named(format!("Loose.\n\n{part}# B\n\n- x\n")), expected);
}

#[test]
fn pagination_is_deterministic_and_pages_are_addressable() {
    let blocks = parse(&quarter());
    let a = paginate(&blocks);
    let b = paginate(&blocks);
    assert_eq!(a.len(), b.len());
    for (x, y) in a.iter().zip(b.iter()) {
        assert_eq!(x.number, y.number);
        assert_eq!(x.blocks, y.blocks);
    }
    assert!(!a.is_empty());
    assert_eq!(a[0].number, 1);
}

#[test]
fn only_the_pages_holding_changed_blocks_are_dirty() {
    // A long document so there is more than one page to be wrong about.
    let mut doc = String::from("# Long\n\n");
    for i in 0..80 {
        doc.push_str(&format!("Paragraph number {i}.\n\n"));
    }
    let blocks = parse(&Artifact::new("long.md", doc.into_bytes()));
    let pages = paginate(&blocks);
    assert!(
        pages.len() > 2,
        "expected several pages, got {}",
        pages.len()
    );

    let changed = vec![blocks[1].id.clone()];
    let dirty = pages_for(&pages, &changed);
    assert_eq!(dirty.len(), 1, "one changed block must dirty one page");
    assert_eq!(dirty[0], 1);
}

#[test]
fn slugs_are_stable_and_readable() {
    assert_eq!(slug("Methodology & Notes"), "methodology-notes");
    assert_eq!(slug("  Revenue  "), "revenue");
    assert_eq!(slug("Q3 2026"), "q3-2026");
}

#[test]
fn every_block_maps_to_an_outline_entity() {
    let a = quarter();
    let o = outline(&a);
    assert_eq!(o.entities.len(), parse(&a).len());
    let non_heading = o.entities.iter().find(|e| e.kind == "p").unwrap();
    assert!(
        non_heading.refs.iter().any(|r| r.starts_with("heading:")),
        "a block should hang off its heading"
    );
}

#[test]
fn the_tag_of_a_kind_names_that_kind() {
    for k in [
        BlockKind::Heading,
        BlockKind::Paragraph,
        BlockKind::List,
        BlockKind::Table,
        BlockKind::Figure,
        BlockKind::Code,
        BlockKind::FrontMatter,
    ] {
        assert_eq!(BlockKind::from_tag(k.as_str()), Some(k));
    }
    assert_eq!(BlockKind::from_tag("poem"), None);
}

#[test]
fn every_line_that_is_not_blank_lies_in_one_block() {
    let text = "---\ntitle: x\n---\n\n# One\ntext right below\n\n- \n```\n\ncode\n```\nend";
    let blocks = parse(&Artifact::new("x.md", text.as_bytes().to_vec()));
    let mut at = 0;
    for line in text.split_inclusive('\n') {
        let end = at + line.len();
        let n = blocks.iter().filter(|b| b.start <= at && end <= b.end).count();
        assert!(line.trim().is_empty() || n == 1, "{line:?} lies in {n} blocks");
        at = end;
    }
    assert!(blocks.iter().all(|b| b.start < b.end));
}

#[test]
fn a_document_is_checked_against_what_it_was_before() {
    let adapter = DocAdapter::new();
    let before = art();
    let now = Artifact::new("report.md", DOC.replace("counted", "weighed").into_bytes());
    let o = adapter.outline(&now).unwrap();
    let (delta, impact) = adapter.since(Some(&before), &now, &o);
    assert_eq!(delta.changed, vec!["p:methodology/1"]);
    assert!(impact.units.iter().any(|u| u == "page:1"));
    assert!(adapter.since(None, &now, &o).0.is_empty());
    for level in 0..5u8 {
        assert_eq!(adapter.rung_at(level).map(|r| r.level()), Some(level));
    }
    assert!(adapter.rung_at(5).is_none());
}
