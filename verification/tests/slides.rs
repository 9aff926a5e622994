use flash::adapter::Adapter;
use flash::adapter::AdapterError;
use flash::adapter::Artifact;
use flash::adapter::Delta;
use flash::adapter::Field;
use flash::adapter::ImpactSet;
use flash::adapter::Op;
use flash::adapter::PackRequest;
use flash::slides::channels;
use flash::slides::deck::Deck;
use flash::slides::deck::Element;
use flash::slides::deck::Slide;
use flash::slides::deck::Theme;
use flash::slides::DeckValid;
use flash::slides::FullExport;
use flash::slides::LayoutRules;
use flash::slides::SlidesAdapter;
use flash::slides::Thumbnails;
use flash::slides::VisionCheck;

const PATH: &str = "q3.deck.json";

fn element(kind: &str, text: &str) -> Element {
    Element {
        kind: kind.into(),
        text: text.into(),
        source: None,
    }
}

fn deck() -> Deck {
    Deck {
        theme: Theme::default(),
        slides: vec![
            Slide {
                id: "intro".into(),
                layout: "title-body".into(),
                elements: vec![
                    element("title", "Q3 results"),
                    element("body", "- revenue up\n- costs flat"),
                ],
                notes: "open with the headline number".into(),
            },
            Slide {
                id: "chart".into(),
                layout: "title-chart".into(),
                elements: vec![
                    element("title", "Revenue by quarter"),
                    element("chart", "bar"),
                ],
                notes: String::new(),
            },
        ],
    }
}

fn op(fields: &[(&str, &str)]) -> Op {
    Op::new(
        fields
            .iter()
            .map(|(k, v)| (k.to_string(), Field::Text(v.to_string())))
            .collect(),
    )
}

#[test]
fn slides_and_elements_are_entities() {
    let a = SlidesAdapter::new();
    let o = a.outline(PATH, &deck());
    assert!(o.get("slide:intro").is_some());
    assert!(o.get("element:intro/title/1").is_some());
    assert_eq!(
        o.get("element:intro/body/1").unwrap().parent.as_deref(),
        Some("intro")
    );
}

#[test]
fn replacing_an_element_changes_one_element_and_its_slide_stays_put() {
    let a = SlidesAdapter::new();
    let applied = a
        .apply(
            PATH,
            &deck(),
            &vec![op(&[
                ("op", "replace_element"),
                ("element", "element:intro/title/1"),
                ("text", "Q3 results, restated"),
            ])],
        )
        .ok()
        .unwrap();
    assert!(applied
        .delta
        .changed
        .contains(&"element:intro/title/1".to_string()));
    let d = applied.deck;
    assert_eq!(d.slides.len(), 2);
    assert_eq!(d.slides[0].id, "intro");
}

#[test]
fn a_changed_element_dirties_exactly_one_thumbnail() {
    let a = SlidesAdapter::new();
    let outline = a.outline(PATH, &deck());
    let delta = Delta {
        changed: vec!["element:intro/title/1".into()],
        ..Default::default()
    };
    let impact = a.impact(&outline, &delta);
    assert_eq!(impact.units, vec!["thumbnail:intro"], "{impact:?}");
}

#[test]
fn an_unknown_layout_is_refused_at_apply_time() {
    let a = SlidesAdapter::new();
    let err = a
        .apply(
            PATH,
            &deck(),
            &vec![op(&[
                ("op", "apply_layout"),
                ("slide", "intro"),
                ("layout", "fancy"),
            ])],
        )
        .err()
        .unwrap();
    assert!(err.message().contains("unknown layout"), "{}", err.message());
}

#[test]
fn rung_zero_catches_a_layout_without_its_elements() {
    let a = SlidesAdapter::new();
    // title-chart on a slide that has no chart.
    let applied = a
        .apply(
            PATH,
            &deck(),
            &vec![op(&[
                ("op", "apply_layout"),
                ("slide", "intro"),
                ("layout", "title-chart"),
            ])],
        )
        .ok()
        .unwrap();
    let outcome = DeckValid.check(&applied.deck);
    assert!(!outcome.passed);
    assert_eq!(outcome.diagnostics[0].code, "missing-element");
}

#[test]
fn rung_one_catches_overflowing_text() {
    let a = SlidesAdapter::new();
    let long = "x".repeat(200);
    let applied = a
        .apply(
            PATH,
            &deck(),
            &vec![op(&[
                ("op", "replace_element"),
                ("element", "element:intro/title/1"),
                ("text", &long),
            ])],
        )
        .ok()
        .unwrap();
    let outcome = LayoutRules.check(&applied.deck, None);
    assert!(!outcome.passed);
    assert_eq!(outcome.diagnostics[0].code, "text-overflow");
}

#[test]
fn rung_one_catches_low_contrast_and_too_many_ideas() {
    let mut d = deck();
    d.theme.fg = "#cccccc".into();
    d.theme.bg = "#ffffff".into();
    d.slides[0].elements[1].text = (0..10)
        .map(|i| format!("- point {i}"))
        .collect::<Vec<_>>()
        .join("\n");

    let fg = luminance(&d.theme.fg).unwrap();
    let bg = luminance(&d.theme.bg).unwrap();
    let ratio = (bg + 0.05) / (fg + 0.05);
    assert!(ratio < 4.5, "got {ratio}");
    let shown = format!("{ratio:.1}");
    let outcome = LayoutRules.check(&d, Some(&shown));
    let codes: Vec<&str> = outcome
        .diagnostics
        .iter()
        .map(|x| x.code.as_str())
        .collect();
    assert!(codes.contains(&"low-contrast"), "{codes:?}");
    assert!(codes.contains(&"too-many-ideas"), "{codes:?}");
}

/// The relative luminance of a colour.
fn luminance(hex: &str) -> Option<f64> {
    let (r, g, b) = channels(hex)?;
    let part = |v: u8| {
        let s = v as f64 / 255.0;
        if s <= 0.03928 {
            s / 12.92
        } else {
            ((s + 0.055) / 1.055).powf(2.4)
        }
    };
    Some(0.2126 * part(r) + 0.7152 * part(g) + 0.0722 * part(b))
}

#[test]
fn contrast_of_black_on_white_is_the_textbook_ratio() {
    let fg = luminance("#000000").unwrap();
    let bg = luminance("#ffffff").unwrap();
    let ratio = (bg + 0.05) / (fg + 0.05);
    assert!((ratio - 21.0).abs() < 0.1, "got {ratio}");
}

#[test]
fn a_pack_carries_the_slide_the_outline_and_the_theme() {
    let a = SlidesAdapter::new();
    let d = deck();
    let outline = a.outline(PATH, &d);
    let artifact = Artifact::new(PATH, Vec::new());
    let pack = a
        .pack(
            &d,
            &PackRequest {
                artifact: &artifact,
                outline: &outline,
                target: "slide:intro",
                budget_chars: 4_000,
            },
        )
        .unwrap();
    let text = pack.render();
    assert!(text.contains("Q3 results"), "{text}");
    assert!(text.contains("Revenue by quarter"), "outline: {text}");
    assert!(
        text.contains("4.5") || text.contains("fits"),
        "theme: {text}"
    );
    assert!(text.contains("open with the headline"), "notes: {text}");
}

#[test]
fn reorder_moves_a_slide_without_touching_its_content() {
    let a = SlidesAdapter::new();
    let applied = a
        .apply(
            PATH,
            &deck(),
            &vec![op(&[
                ("op", "reorder"),
                ("slide", "chart"),
                ("after", "start"),
            ])],
        )
        .ok()
        .unwrap();
    assert_eq!(applied.deck.slides[0].id, "chart");
    assert!(
        applied.delta.changed.is_empty(),
        "moving a slide changes order, not content: {:?}",
        applied.delta
    );
}

#[test]
fn colours_are_read_as_three_channels() {
    assert_eq!(channels("#0a10ff"), Some((10, 16, 255)));
    assert_eq!(channels("#fff"), None);
    assert_eq!(channels("#gggggg"), None);
}

#[test]
fn an_element_that_is_not_there_is_an_unknown_entity() {
    let a = SlidesAdapter::new();
    for id in ["element:intro/title/2", "element:intro/title/0"] {
        let err = a
            .apply(
                PATH,
                &deck(),
                &vec![op(&[
                    ("op", "replace_element"),
                    ("element", id),
                    ("text", "x"),
                ])],
            )
            .err()
            .unwrap();
        assert!(
            matches!(err, AdapterError::UnknownEntity(_)),
            "{}",
            err.message()
        );
    }
}

#[test]
fn a_clean_deck_climbs_the_ladder_but_for_the_missing_model() {
    let a = SlidesAdapter::new();
    assert!(a.handles("q3.deck.json"));
    assert!(!a.handles("q3.md"));
    let d = deck();
    assert!(DeckValid.check(&d).passed);
    assert!(LayoutRules.check(&d, None).passed);
    assert!(Thumbnails.check(&d, &ImpactSet::default()).passed);
    let vision = VisionCheck { model: None }.check();
    assert!(vision.unavailable && !vision.passed);
    assert!(FullExport.check(&d).passed);
    let levels: Vec<u8> = a.ladder().iter().map(|r| r.level()).collect();
    assert_eq!(levels, vec![0, 1, 2, 3, 4]);
}

#[test]
fn an_overflow_is_reported_on_the_element_of_its_kind() {
    let mut d = deck();
    d.slides[0].elements[1].text = "x".repeat(5_000);
    let outcome = LayoutRules.check(&d, None);
    assert!(!outcome.passed);
    assert_eq!(outcome.diagnostics[0].code, "text-overflow");
    assert_eq!(outcome.diagnostics[0].entity.as_deref(), Some("element:intro/body/1"));
}
