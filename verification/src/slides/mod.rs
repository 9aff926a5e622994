//! Decks as typed elements bound to a theme.
//!
//! "Text fits its box, contrast is legible, one idea per slide" are measurable properties of the
//! deck model, so they are checked in a millisecond. Thumbnails are the impact unit: a changed
//! slide re-renders one thumbnail, not the deck.

pub mod changes;
pub mod deck;

use crate::adapter::delta_between;
use crate::adapter::delta_of;
use crate::adapter::entity_views;
use crate::adapter::finding;
use crate::adapter::finding_at;
use crate::adapter::findings;
use crate::adapter::fitted;
use crate::adapter::report;
use crate::adapter::unknown;
use crate::adapter::with_part;
use crate::adapter::Adapter;
use crate::adapter::AdapterError;
use crate::adapter::Artifact;
use crate::adapter::Delta;
use crate::adapter::Diagnostic;
use crate::adapter::Entity;
use crate::adapter::EntityView;
use crate::adapter::Fault;
use crate::adapter::Finding;
use crate::adapter::ImpactSet;
use crate::adapter::ImpactView;
use crate::adapter::Op;
use crate::adapter::Outcome;
use crate::adapter::Outline;
use crate::adapter::OutlineView;
use crate::adapter::Pack;
use crate::adapter::PackRequest;
use crate::adapter::Part;
use crate::adapter::RungOutcome;
use crate::names::mentions;
use crate::text::begins;
use crate::text::decimal;
use crate::text::ends;
use crate::text::ends_with;
use crate::text::from_chars;
use crate::text::join;
use crate::text::join_of;
use crate::text::lines;
use crate::text::lines_of;
use crate::text::same;
use crate::text::show;
use crate::text::show_wide;
use crate::text::starts_with;
use crate::text::texts;
use crate::text::to_chars;
use crate::text::trim_start;
use crate::text::trim_start_of;
use crate::wording::lower_of;
use crate::wording::skip_char;
use crate::wording::strip_leading;
use crate::wording::strip_prefix;
use crate::wording::to_lower;
use deck::elements;
use deck::expected;
use deck::expected_kinds;
use deck::kind_count;
use deck::redo;
use deck::redone;
use deck::slide_at;
use deck::slides;
use deck::Deck;
use deck::DeckView;
use deck::Element;
use deck::ElementView;
use deck::Slide;
use deck::SlideView;
use deck::ThemeView;
use vstd::prelude::*;

verus! {

/// What the executor model may emit for a deck.
pub const OP_SCHEMA: &'static str = r#"{
  "$schema": "https://json-schema.org/draft/2020-12/schema",
  "title": "flash slide ops",
  "type": "array",
  "minItems": 1,
  "maxItems": 64,
  "items": {
    "type": "object",
    "required": [
      "op"
    ],
    "oneOf": [
      {
        "properties": {
          "op": {
            "const": "add_slide"
          },
          "id": {
            "type": "string"
          },
          "after": {
            "type": "string",
            "description": "slide id, or \"start\""
          },
          "layout": {
            "type": "string"
          },
          "title": {
            "type": "string"
          },
          "body": {
            "type": "string"
          }
        },
        "required": [
          "op",
          "id",
          "layout",
          "title"
        ],
        "additionalProperties": false
      },
      {
        "properties": {
          "op": {
            "const": "replace_element"
          },
          "element": {
            "type": "string"
          },
          "text": {
            "type": "string"
          }
        },
        "required": [
          "op",
          "element",
          "text"
        ],
        "additionalProperties": false
      },
      {
        "properties": {
          "op": {
            "const": "reorder"
          },
          "slide": {
            "type": "string"
          },
          "after": {
            "type": "string"
          }
        },
        "required": [
          "op",
          "slide",
          "after"
        ],
        "additionalProperties": false
      },
      {
        "properties": {
          "op": {
            "const": "apply_layout"
          },
          "slide": {
            "type": "string"
          },
          "layout": {
            "type": "string"
          }
        },
        "required": [
          "op",
          "slide",
          "layout"
        ],
        "additionalProperties": false
      },
      {
        "properties": {
          "op": {
            "const": "bind_chart_data"
          },
          "element": {
            "type": "string"
          },
          "source": {
            "type": "string"
          }
        },
        "required": [
          "op",
          "element",
          "source"
        ],
        "additionalProperties": false
      },
      {
        "properties": {
          "op": {
            "const": "delete_slide"
          },
          "slide": {
            "type": "string"
          }
        },
        "required": [
          "op",
          "slide"
        ],
        "additionalProperties": false
      }
    ]
  }
}"#;

/// How much of an element's text stands in an outline.
pub const SIGNATURE_CHARS: usize = 120;

/// An element's id: its slide, its kind, and its number among the slide's elements of that kind.
pub open spec fn element_id(slide: Seq<char>, kind: Seq<char>, n: nat) -> Seq<char> {
    "element:"@ + slide + "/"@ + kind + "/"@ + decimal(n)
}

fn id_of_element(slide: &str, kind: &str, n: u64) -> (r: String)
    ensures
        r@ == element_id(slide@, kind@, n as nat),
{
    let mut id = "element:".to_owned();
    id.push_str(slide);
    id.push_str("/");
    id.push_str(kind);
    id.push_str("/");
    let d = show(n);
    id.push_str(d.as_str());
    id
}

/// A slide's id as an entity.
pub open spec fn slide_id(id: Seq<char>) -> Seq<char> {
    "slide:"@ + id
}

fn id_of_slide(id: &str) -> (r: String)
    ensures
        r@ == slide_id(id@),
{
    let mut s = "slide:".to_owned();
    s.push_str(id);
    s
}

/// Where the first element of a kind is, or the number of elements.
pub open spec fn first_of(e: Seq<ElementView>, kind: Seq<char>) -> int
    decreases e.len(),
{
    if e.len() == 0 || e[0].kind == kind {
        0
    } else {
        1 + first_of(e.skip(1), kind)
    }
}

/// A slide's title: the text of its first title.
pub open spec fn title_of(s: SlideView) -> Seq<char> {
    let i = first_of(s.elements, "title"@);
    if i < s.elements.len() {
        s.elements[i].text
    } else {
        "(untitled)"@
    }
}

fn find_kind(e: &Vec<Element>, kind: &str) -> (r: usize)
    ensures
        r == first_of(elements(e@), kind@),
        r <= e@.len(),
{
    let ghost all = elements(e@);
    let mut i: usize = 0;
    assert(all.skip(0) =~= all);
    while i < e.len() && !same(e[i].kind.as_str(), kind)
        invariant
            i <= e@.len(),
            all == elements(e@),
            first_of(all, kind@) == i + first_of(all.skip(i as int), kind@),
        decreases e@.len() - i,
    {
        assert(all.skip(i as int)[0] == e@[i as int]@);
        assert(all.skip(i as int).skip(1) =~= all.skip(i + 1));
        i += 1;
    }
    proof {
        if i < e@.len() {
            assert(all.skip(i as int)[0] == e@[i as int]@);
        }
    }
    i
}

/// A slide's title.
pub fn title(s: &Slide) -> (r: String)
    ensures
        r@ == title_of(s@),
{
    let i = find_kind(&s.elements, "title");
    if i < s.elements.len() {
        assert(s@.elements[i as int] == s.elements@[i as int]@);
        s.elements[i].text.clone()
    } else {
        "(untitled)".to_owned()
    }
}

/// A slide as an entity.
pub open spec fn slide_entity(s: SlideView) -> EntityView {
    EntityView {
        id: slide_id(s.id),
        kind: "slide"@,
        start: 0,
        end: 0,
        body: None,
        signature: Some(title_of(s) + " ["@ + s.layout + "]"@),
        refs: Seq::empty(),
        parent: None,
    }
}

/// The opening of a text.
pub open spec fn clipped(t: Seq<char>) -> Seq<char> {
    if t.len() > SIGNATURE_CHARS {
        t.take(SIGNATURE_CHARS as int)
    } else {
        t
    }
}

fn clip(t: &str) -> (r: String)
    ensures
        r@ == clipped(t@),
{
    let v = to_chars(t);
    if v.len() > SIGNATURE_CHARS {
        let r = from_chars(vstd::slice::slice_subrange(v.as_slice(), 0, SIGNATURE_CHARS));
        assert(v@.subrange(0, SIGNATURE_CHARS as int) =~= t@.take(SIGNATURE_CHARS as int));
        r
    } else {
        t.to_owned()
    }
}

/// The last of a run of elements as an entity. It refers to its slide: that edge is what turns a
/// changed element into exactly one dirty thumbnail.
pub open spec fn element_entity(slide: Seq<char>, e: Seq<ElementView>) -> EntityView {
    EntityView {
        id: element_id(slide, e.last().kind, kind_count(e, e.last().kind)),
        kind: e.last().kind,
        start: 0,
        end: 0,
        body: None,
        signature: Some(clipped(e.last().text)),
        refs: seq![slide_id(slide)],
        parent: Some(slide),
    }
}

/// A run of elements as entities.
pub open spec fn element_entities(slide: Seq<char>, e: Seq<ElementView>) -> Seq<EntityView>
    decreases e.len(),
{
    if e.len() == 0 {
        Seq::empty()
    } else {
        element_entities(slide, e.drop_last()).push(element_entity(slide, e))
    }
}

/// A run of slides as entities, each followed by its elements.
pub open spec fn slide_entities(s: Seq<SlideView>) -> Seq<EntityView>
    decreases s.len(),
{
    if s.len() == 0 {
        Seq::empty()
    } else {
        slide_entities(s.drop_last()).push(slide_entity(s.last())) + element_entities(
            s.last().id,
            s.last().elements,
        )
    }
}

/// The outline of a deck.
pub open spec fn outline_of(path: Seq<char>, d: DeckView) -> OutlineView {
    OutlineView { path, entities: slide_entities(d.slides) }
}

/// How many of the first `n` elements are of a kind.
fn count_kind(e: &Vec<Element>, n: usize, kind: &str) -> (r: u64)
    requires
        n <= e@.len(),
    ensures
        r == kind_count(elements(e@).take(n as int), kind@),
{
    let ghost all = elements(e@);
    let mut r: u64 = 0;
    let mut i: usize = 0;
    assert(all.take(0) =~= Seq::<ElementView>::empty());
    while i < n
        invariant
            i <= n <= e@.len(),
            all == elements(e@),
            r <= i,
            r == kind_count(all.take(i as int), kind@),
        decreases n - i,
    {
        let ghost nn = all.take(i + 1);
        assert(nn.drop_last() =~= all.take(i as int));
        assert(nn.last() == e@[i as int]@);
        let len = e.len();
        assert(i < len);
        if same(e[i].kind.as_str(), kind) {
            r += 1;
        }
        i += 1;
    }
    r
}

/// A deck after a batch of ops, and what that changed.
pub struct Redone {
    pub deck: Deck,
    pub delta: Delta,
}

/// The slides that one touched entity is on: the slide that it is, and the slide that it is part
/// of.
pub open spec fn slides_of(o: OutlineView, id: Seq<char>) -> Seq<Seq<char>> {
    let own = if begins(id, "slide:"@) {
        seq![id.skip("slide:"@.len() as int)]
    } else {
        Seq::empty()
    };
    match o.entity(id) {
        Some(e) => match e.parent {
            Some(p) => own.push(p),
            None => own,
        },
        None => own,
    }
}

/// A list with the members of another that it has not, each once.
pub open spec fn joined_once(v: Seq<Seq<char>>, more: Seq<Seq<char>>) -> Seq<Seq<char>>
    decreases more.len(),
{
    if more.len() == 0 {
        v
    } else {
        let r = joined_once(v, more.drop_last());
        if r.contains(more.last()) {
            r
        } else {
            r.push(more.last())
        }
    }
}

/// The slides that touched entities are on, each once.
pub open spec fn dirty_slides(o: OutlineView, touched: Seq<Seq<char>>) -> Seq<Seq<char>>
    decreases touched.len(),
{
    if touched.len() == 0 {
        Seq::empty()
    } else {
        joined_once(
            dirty_slides(o, touched.drop_last()),
            slides_of(o, touched.last()),
        )
    }
}

/// A slide as a render unit.
pub open spec fn thumbnail(id: Seq<char>) -> Seq<char> {
    "thumbnail:"@ + id
}

/// What a change to a deck has to render: the thumbnail of each slide that something touched is on.
pub open spec fn impact_of(o: OutlineView, touched: Seq<Seq<char>>) -> ImpactView {
    ImpactView {
        entities: touched,
        tests: Seq::empty(),
        units: dirty_slides(o, touched).map_values(|id: Seq<char>| thumbnail(id)),
    }
}

/// The lines of a deck's outline.
pub open spec fn slide_lines(s: Seq<SlideView>) -> Seq<Seq<char>>
    decreases s.len(),
{
    if s.len() == 0 {
        Seq::empty()
    } else {
        let x = s.last();
        slide_lines(s.drop_last()).push(
            decimal(s.len()) + ". "@ + title_of(x) + " ["@ + x.layout + "] ("@ + x.id + ")"@,
        )
    }
}

/// The lines of a slide.
pub open spec fn element_lines(e: Seq<ElementView>) -> Seq<Seq<char>>
    decreases e.len(),
{
    if e.len() == 0 {
        Seq::empty()
    } else {
        element_lines(e.drop_last()).push(
            e.last().kind + " ("@ + decimal(e.len()) + "): "@ + e.last().text,
        )
    }
}

/// A theme in words.
pub open spec fn theme_text(t: ThemeView) -> Seq<char> {
    "fg "@ + t.fg + " / bg "@ + t.bg + " / accent "@ + t.accent + "\ntitle fits "@ + decimal(
        t.title_max_chars,
    ) + " chars, body fits "@ + decimal(t.body_max_chars) + " chars, at most "@ + decimal(
        t.max_bullets,
    ) + " bullets"@
}

/// The pack of a slide: the deck's outline, the slide, the theme and the speaker notes, cut from
/// the back to its budget; the first two stay.
pub open spec fn pack_of(d: DeckView, s: SlideView, budget: nat) -> Seq<Part> {
    let p1 = with_part(Seq::empty(), "deck outline"@, join_of(slide_lines(d.slides), "\n"@));
    let p2 = with_part(p1, "target slide"@, join_of(element_lines(s.elements), "\n"@));
    let p3 = with_part(p2, "theme"@, theme_text(d.theme));
    let p4 = with_part(p3, "speaker notes"@, s.notes);
    fitted(
        p4,
        if budget > 500 {
            budget
        } else {
            500
        },
        2,
    )
}

/// The slide that a target is or is on.
pub open spec fn target_slide(o: OutlineView, target: Seq<char>) -> Option<Seq<char>> {
    if begins(target, "slide:"@) {
        Some(target.skip("slide:"@.len() as int))
    } else {
        match o.entity(target) {
            Some(e) => e.parent,
            None => None,
        }
    }
}

fn push_unique(v: &mut Vec<String>, s: String)
    ensures
        texts(final(v)@) == joined_once(texts(old(v)@), seq![s@]),
{
    let ghost was = texts(v@);
    proof {
        assert(seq![s@].drop_last() =~= Seq::<Seq<char>>::empty());
        assert(joined_once(was, Seq::<Seq<char>>::empty()) == was);
    }
    if !mentions(v, s.as_str()) {
        let ghost sv = s@;
        v.push(s);
        assert(texts(v@) =~= was.push(sv));
    }
}

fn list_slide_lines(s: &Vec<Slide>) -> (r: Vec<String>)
    ensures
        texts(r@) == slide_lines(slides(s@)),
{
    let ghost all = slides(s@);
    let mut out: Vec<String> = Vec::new();
    let mut i: usize = 0;
    assert(texts(out@) =~= slide_lines(all.take(0)));
    while i < s.len()
        invariant
            i <= s@.len(),
            all == slides(s@),
            texts(out@) == slide_lines(all.take(i as int)),
        decreases s@.len() - i,
    {
        let ghost was = texts(out@);
        let ghost nn = all.take(i + 1);
        assert(nn.drop_last() =~= all.take(i as int));
        assert(nn.last() == s@[i as int]@);
        let len = s.len();
        assert(i < len);
        let mut t = show((i + 1) as u64);
        t.push_str(". ");
        let name = title(&s[i]);
        t.push_str(name.as_str());
        t.push_str(" [");
        t.push_str(s[i].layout.as_str());
        t.push_str("] (");
        t.push_str(s[i].id.as_str());
        t.push_str(")");
        out.push(t);
        assert(texts(out@) =~= was.push(t@));
        i += 1;
    }
    assert(all.take(i as int) =~= all);
    out
}

fn list_element_lines(e: &Vec<Element>) -> (r: Vec<String>)
    ensures
        texts(r@) == element_lines(elements(e@)),
{
    let ghost all = elements(e@);
    let mut out: Vec<String> = Vec::new();
    let mut i: usize = 0;
    assert(texts(out@) =~= element_lines(all.take(0)));
    while i < e.len()
        invariant
            i <= e@.len(),
            all == elements(e@),
            texts(out@) == element_lines(all.take(i as int)),
        decreases e@.len() - i,
    {
        let ghost was = texts(out@);
        let ghost nn = all.take(i + 1);
        assert(nn.drop_last() =~= all.take(i as int));
        assert(nn.last() == e@[i as int]@);
        let len = e.len();
        assert(i < len);
        let mut t = e[i].kind.clone();
        t.push_str(" (");
        let n = show((i + 1) as u64);
        t.push_str(n.as_str());
        t.push_str("): ");
        t.push_str(e[i].text.as_str());
        out.push(t);
        assert(texts(out@) =~= was.push(t@));
        i += 1;
    }
    assert(all.take(i as int) =~= all);
    out
}

fn describe_theme(d: &Deck) -> (r: String)
    ensures
        r@ == theme_text(d@.theme),
{
    let mut t = "fg ".to_owned();
    t.push_str(d.theme.fg.as_str());
    t.push_str(" / bg ");
    t.push_str(d.theme.bg.as_str());
    t.push_str(" / accent ");
    t.push_str(d.theme.accent.as_str());
    t.push_str("\ntitle fits ");
    let n = show(d.theme.title_max_chars as u64);
    t.push_str(n.as_str());
    t.push_str(" chars, body fits ");
    let n = show(d.theme.body_max_chars as u64);
    t.push_str(n.as_str());
    t.push_str(" chars, at most ");
    let n = show(d.theme.max_bullets as u64);
    t.push_str(n.as_str());
    t.push_str(" bullets");
    t
}

pub struct SlidesAdapter;

impl Default for SlidesAdapter {
    fn default() -> (r: Self)
        ensures
            r == SlidesAdapter,
    {
        SlidesAdapter
    }
}

/// The checks for a deck, cheapest first, each at the level that counts those before it.
pub open spec fn rungs() -> Seq<SlideRung> {
    seq![
        SlideRung::Model(DeckValid),
        SlideRung::Layout(LayoutRules),
        SlideRung::Thumbnails(Thumbnails),
        SlideRung::Vision(VisionCheck { model: None }),
        SlideRung::Export(FullExport),
    ]
}

impl SlidesAdapter {
    pub fn new() -> (r: Self)
        ensures
            r == SlidesAdapter,
    {
        SlidesAdapter
    }

    /// Adds a slide's elements to the entities.
    fn outline_elements(&self, s: &Slide, out: &mut Vec<Entity>)
        ensures
            entity_views(final(out)@) == entity_views(old(out)@) + element_entities(
                s@.id,
                s@.elements,
            ),
    {
        let ghost base = entity_views(out@);
        let ghost all = s@.elements;
        let mut i: usize = 0;
        assert(base + element_entities(s@.id, all.take(0)) =~= base);
        while i < s.elements.len()
            invariant
                i <= s.elements@.len(),
                all == s@.elements,
                entity_views(out@) == base + element_entities(s@.id, all.take(i as int)),
            decreases s.elements@.len() - i,
        {
            let ghost was = entity_views(out@);
            let ghost nn = all.take(i + 1);
            assert(nn.drop_last() =~= all.take(i as int));
            assert(nn.last() == s.elements@[i as int]@);
            let e = &s.elements[i];
            let n = count_kind(&s.elements, i + 1, e.kind.as_str());
            let mut refs: Vec<String> = Vec::new();
            refs.push(id_of_slide(s.id.as_str()));
            assert(texts(refs@) =~= seq![slide_id(s@.id)]);
            let entity = Entity {
                id: id_of_element(s.id.as_str(), e.kind.as_str(), n),
                kind: e.kind.clone(),
                start: 0,
                end: 0,
                body: None,
                signature: Some(clip(e.text.as_str())),
                refs,
                parent: Some(s.id.clone()),
            };
            assert(entity@ =~= element_entity(s@.id, nn));
            let ghost ev = entity@;
            out.push(entity);
            assert(entity_views(out@) =~= was.push(ev));
            assert(was.push(ev) =~= base + element_entities(s@.id, nn));
            i += 1;
        }
        assert(all.take(i as int) =~= all);
    }

    /// The slides of a deck, each followed by its elements.
    pub fn outline(&self, path: &str, deck: &Deck) -> (r: Outline)
        ensures
            r@ == outline_of(path@, deck@),
    {
        let mut out: Vec<Entity> = Vec::new();
        let ghost all = deck@.slides;
        let mut i: usize = 0;
        assert(entity_views(out@) =~= slide_entities(all.take(0)));
        while i < deck.slides.len()
            invariant
                i <= deck.slides@.len(),
                all == deck@.slides,
                entity_views(out@) == slide_entities(all.take(i as int)),
            decreases deck.slides@.len() - i,
        {
            let ghost was = entity_views(out@);
            let ghost nn = all.take(i + 1);
            assert(nn.drop_last() =~= all.take(i as int));
            assert(nn.last() == deck.slides@[i as int]@);
            let s = &deck.slides[i];
            let mut sig = title(s);
            sig.push_str(" [");
            sig.push_str(s.layout.as_str());
            sig.push_str("]");
            let none: Vec<String> = Vec::new();
            assert(texts(none@) =~= Seq::<Seq<char>>::empty());
            let entity = Entity {
                id: id_of_slide(s.id.as_str()),
                kind: "slide".to_owned(),
                start: 0,
                end: 0,
                body: None,
                signature: Some(sig),
                refs: none,
                parent: None,
            };
            assert(entity@ =~= slide_entity(s@));
            let ghost ev = entity@;
            out.push(entity);
            assert(entity_views(out@) =~= was.push(ev));
            self.outline_elements(s, &mut out);
            i += 1;
        }
        assert(all.take(i as int) =~= all);
        let r = Outline { path: path.to_owned(), entities: out };
        assert(r@ =~= outline_of(path@, deck@));
        r
    }

    /// Applies a batch of ops. All or nothing: a rejected op leaves the deck untouched.
    pub fn apply(&self, path: &str, deck: &Deck, ops: &Vec<Op>) -> (r: Result<
        Redone,
        AdapterError,
    >)
        ensures
            match r {
                Ok(done) => {
                    &&& redone(ops@, deck@) == Ok::<DeckView, Fault>(done.deck@)
                    &&& done.delta@ == delta_of(
                        outline_of(path@, deck@),
                        outline_of(path@, done.deck@),
                        Seq::empty(),
                        Seq::empty(),
                    )
                },
                Err(e) => redone(ops@, deck@) == Err::<DeckView, Fault>(e@),
            },
    {
        let now = redo(ops, deck)?;
        let after = self.outline(path, &now);
        let old = self.outline(path, deck);
        let blank = Artifact::new(path, Vec::new());
        let delta = delta_between(&old, &after, &blank, &blank);
        Ok(Redone { deck: now, delta })
    }

    /// What has to be rendered again after a delta.
    pub fn impact(&self, outline: &Outline, delta: &Delta) -> (r: ImpactSet)
        ensures
            r@ == impact_of(outline@, delta@.touched()),
    {
        let touched = delta.touched();
        let ghost all = texts(touched@);
        let mut dirty: Vec<String> = Vec::new();
        let mut i: usize = 0;
        assert(texts(dirty@) =~= dirty_slides(outline@, all.take(0)));
        while i < touched.len()
            invariant
                i <= touched@.len(),
                all == texts(touched@),
                texts(dirty@) == dirty_slides(outline@, all.take(i as int)),
            decreases touched@.len() - i,
        {
            let ghost was = texts(dirty@);
            let ghost nn = all.take(i + 1);
            let ghost id = touched@[i as int]@;
            assert(nn.drop_last() =~= all.take(i as int));
            assert(nn.last() == id);
            let ghost mut gone: Seq<Seq<char>> = Seq::empty();
            assert(joined_once(was, gone) == was);
            if let Some(rest) = strip_prefix(touched[i].as_str(), "slide:") {
                let ghost rv = rest@;
                push_unique(&mut dirty, rest);
                proof {
                    gone = seq![rv];
                }
            }
            if let Some(e) = outline.get(touched[i].as_str()) {
                if let Some(p) = &e.parent {
                    let ghost mid = texts(dirty@);
                    push_unique(&mut dirty, p.clone());
                    proof {
                        assert(seq![p@].drop_last() =~= Seq::<Seq<char>>::empty());
                        assert(joined_once(mid, Seq::<Seq<char>>::empty()) == mid);
                        assert(gone.push(p@).drop_last() =~= gone);
                        assert(texts(dirty@) == joined_once(was, gone.push(p@)));
                        gone = gone.push(p@);
                    }
                }
            }
            assert(gone =~= slides_of(outline@, id));
            i += 1;
        }
        assert(all.take(i as int) =~= all);
        let ghost named = texts(dirty@).map_values(|id: Seq<char>| thumbnail(id));
        let mut units: Vec<String> = Vec::new();
        let mut j: usize = 0;
        assert(texts(units@) =~= named.take(0));
        while j < dirty.len()
            invariant
                j <= dirty@.len(),
                named == texts(dirty@).map_values(|id: Seq<char>| thumbnail(id)),
                texts(units@) == named.take(j as int),
            decreases dirty@.len() - j,
        {
            let ghost was = texts(units@);
            let mut u = "thumbnail:".to_owned();
            u.push_str(dirty[j].as_str());
            assert(u@ == named[j as int]);
            units.push(u);
            assert(texts(units@) =~= was.push(u@));
            assert(named.take(j + 1) =~= was.push(u@));
            j += 1;
        }
        assert(named.take(j as int) =~= named);
        let r = ImpactSet { entities: touched, tests: Vec::new(), units };
        assert(r@ =~= impact_of(outline@, delta@.touched()));
        r
    }

    /// The context for one edit.
    pub fn pack(&self, deck: &Deck, req: &PackRequest<'_>) -> (r: Result<Pack, AdapterError>)
        ensures
            ({
                let t = target_slide(req.outline@, req.target@);
                let i = slide_at(deck@.slides, t->0);
                match r {
                    Ok(p) => t is Some && i < deck@.slides.len() && p@ == pack_of(
                        deck@,
                        deck@.slides[i],
                        req.budget_chars as nat,
                    ),
                    Err(e) => !(t is Some && i < deck@.slides.len()) && e@ == Fault::UnknownEntity(
                        req.target@,
                    ),
                }
            }),
    {
        let id = match strip_prefix(req.target, "slide:") {
            Some(s) => Some(s),
            None => match req.outline.get(req.target) {
                Some(e) => match &e.parent {
                    Some(p) => Some(p.clone()),
                    None => None,
                },
                None => None,
            },
        };
        let id = match id {
            Some(s) => s,
            None => {
                return Err(unknown(req.target));
            },
        };
        let slide = match deck.slide(id.as_str()) {
            Some(s) => s,
            None => {
                return Err(unknown(req.target));
            },
        };
        let mut pack = Pack::default();
        let part = join(&list_slide_lines(&deck.slides), "\n");
        pack.push("deck outline", part.as_str());
        let part = join(&list_element_lines(&slide.elements), "\n");
        pack.push("target slide", part.as_str());
        let part = describe_theme(deck);
        pack.push("theme", part.as_str());
        pack.push("speaker notes", slide.notes.as_str());
        let limit: usize = if req.budget_chars > 500 { req.budget_chars } else { 500 };
        pack.fit(limit, 2);
        Ok(pack)
    }

    /// The checks for a deck, cheapest first.
    pub fn ladder(&self) -> (r: Vec<SlideRung>)
        ensures
            r@ == rungs(),
    {
        let mut r: Vec<SlideRung> = Vec::new();
        r.push(SlideRung::Model(DeckValid));
        r.push(SlideRung::Layout(LayoutRules));
        r.push(SlideRung::Thumbnails(Thumbnails));
        r.push(SlideRung::Vision(VisionCheck { model: None }));
        r.push(SlideRung::Export(FullExport));
        r
    }

    /// The check at a level of the ladder, where there is one.
    pub fn rung_at(&self, level: u8) -> (r: Option<SlideRung>)
        ensures
            r == if level < rungs().len() {
                Some(rungs()[level as int])
            } else {
                None
            },
    {
        let mut all = self.ladder();
        if (level as usize) < all.len() {
            Some(all.remove(level as usize))
        } else {
            None
        }
    }
}

impl Adapter for SlidesAdapter {
    open spec fn covers(&self, path: Seq<char>) -> bool {
        ends(lower_of(path), ".deck.json"@) || ends(lower_of(path), ".pptx"@)
    }

    fn name(&self) -> (r: &'static str)
        ensures
            r@ == "slides"@,
    {
        "slides"
    }

    fn version(&self) -> (r: &'static str)
        ensures
            r@ == "slides-v1"@,
    {
        "slides-v1"
    }

    fn handles(&self, path: &str) -> (r: bool) {
        let lower = to_lower(path);
        ends_with(lower.as_str(), ".deck.json") || ends_with(lower.as_str(), ".pptx")
    }

    fn op_schema(&self) -> (r: &'static str)
        ensures
            r@ == OP_SCHEMA@,
    {
        OP_SCHEMA
    }
}

/// Rung 0: the deck model is valid.
pub struct DeckValid;

/// Rung 1: text fits its box, contrast is legible, one idea per slide.
pub struct LayoutRules;

/// Rung 2: thumbnail the changed slides only.
pub struct Thumbnails;

/// Rung 3: a small vision model on the changed thumbnails.
pub struct VisionCheck {
    /// None means no vision model is configured.
    pub model: Option<String>,
}

/// Rung 4: full export, once.
pub struct FullExport;

/// One check of the deck ladder.
pub enum SlideRung {
    Model(DeckValid),
    Layout(LayoutRules),
    Thumbnails(Thumbnails),
    Vision(VisionCheck),
    Export(FullExport),
}

impl SlideRung {
    pub open spec fn title(&self) -> Seq<char> {
        match self {
            SlideRung::Model(_) => "deck-model"@,
            SlideRung::Layout(_) => "layout-rules"@,
            SlideRung::Thumbnails(_) => "thumbnails"@,
            SlideRung::Vision(_) => "vision-check"@,
            SlideRung::Export(_) => "full-export"@,
        }
    }

    pub fn name(&self) -> (r: &'static str)
        ensures
            r@ == self.title(),
    {
        match self {
            SlideRung::Model(_) => "deck-model",
            SlideRung::Layout(_) => "layout-rules",
            SlideRung::Thumbnails(_) => "thumbnails",
            SlideRung::Vision(_) => "vision-check",
            SlideRung::Export(_) => "full-export",
        }
    }

    pub fn level(&self) -> (r: u8)
        ensures
            r == match self {
                SlideRung::Model(_) => 0u8,
                SlideRung::Layout(_) => 1u8,
                SlideRung::Thumbnails(_) => 2u8,
                SlideRung::Vision(_) => 3u8,
                SlideRung::Export(_) => 4u8,
            },
    {
        match self {
            SlideRung::Model(_) => 0,
            SlideRung::Layout(_) => 1,
            SlideRung::Thumbnails(_) => 2,
            SlideRung::Vision(_) => 3,
            SlideRung::Export(_) => 4,
        }
    }

    pub fn expected_ms(&self) -> (r: u64)
        ensures
            r == match self {
                SlideRung::Model(_) => 1u64,
                SlideRung::Layout(_) => 50u64,
                SlideRung::Thumbnails(_) => 2000u64,
                SlideRung::Vision(_) => 3500u64,
                SlideRung::Export(_) => 15000u64,
            },
    {
        match self {
            SlideRung::Model(_) => 1,
            SlideRung::Layout(_) => 50,
            SlideRung::Thumbnails(_) => 2000,
            SlideRung::Vision(_) => 3500,
            SlideRung::Export(_) => 15000,
        }
    }

    pub fn once_per_task(&self) -> (r: bool)
        ensures
            r == (*self is Export),
    {
        match self {
            SlideRung::Export(_) => true,
            _ => false,
        }
    }
}

/// Has a slide an element of a kind?
pub open spec fn has_kind(e: Seq<ElementView>, kind: Seq<char>) -> bool {
    exists|i: int| 0 <= i < e.len() && (#[trigger] e[i]).kind == kind
}

fn carries(e: &Vec<Element>, kind: &str) -> (r: bool)
    ensures
        r == has_kind(elements(e@), kind@),
{
    let ghost all = elements(e@);
    let mut i: usize = 0;
    while i < e.len()
        invariant
            i <= e@.len(),
            all == elements(e@),
            forall|k: int| 0 <= k < i ==> (#[trigger] all[k]).kind != kind@,
        decreases e@.len() - i,
    {
        assert(all[i as int] == e@[i as int]@);
        if same(e[i].kind.as_str(), kind) {
            return true;
        }
        i += 1;
    }
    false
}

/// One finding for each of these kinds that a slide lacks.
pub open spec fn lacking(s: SlideView, kinds: Seq<Seq<char>>) -> Seq<Finding>
    decreases kinds.len(),
{
    if kinds.len() == 0 {
        Seq::empty()
    } else {
        let rest = lacking(s, kinds.drop_last());
        if has_kind(s.elements, kinds.last()) {
            rest
        } else {
            rest.push(
                finding_at(
                    "missing-element"@,
                    s.id + " has layout "@ + s.layout + " but no "@ + kinds.last(),
                    slide_id(s.id),
                ),
            )
        }
    }
}

/// What is wrong with a slide's layout.
pub open spec fn layout_faults(s: SlideView) -> Seq<Finding> {
    match expected(s.layout) {
        None => seq![
            finding_at("unknown-layout"@, s.id + " uses "@ + s.layout, slide_id(s.id)),
        ],
        Some(kinds) => lacking(s, kinds),
    }
}

/// The ids of slides.
pub open spec fn slide_ids(s: Seq<SlideView>) -> Seq<Seq<char>> {
    s.map_values(|x: SlideView| x.id)
}

/// What is wrong with the model of a deck: ids that come twice, layouts that there are not, and
/// elements that a layout lacks, slide by slide.
pub open spec fn model_faults(s: Seq<SlideView>) -> Seq<Finding>
    decreases s.len(),
{
    if s.len() == 0 {
        Seq::empty()
    } else {
        let rest = model_faults(s.drop_last());
        let twice = if slide_ids(s.drop_last()).contains(s.last().id) {
            rest.push(finding("duplicate-slide-id"@, s.last().id + " appears twice"@))
        } else {
            rest
        };
        twice + layout_faults(s.last())
    }
}

impl DeckValid {
    /// Adds what is wrong with a slide's layout.
    fn check_layout(&self, s: &Slide, diags: &mut Vec<Diagnostic>)
        ensures
            findings(final(diags)@) == findings(old(diags)@) + layout_faults(s@),
    {
        let ghost base = findings(diags@);
        match expected_kinds(s.layout.as_str()) {
            None => {
                let mut m = s.id.clone();
                m.push_str(" uses ");
                m.push_str(s.layout.as_str());
                let id = id_of_slide(s.id.as_str());
                report(
                    diags,
                    Diagnostic::new("unknown-layout", m.as_str()).at_entity(id.as_str()),
                );
                assert(findings(diags@) =~= base + layout_faults(s@));
            },
            Some(kinds) => {
                let ghost all = texts(kinds@);
                let mut i: usize = 0;
                assert(base + lacking(s@, all.take(0)) =~= base);
                while i < kinds.len()
                    invariant
                        i <= kinds@.len(),
                        all == texts(kinds@),
                        findings(diags@) == base + lacking(s@, all.take(i as int)),
                    decreases kinds@.len() - i,
                {
                    let ghost nn = all.take(i + 1);
                    assert(nn.drop_last() =~= all.take(i as int));
                    assert(nn.last() == kinds@[i as int]@);
                    if !carries(&s.elements, kinds[i].as_str()) {
                        let mut m = s.id.clone();
                        m.push_str(" has layout ");
                        m.push_str(s.layout.as_str());
                        m.push_str(" but no ");
                        m.push_str(kinds[i].as_str());
                        let id = id_of_slide(s.id.as_str());
                        report(
                            diags,
                            Diagnostic::new("missing-element", m.as_str()).at_entity(id.as_str()),
                        );
                    }
                    assert(findings(diags@) =~= base + lacking(s@, nn));
                    i += 1;
                }
                assert(all.take(i as int) =~= all);
            },
        }
    }

    pub fn check(&self, deck: &Deck) -> (r: RungOutcome)
        ensures
            r@ == Outcome::judged(model_faults(deck@.slides)),
    {
        let mut diags: Vec<Diagnostic> = Vec::new();
        let mut known: Vec<String> = Vec::new();
        let ghost all = deck@.slides;
        let mut i: usize = 0;
        assert(findings(diags@) =~= model_faults(all.take(0)));
        assert(texts(known@) =~= slide_ids(all.take(0)));
        while i < deck.slides.len()
            invariant
                i <= deck.slides@.len(),
                all == deck@.slides,
                texts(known@) == slide_ids(all.take(i as int)),
                findings(diags@) == model_faults(all.take(i as int)),
            decreases deck.slides@.len() - i,
        {
            let ghost nn = all.take(i + 1);
            assert(nn.drop_last() =~= all.take(i as int));
            assert(nn.last() == deck.slides@[i as int]@);
            let ghost ids = texts(known@);
            let s = &deck.slides[i];
            if mentions(&known, s.id.as_str()) {
                let mut m = s.id.clone();
                m.push_str(" appears twice");
                report(&mut diags, Diagnostic::new("duplicate-slide-id", m.as_str()));
            }
            self.check_layout(s, &mut diags);
            known.push(s.id.clone());
            assert(texts(known@) =~= ids.push(s@.id));
            assert(slide_ids(nn) =~= ids.push(s@.id));
            i += 1;
        }
        assert(all.take(i as int) =~= all);
        RungOutcome::judge(diags)
    }
}

/// How many characters a kind of element may carry; no limit where it is none that carries text.
pub open spec fn text_budget(t: ThemeView, kind: Seq<char>) -> Option<nat> {
    if kind == "title"@ {
        Some(t.title_max_chars)
    } else if kind == "body"@ {
        Some(t.body_max_chars)
    } else {
        None
    }
}

/// One finding for each element whose text does not fit, at the element as the outline names it.
pub open spec fn overflows(t: ThemeView, slide: Seq<char>, e: Seq<ElementView>) -> Seq<Finding>
    decreases e.len(),
{
    if e.len() == 0 {
        Seq::empty()
    } else {
        let rest = overflows(t, slide, e.drop_last());
        let x = e.last();
        match text_budget(t, x.kind) {
            Some(n) => if x.text.len() > n {
                rest.push(
                    finding_at(
                        "text-overflow"@,
                        slide + " "@ + x.kind + " is "@ + decimal(x.text.len())
                            + " chars, over the "@ + decimal(n) + " this theme fits"@,
                        element_id(slide, x.kind, kind_count(e, x.kind)),
                    ),
                )
            } else {
                rest
            },
            None => rest,
        }
    }
}

/// Does a line open with a bullet?
pub open spec fn is_bullet(line: Seq<char>) -> bool {
    begins(trim_start_of(line), "- "@) || begins(trim_start_of(line), "* "@)
}

/// How many lines open with a bullet.
pub open spec fn bullet_lines(v: Seq<Seq<char>>) -> nat
    decreases v.len(),
{
    if v.len() == 0 {
        0
    } else {
        bullet_lines(v.drop_last()) + (if is_bullet(v.last()) { 1nat } else { 0nat })
    }
}

/// How many bullets the bodies of a slide carry.
pub open spec fn bullets(e: Seq<ElementView>) -> nat
    decreases e.len(),
{
    if e.len() == 0 {
        0
    } else {
        bullets(e.drop_last()) + (if e.last().kind == "body"@ {
            bullet_lines(lines_of(e.last().text))
        } else {
            0nat
        })
    }
}

/// What is wrong with how a slide is laid out.
pub open spec fn slide_faults(t: ThemeView, s: SlideView) -> Seq<Finding> {
    let over = overflows(t, s.id, s.elements);
    if bullets(s.elements) > t.max_bullets {
        over.push(
            finding_at(
                "too-many-ideas"@,
                s.id + " carries "@ + decimal(bullets(s.elements)) + " bullets; over "@ + decimal(
                    t.max_bullets,
                ) + " it is two slides"@,
                slide_id(s.id),
            ),
        )
    } else {
        over
    }
}

/// What is wrong with how slides are laid out.
pub open spec fn slides_faults(t: ThemeView, s: Seq<SlideView>) -> Seq<Finding>
    decreases s.len(),
{
    if s.len() == 0 {
        Seq::empty()
    } else {
        slides_faults(t, s.drop_last()) + slide_faults(t, s.last())
    }
}

/// What is wrong with how a deck is laid out. Contrast is a property of the theme, so it counts
/// once; `low` is the contrast ratio, where it is under the minimum.
pub open spec fn layout_rules(d: DeckView, low: Option<Seq<char>>) -> Seq<Finding> {
    let first = match low {
        Some(ratio) => seq![
            finding(
                "low-contrast"@,
                d.theme.fg + " on "@ + d.theme.bg + " is "@ + ratio
                    + ":1, under the 4.5:1 minimum"@,
            ),
        ],
        None => Seq::empty(),
    };
    first + slides_faults(d.theme, d.slides)
}

/// The value of a hexadecimal digit.
pub open spec fn hex_digit(c: char) -> Option<nat> {
    if '0' <= c <= '9' {
        Some((c as int - '0' as int) as nat)
    } else if 'a' <= c <= 'f' {
        Some((c as int - 'a' as int + 10) as nat)
    } else if 'A' <= c <= 'F' {
        Some((c as int - 'A' as int + 10) as nat)
    } else {
        None
    }
}

/// The value of two characters as a hexadecimal number; the first may be a plus sign.
pub open spec fn hex_pair(a: char, b: char) -> Option<nat> {
    match hex_digit(b) {
        None => None,
        Some(y) => if a == '+' {
            Some(y)
        } else {
            match hex_digit(a) {
                Some(x) => Some(x * 16 + y),
                None => None,
            }
        },
    }
}

/// The three channels of a colour: six hexadecimal digits after any number of `#`.
pub open spec fn channels_of(hex: Seq<char>) -> Option<(nat, nat, nat)> {
    let h = skip_char(hex, '#');
    if h.len() != 6 {
        None
    } else {
        match (hex_pair(h[0], h[1]), hex_pair(h[2], h[3]), hex_pair(h[4], h[5])) {
            (Some(r), Some(g), Some(b)) => Some((r, g, b)),
            _ => None,
        }
    }
}

fn read_digit(c: char) -> (r: Option<u8>)
    ensures
        match r {
            Some(v) => hex_digit(c) == Some(v as nat) && v < 16,
            None => hex_digit(c) is None,
        },
{
    if '0' <= c && c <= '9' {
        Some((c as u32 - '0' as u32) as u8)
    } else if 'a' <= c && c <= 'f' {
        Some((c as u32 - 'a' as u32 + 10) as u8)
    } else if 'A' <= c && c <= 'F' {
        Some((c as u32 - 'A' as u32 + 10) as u8)
    } else {
        None
    }
}

fn read_pair(a: char, b: char) -> (r: Option<u8>)
    ensures
        match r {
            Some(v) => hex_pair(a, b) == Some(v as nat),
            None => hex_pair(a, b) is None,
        },
{
    match read_digit(b) {
        None => None,
        Some(y) => if a == '+' {
            Some(y)
        } else {
            match read_digit(a) {
                Some(x) => Some(x * 16 + y),
                None => None,
            }
        },
    }
}

/// The channels of a colour, each from 0 to 255.
pub fn channels(hex: &str) -> (r: Option<(u8, u8, u8)>)
    ensures
        match r {
            Some((a, b, c)) => channels_of(hex@) == Some((a as nat, b as nat, c as nat)),
            None => channels_of(hex@) is None,
        },
{
    let bare = strip_leading(hex, '#');
    let h = to_chars(bare.as_str());
    if h.len() != 6 {
        return None;
    }
    match read_pair(h[0], h[1]) {
        Some(a) => match read_pair(h[2], h[3]) {
            Some(b) => match read_pair(h[4], h[5]) {
                Some(c) => Some((a, b, c)),
                None => None,
            },
            None => None,
        },
        None => None,
    }
}

impl LayoutRules {
    /// Adds a finding for each element whose text does not fit.
    fn check_fit(&self, deck: &Deck, s: &Slide, diags: &mut Vec<Diagnostic>)
        ensures
            findings(final(diags)@) == findings(old(diags)@) + overflows(
                deck@.theme,
                s@.id,
                s@.elements,
            ),
    {
        let ghost base = findings(diags@);
        let ghost t = deck@.theme;
        let ghost all = s@.elements;
        let mut i: usize = 0;
        assert(base + overflows(t, s@.id, all.take(0)) =~= base);
        while i < s.elements.len()
            invariant
                i <= s.elements@.len(),
                all == s@.elements,
                t == deck@.theme,
                findings(diags@) == base + overflows(t, s@.id, all.take(i as int)),
            decreases s.elements@.len() - i,
        {
            let ghost nn = all.take(i + 1);
            assert(nn.drop_last() =~= all.take(i as int));
            assert(nn.last() == s.elements@[i as int]@);
            let len = s.elements.len();
            assert(i < len);
            let e = &s.elements[i];
            let budget: Option<usize> = if same(e.kind.as_str(), "title") {
                Some(deck.theme.title_max_chars)
            } else if same(e.kind.as_str(), "body") {
                Some(deck.theme.body_max_chars)
            } else {
                None
            };
            if let Some(limit) = budget {
                let n = to_chars(e.text.as_str()).len();
                if n > limit {
                    let mut m = s.id.clone();
                    m.push_str(" ");
                    m.push_str(e.kind.as_str());
                    m.push_str(" is ");
                    let d = show(n as u64);
                    m.push_str(d.as_str());
                    m.push_str(" chars, over the ");
                    let d = show(limit as u64);
                    m.push_str(d.as_str());
                    m.push_str(" this theme fits");
                    let number = count_kind(&s.elements, i + 1, e.kind.as_str());
                    let id = id_of_element(s.id.as_str(), e.kind.as_str(), number);
                    report(
                        diags,
                        Diagnostic::new("text-overflow", m.as_str()).at_entity(id.as_str()),
                    );
                }
            }
            assert(findings(diags@) =~= base + overflows(t, s@.id, nn));
            i += 1;
        }
        assert(all.take(i as int) =~= all);
    }

    /// How many bullets the bodies of a slide carry.
    fn count_bullets(&self, s: &Slide) -> (r: u128)
        ensures
            r == bullets(s@.elements),
    {
        let ghost all = s@.elements;
        let mut r: u128 = 0;
        let mut i: usize = 0;
        assert(all.take(0) =~= Seq::<ElementView>::empty());
        while i < s.elements.len()
            invariant
                i <= s.elements@.len(),
                all == s@.elements,
                r <= i * 0xffff_ffff_ffff_ffff,
                r == bullets(all.take(i as int)),
            decreases s.elements@.len() - i,
        {
            let ghost nn = all.take(i + 1);
            assert(nn.drop_last() =~= all.take(i as int));
            assert(nn.last() == s.elements@[i as int]@);
            let len = s.elements.len();
            assert(i < len <= 0xffff_ffff_ffff_ffff);
            if same(s.elements[i].kind.as_str(), "body") {
                let n = count_bullet_lines(s.elements[i].text.as_str());
                r += n as u128;
            }
            i += 1;
        }
        assert(all.take(i as int) =~= all);
        r
    }

    /// Adds what is wrong with how a slide is laid out.
    fn check_slide(&self, deck: &Deck, s: &Slide, diags: &mut Vec<Diagnostic>)
        ensures
            findings(final(diags)@) == findings(old(diags)@) + slide_faults(deck@.theme, s@),
    {
        let ghost base = findings(diags@);
        self.check_fit(deck, s, diags);
        let n = self.count_bullets(s);
        if n > deck.theme.max_bullets as u128 {
            let mut m = s.id.clone();
            m.push_str(" carries ");
            let d = show_wide(n);
            m.push_str(d.as_str());
            m.push_str(" bullets; over ");
            let d = show(deck.theme.max_bullets as u64);
            m.push_str(d.as_str());
            m.push_str(" it is two slides");
            let id = id_of_slide(s.id.as_str());
            report(diags, Diagnostic::new("too-many-ideas", m.as_str()).at_entity(id.as_str()));
        }
        assert(findings(diags@) =~= base + slide_faults(deck@.theme, s@));
    }

    /// Judges how a deck is laid out. `low` is the contrast ratio of the theme as text, where it
    /// is under the minimum.
    pub fn check(&self, deck: &Deck, low: Option<&str>) -> (r: RungOutcome)
        ensures
            r@ == Outcome::judged(
                layout_rules(
                    deck@,
                    match low {
                        Some(t) => Some(t@),
                        None => None,
                    },
                ),
            ),
    {
        let mut diags: Vec<Diagnostic> = Vec::new();
        let ghost t = deck@.theme;
        let ghost all = deck@.slides;
        assert(findings(diags@) =~= Seq::<Finding>::empty());
        if let Some(ratio) = low {
            let mut m = deck.theme.fg.clone();
            m.push_str(" on ");
            m.push_str(deck.theme.bg.as_str());
            m.push_str(" is ");
            m.push_str(ratio);
            m.push_str(":1, under the 4.5:1 minimum");
            report(&mut diags, Diagnostic::new("low-contrast", m.as_str()));
        }
        let ghost first = findings(diags@);
        let mut i: usize = 0;
        assert(first + slides_faults(t, all.take(0)) =~= first);
        while i < deck.slides.len()
            invariant
                i <= deck.slides@.len(),
                all == deck@.slides,
                t == deck@.theme,
                findings(diags@) == first + slides_faults(t, all.take(i as int)),
            decreases deck.slides@.len() - i,
        {
            let ghost was = findings(diags@);
            let ghost nn = all.take(i + 1);
            assert(nn.drop_last() =~= all.take(i as int));
            assert(nn.last() == deck.slides@[i as int]@);
            assert(deck@.slides[i as int] == deck.slides@[i as int]@);
            self.check_slide(deck, &deck.slides[i], &mut diags);
            assert(findings(diags@) =~= first + slides_faults(t, nn));
            i += 1;
        }
        proof {
            assert(all.take(i as int) =~= all);
            let o = match low {
                Some(t) => Some(t@),
                None => None,
            };
            assert(findings(diags@) =~= layout_rules(deck@, o));
        }
        RungOutcome::judge(diags)
    }
}

fn count_bullet_lines(text: &str) -> (r: u64)
    ensures
        r == bullet_lines(lines_of(text@)),
{
    let v = lines(text);
    let ghost all = texts(v@);
    let mut r: u64 = 0;
    let mut i: usize = 0;
    assert(all.take(0) =~= Seq::<Seq<char>>::empty());
    while i < v.len()
        invariant
            i <= v@.len(),
            all == texts(v@),
            r <= i,
            r == bullet_lines(all.take(i as int)),
        decreases v@.len() - i,
    {
        let ghost nn = all.take(i + 1);
        assert(nn.drop_last() =~= all.take(i as int));
        assert(nn.last() == v@[i as int]@);
        let len = v.len();
        assert(i < len);
        let t = trim_start(v[i].as_str());
        if starts_with(t.as_str(), "- ") || starts_with(t.as_str(), "* ") {
            r += 1;
        }
        i += 1;
    }
    assert(all.take(i as int) =~= all);
    r
}

/// What rendering some thumbnails finds.
pub open spec fn thumbnail_faults(s: Seq<SlideView>, units: Seq<Seq<char>>) -> Seq<Finding>
    decreases units.len(),
{
    if units.len() == 0 {
        Seq::empty()
    } else {
        let rest = thumbnail_faults(s, units.drop_last());
        let p = "thumbnail:"@;
        if begins(units.last(), p) {
            let id = units.last().skip(p.len() as int);
            let i = slide_at(s, id);
            if i >= s.len() {
                rest.push(
                    finding(
                        "missing-slide"@,
                        "thumbnail requested for "@ + id + ", which is not in the deck"@,
                    ),
                )
            } else if s[i].elements.len() == 0 {
                rest.push(
                    finding_at("empty-slide"@, id + " has no elements to render"@, slide_id(id)),
                )
            } else {
                rest
            }
        } else {
            rest
        }
    }
}

impl Thumbnails {
    /// Judges the slides that a change makes it render.
    pub fn check(&self, deck: &Deck, impact: &ImpactSet) -> (r: RungOutcome)
        ensures
            r@ == Outcome::judged(thumbnail_faults(deck@.slides, impact@.units)),
    {
        let mut diags: Vec<Diagnostic> = Vec::new();
        let ghost s = deck@.slides;
        let ghost all = impact@.units;
        let mut i: usize = 0;
        assert(findings(diags@) =~= thumbnail_faults(s, all.take(0)));
        while i < impact.units.len()
            invariant
                i <= impact.units@.len(),
                s == deck@.slides,
                all == impact@.units,
                findings(diags@) == thumbnail_faults(s, all.take(i as int)),
            decreases impact.units@.len() - i,
        {
            let ghost nn = all.take(i + 1);
            assert(nn.drop_last() =~= all.take(i as int));
            assert(nn.last() == impact.units@[i as int]@);
            if let Some(id) = strip_prefix(impact.units[i].as_str(), "thumbnail:") {
                match deck.slide(id.as_str()) {
                    None => {
                        let mut m = "thumbnail requested for ".to_owned();
                        m.push_str(id.as_str());
                        m.push_str(", which is not in the deck");
                        report(&mut diags, Diagnostic::new("missing-slide", m.as_str()));
                    },
                    Some(x) => {
                        assert(x@.elements.len() == x.elements@.len());
                        if x.elements.len() == 0 {
                            let mut m = id.clone();
                            m.push_str(" has no elements to render");
                            let at = id_of_slide(id.as_str());
                            report(
                                &mut diags,
                                Diagnostic::new("empty-slide", m.as_str()).at_entity(at.as_str()),
                            );
                        }
                    },
                }
            }
            i += 1;
        }
        assert(all.take(i as int) =~= all);
        RungOutcome::judge(diags)
    }
}

impl VisionCheck {
    /// Without a model the check cannot run, which is not a pass.
    pub fn check(&self) -> (r: RungOutcome)
        ensures
            r@ == match self.model {
                None => Outcome::unavailable("no vision model configured for the slides rung 3"@),
                Some(_) => Outcome::pass(),
            },
    {
        match &self.model {
            None => RungOutcome::unavailable("no vision model configured for the slides rung 3"),
            Some(_) => RungOutcome::pass(),
        }
    }
}

impl FullExport {
    /// A deck without slides exports nothing.
    pub fn check(&self, deck: &Deck) -> (r: RungOutcome)
        ensures
            r@ == if deck@.slides.len() == 0 {
                Outcome::fail(seq![finding("empty-deck"@, "nothing to export"@)])
            } else {
                Outcome::pass()
            },
    {
        assert(deck@.slides.len() == deck.slides@.len());
        if deck.slides.len() == 0 {
            RungOutcome::fail_with(Diagnostic::new("empty-deck", "nothing to export"))
        } else {
            RungOutcome::pass()
        }
    }
}

/// A change to an element dirties the thumbnail of the slide that it is part of.
pub proof fn law_a_touched_element_dirties_its_slide(
    o: OutlineView,
    touched: Seq<Seq<char>>,
    id: Seq<char>,
    slide: Seq<char>,
)
    requires
        touched.contains(id),
        o.entity(id) is Some,
        o.entity(id)->0.parent == Some(slide),
    ensures
        impact_of(o, touched).units.contains(thumbnail(slide)),
{
    assert(slides_of(o, id).last() == slide);
    assert(slides_of(o, id).contains(slide));
    lemma_dirty_has(o, touched, id, slide);
    let d = dirty_slides(o, touched);
    let i = choose|i: int| 0 <= i < d.len() && d[i] == slide;
    assert(impact_of(o, touched).units[i] == thumbnail(slide));
}

/// A change to one element dirties exactly one thumbnail: that of the slide that the element is
/// part of.
pub proof fn law_one_element_dirties_one_thumbnail(o: OutlineView, id: Seq<char>, slide: Seq<char>)
    requires
        o.entity(id) is Some,
        o.entity(id)->0.parent == Some(slide),
        !begins(id, "slide:"@),
    ensures
        impact_of(o, seq![id]).units == seq![thumbnail(slide)],
{
    let t = seq![id];
    let none = Seq::<Seq<char>>::empty();
    assert(t.drop_last() =~= none);
    assert(dirty_slides(o, none) == none);
    assert(slides_of(o, id) =~= seq![slide]);
    assert(seq![slide].drop_last() =~= none);
    assert(joined_once(none, none) == none);
    assert(!none.contains(slide));
    assert(joined_once(none, seq![slide]) =~= seq![slide]);
    assert(impact_of(o, t).units =~= seq![thumbnail(slide)]);
}

proof fn lemma_joined_has(v: Seq<Seq<char>>, more: Seq<Seq<char>>, x: Seq<char>)
    ensures
        v.contains(x) || more.contains(x) ==> joined_once(v, more).contains(x),
    decreases more.len(),
{
    if more.len() > 0 {
        lemma_joined_has(v, more.drop_last(), x);
        let r = joined_once(v, more.drop_last());
        if r.contains(x) && !r.contains(more.last()) {
            let i = choose|i: int| 0 <= i < r.len() && r[i] == x;
            assert(r.push(more.last())[i] == x);
        }
        if more.contains(x) {
            let i = choose|i: int| 0 <= i < more.len() && more[i] == x;
            if i < more.len() - 1 {
                assert(more.drop_last()[i] == x);
            } else if !r.contains(x) {
                assert(r.push(x)[r.len() as int] == x);
            }
        }
    }
}

proof fn lemma_dirty_has(o: OutlineView, touched: Seq<Seq<char>>, id: Seq<char>, slide: Seq<char>)
    requires
        touched.contains(id),
        slides_of(o, id).contains(slide),
    ensures
        dirty_slides(o, touched).contains(slide),
    decreases touched.len(),
{
    let front = touched.drop_last();
    lemma_joined_has(dirty_slides(o, front), slides_of(o, touched.last()), slide);
    let i = choose|i: int| 0 <= i < touched.len() && touched[i] == id;
    if i < touched.len() - 1 {
        assert(front[i] == id);
        lemma_dirty_has(o, front, id, slide);
    }
}

} // verus!
