//! The deck: slides of typed elements bound to a theme, and the ops that change it.

use crate::adapter::bad_op;
use crate::adapter::copy_opt;
use crate::adapter::opt_text;
use crate::adapter::unknown;
use crate::adapter::AdapterError;
use crate::adapter::Fault;
use crate::adapter::Op;
use crate::text::from_chars;
use crate::text::same;
use crate::text::texts;
use crate::text::to_chars;
use crate::wording::find_char;
use crate::wording::index_of;
use crate::wording::number_of;
use crate::wording::parse_number;
use crate::wording::strip_prefix;
use vstd::prelude::*;

verus! {

/// The tokens that every slide of a deck is bound to.
pub struct Theme {
    pub fg: String,
    pub bg: String,
    pub accent: String,
    /// Character budget for a title in this theme, at this font size.
    pub title_max_chars: usize,
    pub body_max_chars: usize,
    /// How many bullets a slide may carry before it is two slides pretending to be one.
    pub max_bullets: usize,
}

/// What a theme says.
#[verifier::ext_equal]
pub struct ThemeView {
    pub fg: Seq<char>,
    pub bg: Seq<char>,
    pub accent: Seq<char>,
    pub title_max_chars: nat,
    pub body_max_chars: nat,
    pub max_bullets: nat,
}

impl View for Theme {
    type V = ThemeView;

    open spec fn view(&self) -> ThemeView {
        ThemeView {
            fg: self.fg@,
            bg: self.bg@,
            accent: self.accent@,
            title_max_chars: self.title_max_chars as nat,
            body_max_chars: self.body_max_chars as nat,
            max_bullets: self.max_bullets as nat,
        }
    }
}

/// The theme of a deck that names none.
pub open spec fn default_theme() -> ThemeView {
    ThemeView {
        fg: "#111111"@,
        bg: "#ffffff"@,
        accent: ""@,
        title_max_chars: 60,
        body_max_chars: 360,
        max_bullets: 6,
    }
}

impl Default for Theme {
    fn default() -> (r: Self)
        ensures
            r@ == default_theme(),
    {
        let r = Theme {
            fg: "#111111".to_owned(),
            bg: "#ffffff".to_owned(),
            accent: "".to_owned(),
            title_max_chars: 60,
            body_max_chars: 360,
            max_bullets: 6,
        };
        assert(r@ =~= default_theme());
        r
    }
}

impl Theme {
    /// A copy.
    pub fn copy(&self) -> (r: Theme)
        ensures
            r@ == self@,
    {
        Theme {
            fg: self.fg.clone(),
            bg: self.bg.clone(),
            accent: self.accent.clone(),
            title_max_chars: self.title_max_chars,
            body_max_chars: self.body_max_chars,
            max_bullets: self.max_bullets,
        }
    }
}

/// One thing on a slide.
pub struct Element {
    /// title, body, image, chart, table.
    pub kind: String,
    pub text: String,
    /// For charts: where the numbers come from, so a sheet change can invalidate the slide.
    pub source: Option<String>,
}

/// What an element says.
#[verifier::ext_equal]
pub struct ElementView {
    pub kind: Seq<char>,
    pub text: Seq<char>,
    pub source: Option<Seq<char>>,
}

impl View for Element {
    type V = ElementView;

    open spec fn view(&self) -> ElementView {
        ElementView { kind: self.kind@, text: self.text@, source: opt_text(self.source) }
    }
}

/// What a run of elements says.
pub open spec fn elements(v: Seq<Element>) -> Seq<ElementView> {
    v.map_values(|e: Element| e@)
}

/// One slide.
pub struct Slide {
    pub id: String,
    pub layout: String,
    pub elements: Vec<Element>,
    pub notes: String,
}

/// What a slide says.
#[verifier::ext_equal]
pub struct SlideView {
    pub id: Seq<char>,
    pub layout: Seq<char>,
    pub elements: Seq<ElementView>,
    pub notes: Seq<char>,
}

impl View for Slide {
    type V = SlideView;

    open spec fn view(&self) -> SlideView {
        SlideView {
            id: self.id@,
            layout: self.layout@,
            elements: elements(self.elements@),
            notes: self.notes@,
        }
    }
}

/// What a run of slides says.
pub open spec fn slides(v: Seq<Slide>) -> Seq<SlideView> {
    v.map_values(|s: Slide| s@)
}

/// A deck.
pub struct Deck {
    pub theme: Theme,
    pub slides: Vec<Slide>,
}

/// What a deck says.
#[verifier::ext_equal]
pub struct DeckView {
    pub theme: ThemeView,
    pub slides: Seq<SlideView>,
}

impl View for Deck {
    type V = DeckView;

    open spec fn view(&self) -> DeckView {
        DeckView { theme: self.theme@, slides: slides(self.slides@) }
    }
}

impl Default for Deck {
    fn default() -> (r: Self)
        ensures
            r@ == (DeckView { theme: default_theme(), slides: Seq::empty() }),
    {
        let r = Deck { theme: Theme::default(), slides: Vec::new() };
        assert(slides(r.slides@) =~= Seq::<SlideView>::empty());
        r
    }
}

/// The kinds of element that a layout expects, for the layouts there are.
pub open spec fn expected(layout: Seq<char>) -> Option<Seq<Seq<char>>> {
    if layout == "title"@ {
        Some(seq!["title"@])
    } else if layout == "title-body"@ {
        Some(seq!["title"@, "body"@])
    } else if layout == "title-chart"@ {
        Some(seq!["title"@, "chart"@])
    } else if layout == "title-table"@ {
        Some(seq!["title"@, "table"@])
    } else if layout == "image-full"@ {
        Some(seq!["image"@])
    } else if layout == "section"@ {
        Some(seq!["title"@])
    } else {
        None
    }
}

/// The kinds of element that a layout expects, for the layouts there are.
pub fn expected_kinds(layout: &str) -> (r: Option<Vec<String>>)
    ensures
        match r {
            Some(v) => expected(layout@) == Some(texts(v@)),
            None => expected(layout@) is None,
        },
{
    let mut out: Vec<String> = Vec::new();
    if same(layout, "image-full") {
        proof {
            reveal_strlit("image-full");
            reveal_strlit("title");
            reveal_strlit("title-body");
            reveal_strlit("title-chart");
            reveal_strlit("title-table");
            assert(layout@[0] == 'i');
        }
        out.push("image".to_owned());
        assert(texts(out@) =~= seq!["image"@]);
        return Some(out);
    }
    out.push("title".to_owned());
    assert(texts(out@) =~= seq!["title"@]);
    if same(layout, "title") {
        return Some(out);
    }
    if same(layout, "title-body") {
        out.push("body".to_owned());
        assert(texts(out@) =~= seq!["title"@, "body"@]);
        return Some(out);
    }
    if same(layout, "title-chart") {
        out.push("chart".to_owned());
        assert(texts(out@) =~= seq!["title"@, "chart"@]);
        return Some(out);
    }
    if same(layout, "title-table") {
        out.push("table".to_owned());
        assert(texts(out@) =~= seq!["title"@, "table"@]);
        return Some(out);
    }
    if same(layout, "section") {
        return Some(out);
    }
    None
}

/// Where the first slide with an id is, or the number of slides.
pub open spec fn slide_at(s: Seq<SlideView>, id: Seq<char>) -> int
    decreases s.len(),
{
    if s.len() == 0 || s[0].id == id {
        0
    } else {
        1 + slide_at(s.skip(1), id)
    }
}

proof fn lemma_slide_at(s: Seq<SlideView>, id: Seq<char>, n: int)
    requires
        0 <= n <= s.len(),
        n < s.len() ==> s[n].id == id,
        forall|k: int| 0 <= k < n ==> (#[trigger] s[k]).id != id,
    ensures
        slide_at(s, id) == n,
    decreases n,
{
    if n > 0 {
        assert forall|k: int| 0 <= k < n - 1 implies (#[trigger] s.skip(1)[k]).id != id by {
            assert(s.skip(1)[k] == s[k + 1]);
        }
        lemma_slide_at(s.skip(1), id, n - 1);
    }
}

impl Deck {
    /// Where the first slide with an id is, or the number of slides.
    fn find(&self, id: &str) -> (r: usize)
        ensures
            r == slide_at(self@.slides, id@),
            r <= self.slides@.len(),
            r < self.slides@.len() ==> self.slides@[r as int].id@ == id@,
    {
        let ghost s = self@.slides;
        let mut i: usize = 0;
        while i < self.slides.len() && !same(self.slides[i].id.as_str(), id)
            invariant
                i <= self.slides@.len(),
                s == self@.slides,
                forall|k: int| 0 <= k < i ==> (#[trigger] s[k]).id != id@,
            decreases self.slides@.len() - i,
        {
            assert(s[i as int] == self.slides@[i as int]@);
            i += 1;
        }
        proof {
            if i < s.len() {
                assert(s[i as int] == self.slides@[i as int]@);
            }
            lemma_slide_at(s, id@, i as int);
        }
        i
    }

    /// The slide with an id.
    pub fn slide(&self, id: &str) -> (r: Option<&Slide>)
        ensures
            match r {
                Some(s) => slide_at(self@.slides, id@) < self@.slides.len() && s@
                    == self@.slides[slide_at(self@.slides, id@)],
                None => slide_at(self@.slides, id@) == self@.slides.len(),
            },
    {
        let i = self.find(id);
        if i < self.slides.len() {
            assert(self@.slides[i as int] == self.slides@[i as int]@);
            Some(&self.slides[i])
        } else {
            None
        }
    }

    /// Where the slide with an id is.
    pub fn position(&self, id: &str) -> (r: Option<usize>)
        ensures
            match r {
                Some(i) => i == slide_at(self@.slides, id@) && i < self@.slides.len(),
                None => slide_at(self@.slides, id@) == self@.slides.len(),
            },
    {
        let i = self.find(id);
        if i < self.slides.len() {
            Some(i)
        } else {
            None
        }
    }

    /// A copy.
    pub fn copy(&self) -> (r: Deck)
        ensures
            r@ == self@,
    {
        let mut out: Vec<Slide> = Vec::new();
        let ghost all = self@.slides;
        let mut i: usize = 0;
        assert(slides(out@) =~= all.take(0));
        while i < self.slides.len()
            invariant
                i <= self.slides@.len(),
                all == self@.slides,
                slides(out@) == all.take(i as int),
            decreases self.slides@.len() - i,
        {
            let ghost was = slides(out@);
            let s = self.slides[i].copy();
            assert(s@ == all[i as int]);
            out.push(s);
            assert(slides(out@) =~= was.push(all[i as int]));
            assert(all.take(i + 1) =~= was.push(all[i as int]));
            i += 1;
        }
        assert(all.take(i as int) =~= all);
        Deck { theme: self.theme.copy(), slides: out }
    }
}

impl Element {
    /// A copy.
    pub fn copy(&self) -> (r: Element)
        ensures
            r@ == self@,
    {
        Element {
            kind: self.kind.clone(),
            text: self.text.clone(),
            source: copy_opt(&self.source),
        }
    }
}

impl Slide {
    /// A copy.
    pub fn copy(&self) -> (r: Slide)
        ensures
            r@ == self@,
    {
        let mut out: Vec<Element> = Vec::new();
        let ghost all = self@.elements;
        let mut i: usize = 0;
        assert(elements(out@) =~= all.take(0));
        while i < self.elements.len()
            invariant
                i <= self.elements@.len(),
                all == self@.elements,
                elements(out@) == all.take(i as int),
            decreases self.elements@.len() - i,
        {
            let ghost was = elements(out@);
            let e = self.elements[i].copy();
            assert(e@ == all[i as int]);
            out.push(e);
            assert(elements(out@) =~= was.push(all[i as int]));
            assert(all.take(i + 1) =~= was.push(all[i as int]));
            i += 1;
        }
        assert(all.take(i as int) =~= all);
        Slide {
            id: self.id.clone(),
            layout: self.layout.clone(),
            elements: out,
            notes: self.notes.clone(),
        }
    }
}

/// How many elements are of a kind.
pub open spec fn kind_count(e: Seq<ElementView>, kind: Seq<char>) -> nat
    decreases e.len(),
{
    if e.len() == 0 {
        0
    } else {
        kind_count(e.drop_last(), kind) + (if e.last().kind == kind { 1nat } else { 0nat })
    }
}

/// Where the `n`th element of a kind is, from 1, or the number of elements.
pub open spec fn nth_of(e: Seq<ElementView>, kind: Seq<char>, n: nat) -> int
    decreases e.len(),
{
    if e.len() == 0 {
        0
    } else {
        let r = nth_of(e.drop_last(), kind, n);
        if r < e.len() - 1 {
            r
        } else if e.last().kind == kind && kind_count(e, kind) == n {
            e.len() - 1
        } else {
            e.len() as int
        }
    }
}

proof fn lemma_nth_prefix(e: Seq<ElementView>, kind: Seq<char>, n: nat, k: int)
    requires
        0 <= k <= e.len(),
        nth_of(e.take(k), kind, n) < k,
    ensures
        nth_of(e, kind, n) == nth_of(e.take(k), kind, n),
    decreases e.len(),
{
    if k == e.len() {
        assert(e.take(k) =~= e);
    } else {
        assert(e.drop_last().take(k) =~= e.take(k));
        lemma_nth_prefix(e.drop_last(), kind, n, k);
    }
}

impl Slide {
    /// Where the `n`th element of a kind is, from 1, or the number of elements.
    fn nth(&self, kind: &str, n: u64) -> (r: usize)
        ensures
            r == nth_of(self@.elements, kind@, n as nat),
            r <= self.elements@.len(),
    {
        let ghost all = self@.elements;
        let mut seen: u64 = 0;
        let mut i: usize = 0;
        assert(all.take(0) =~= Seq::<ElementView>::empty());
        while i < self.elements.len()
            invariant
                i <= self.elements@.len(),
                all == self@.elements,
                seen <= i,
                seen == kind_count(all.take(i as int), kind@),
                nth_of(all.take(i as int), kind@, n as nat) == i,
            decreases self.elements@.len() - i,
        {
            let ghost nn = all.take(i + 1);
            let len = self.elements.len();
            proof {
                assert(nn.drop_last() =~= all.take(i as int));
                assert(nn.last() == self.elements@[i as int]@);
                assert(i < len);
            }
            if same(self.elements[i].kind.as_str(), kind) {
                seen += 1;
                if seen == n {
                    proof {
                        lemma_nth_prefix(all, kind@, n as nat, i + 1);
                    }
                    return i;
                }
            }
            i += 1;
        }
        assert(all.take(i as int) =~= all);
        i
    }
}

/// What an element's id names: a slide, a kind and a number.
#[verifier::ext_equal]
pub struct ElementName {
    pub slide: Seq<char>,
    pub kind: Seq<char>,
    pub n: nat,
}

/// The part of a text before the first slash.
pub open spec fn first_part(s: Seq<char>) -> Seq<char> {
    s.take(index_of(s, '/'))
}

/// What follows the first slash of a text, where there is one.
pub open spec fn later_parts(s: Seq<char>) -> Option<Seq<char>> {
    let i = index_of(s, '/');
    if i < s.len() {
        Some(s.skip(i + 1))
    } else {
        None
    }
}

/// The slide, the kind and the number of a path; the number is 1 where none is given.
pub open spec fn named_parts(rest: Seq<char>) -> ElementName {
    let slide = first_part(rest);
    match later_parts(rest) {
        None => ElementName { slide, kind: Seq::empty(), n: 1 },
        Some(t) => ElementName {
            slide,
            kind: first_part(t),
            n: match later_parts(t) {
                None => 1,
                Some(u) => match number_of(first_part(u), u64::MAX as nat) {
                    Some(n) => n,
                    None => 1,
                },
            },
        },
    }
}

/// The element that an id names.
pub open spec fn element_named(id: Seq<char>) -> Result<ElementName, Fault> {
    let p = "element:"@;
    let bad = Err(Fault::BadOp(id + " is not an element id"@));
    if !crate::text::begins(id, p) {
        bad
    } else {
        let name = named_parts(id.skip(p.len() as int));
        if name.slide.len() == 0 || name.kind.len() == 0 {
            bad
        } else {
            Ok(name)
        }
    }
}

/// The part of a text before the first slash, and what follows it.
fn split_slash(s: &str) -> (r: (String, Option<String>))
    ensures
        r.0@ == first_part(s@),
        match r.1 {
            Some(t) => later_parts(s@) == Some(t@),
            None => later_parts(s@) is None,
        },
{
    let v = to_chars(s);
    let i = find_char(v.as_slice(), '/');
    let first = from_chars(vstd::slice::slice_subrange(v.as_slice(), 0, i));
    assert(v@.subrange(0, i as int) =~= s@.take(i as int));
    if i < v.len() {
        let rest = from_chars(vstd::slice::slice_subrange(v.as_slice(), i + 1, v.len()));
        assert(v@.subrange(i + 1, v@.len() as int) =~= s@.skip(i + 1));
        (first, Some(rest))
    } else {
        (first, None)
    }
}

/// What an id names, as values.
pub struct Named {
    pub slide: String,
    pub kind: String,
    pub n: u64,
}

impl View for Named {
    type V = ElementName;

    open spec fn view(&self) -> ElementName {
        ElementName { slide: self.slide@, kind: self.kind@, n: self.n as nat }
    }
}

/// Reads an element's id: `element:`, the slide, the kind and the number, parted by slashes.
pub fn parse_element_id(id: &str) -> (r: Result<Named, AdapterError>)
    ensures
        match r {
            Ok(n) => element_named(id@) == Ok::<ElementName, Fault>(n@),
            Err(e) => element_named(id@) == Err::<ElementName, Fault>(e@),
        },
{
    let mut m = id.to_owned();
    m.push_str(" is not an element id");
    let rest = match strip_prefix(id, "element:") {
        Some(r) => r,
        None => {
            return Err(AdapterError::BadOp(m));
        },
    };
    let (slide, more) = split_slash(rest.as_str());
    let mut kind = String::new();
    let mut n: u64 = 1;
    assert(kind@ =~= Seq::<char>::empty());
    if let Some(t) = more {
        let (k, last) = split_slash(t.as_str());
        kind = k;
        if let Some(u) = last {
            let (d, _) = split_slash(u.as_str());
            if let Some(x) = parse_number(d.as_str(), u64::MAX) {
                n = x;
            }
        }
    }
    let named = Named { slide, kind, n };
    assert(named@ =~= named_parts(rest@));
    let s_len = to_chars(named.slide.as_str()).len();
    let k_len = to_chars(named.kind.as_str()).len();
    if s_len == 0 || k_len == 0 {
        return Err(AdapterError::BadOp(m));
    }
    Ok(named)
}

/// The fault that there is no such slide.
pub open spec fn no_slide(id: Seq<char>) -> Fault {
    Fault::UnknownEntity("slide:"@ + id)
}

fn missing_slide(id: &str) -> (e: AdapterError)
    ensures
        e@ == no_slide(id@),
{
    let mut m = "slide:".to_owned();
    m.push_str(id);
    AdapterError::UnknownEntity(m)
}

fn unknown_layout(layout: &str) -> (e: AdapterError)
    ensures
        e@ == Fault::BadOp("unknown layout "@ + layout@),
{
    let mut m = "unknown layout ".to_owned();
    m.push_str(layout);
    AdapterError::BadOp(m)
}

/// The slides with one more: in front, or behind the slide that is named.
pub open spec fn seated(s: Seq<SlideView>, new: SlideView, after: Option<Seq<char>>) -> Result<
    Seq<SlideView>,
    Fault,
> {
    match after {
        None => Ok(s.insert(0, new)),
        Some(a) => if a == "start"@ {
            Ok(s.insert(0, new))
        } else {
            let i = slide_at(s, a);
            if i < s.len() {
                Ok(s.insert(i + 1, new))
            } else {
                Err(no_slide(a))
            }
        },
    }
}

/// The elements that a new slide opens with.
pub open spec fn opening(title: Seq<char>, body: Option<Seq<char>>) -> Seq<ElementView> {
    let t = seq![ElementView { kind: "title"@, text: title, source: None }];
    match body {
        Some(b) => t.push(ElementView { kind: "body"@, text: b, source: None }),
        None => t,
    }
}

/// The slides after an `add_slide` op.
pub open spec fn add_slide(op: &Op, s: Seq<SlideView>) -> Result<Seq<SlideView>, Fault> {
    match op.demand("id"@) {
        Err(e) => Err(e),
        Ok(id) => if slide_at(s, id) < s.len() {
            Err(Fault::BadOp("slide "@ + id + " already exists"@))
        } else {
            match op.demand("layout"@) {
                Err(e) => Err(e),
                Ok(layout) => if expected(layout) is None {
                    Err(Fault::BadOp("unknown layout "@ + layout))
                } else {
                    match op.demand("title"@) {
                        Err(e) => Err(e),
                        Ok(title) => seated(
                            s,
                            SlideView {
                                id,
                                layout,
                                elements: opening(title, op.text("body"@)),
                                notes: Seq::empty(),
                            },
                            op.text("after"@),
                        ),
                    }
                },
            }
        },
    }
}

/// The slides with one element changed.
pub open spec fn with_element(s: Seq<SlideView>, i: int, k: int, e: ElementView) -> Seq<SlideView> {
    s.update(i, SlideView { elements: s[i].elements.update(k, e), ..s[i] })
}

/// The slides after a `replace_element` op.
pub open spec fn replace_element(op: &Op, s: Seq<SlideView>) -> Result<Seq<SlideView>, Fault> {
    match op.demand("element"@) {
        Err(e) => Err(e),
        Ok(id) => match op.demand("text"@) {
            Err(e) => Err(e),
            Ok(text) => match element_named(id) {
                Err(e) => Err(e),
                Ok(name) => {
                    let i = slide_at(s, name.slide);
                    let k = nth_of(s[i].elements, name.kind, name.n);
                    if i < s.len() && k < s[i].elements.len() {
                        Ok(with_element(s, i, k, ElementView { text, ..s[i].elements[k] }))
                    } else {
                        Err(Fault::UnknownEntity(id))
                    }
                },
            },
        },
    }
}

/// The slides after a `reorder` op.
pub open spec fn reorder(op: &Op, s: Seq<SlideView>) -> Result<Seq<SlideView>, Fault> {
    match op.demand("slide"@) {
        Err(e) => Err(e),
        Ok(id) => match op.demand("after"@) {
            Err(e) => Err(e),
            Ok(after) => {
                let i = slide_at(s, id);
                if i < s.len() {
                    seated(s.remove(i), s[i], Some(after))
                } else {
                    Err(no_slide(id))
                }
            },
        },
    }
}

/// The slides after an `apply_layout` op.
pub open spec fn apply_layout(op: &Op, s: Seq<SlideView>) -> Result<Seq<SlideView>, Fault> {
    match op.demand("slide"@) {
        Err(e) => Err(e),
        Ok(id) => match op.demand("layout"@) {
            Err(e) => Err(e),
            Ok(layout) => if expected(layout) is None {
                Err(Fault::BadOp("unknown layout "@ + layout))
            } else {
                let i = slide_at(s, id);
                if i < s.len() {
                    Ok(s.update(i, SlideView { layout, ..s[i] }))
                } else {
                    Err(no_slide(id))
                }
            },
        },
    }
}

/// The slides after a `bind_chart_data` op.
pub open spec fn bind_chart_data(op: &Op, s: Seq<SlideView>) -> Result<Seq<SlideView>, Fault> {
    match op.demand("element"@) {
        Err(e) => Err(e),
        Ok(id) => match op.demand("source"@) {
            Err(e) => Err(e),
            Ok(source) => match element_named(id) {
                Err(e) => Err(e),
                Ok(name) => if name.kind != "chart"@ {
                    Err(Fault::BadOp(id + " is not a chart"@))
                } else {
                    let i = slide_at(s, name.slide);
                    let k = nth_of(s[i].elements, name.kind, name.n);
                    if i < s.len() && k < s[i].elements.len() {
                        Ok(
                            with_element(
                                s,
                                i,
                                k,
                                ElementView { source: Some(source), ..s[i].elements[k] },
                            ),
                        )
                    } else {
                        Err(Fault::UnknownEntity(id))
                    }
                },
            },
        },
    }
}

/// The slides after a `delete_slide` op.
pub open spec fn delete_slide(op: &Op, s: Seq<SlideView>) -> Result<Seq<SlideView>, Fault> {
    match op.demand("slide"@) {
        Err(e) => Err(e),
        Ok(id) => {
            let i = slide_at(s, id);
            if i < s.len() {
                Ok(s.remove(i))
            } else {
                Err(no_slide(id))
            }
        },
    }
}

/// The slides after one op.
pub open spec fn after_op(op: &Op, s: Seq<SlideView>) -> Result<Seq<SlideView>, Fault> {
    match op.text("op"@) {
        None => Err(Fault::BadOp("unknown op "@ + "<missing>"@)),
        Some(k) => if k == "add_slide"@ {
            add_slide(op, s)
        } else if k == "replace_element"@ {
            replace_element(op, s)
        } else if k == "reorder"@ {
            reorder(op, s)
        } else if k == "apply_layout"@ {
            apply_layout(op, s)
        } else if k == "bind_chart_data"@ {
            bind_chart_data(op, s)
        } else if k == "delete_slide"@ {
            delete_slide(op, s)
        } else {
            Err(Fault::BadOp("unknown op "@ + k))
        },
    }
}

/// The slides after a run of ops, or the fault of the first op that is refused.
pub open spec fn after_ops(ops: Seq<Op>, s: Seq<SlideView>) -> Result<Seq<SlideView>, Fault>
    decreases ops.len(),
{
    if ops.len() == 0 {
        Ok(s)
    } else {
        match after_ops(ops.drop_last(), s) {
            Err(e) => Err(e),
            Ok(sofar) => after_op(&ops.last(), sofar),
        }
    }
}

/// The deck that a batch of ops makes. The theme stays.
pub open spec fn redone(ops: Seq<Op>, d: DeckView) -> Result<DeckView, Fault> {
    if ops.len() == 0 {
        Err(Fault::BadOp("empty op batch"@))
    } else {
        match after_ops(ops, d.slides) {
            Ok(slides) => Ok(DeckView { theme: d.theme, slides }),
            Err(e) => Err(e),
        }
    }
}

proof fn lemma_first_fault(ops: Seq<Op>, s: Seq<SlideView>, n: int)
    requires
        0 <= n <= ops.len(),
        after_ops(ops.take(n), s) is Err,
    ensures
        after_ops(ops, s) == after_ops(ops.take(n), s),
    decreases ops.len(),
{
    if n == ops.len() {
        assert(ops.take(n) =~= ops);
    } else {
        assert(ops.drop_last().take(n) =~= ops.take(n));
        lemma_first_fault(ops.drop_last(), s, n);
    }
}

fn seat(deck: &mut Deck, new: Slide, after: Option<&str>) -> (r: Result<(), AdapterError>)
    ensures
        final(deck).theme == old(deck).theme,
        ({
            let a = match after {
                Some(t) => Some(t@),
                None => None,
            };
            match r {
                Ok(_) => seated(old(deck)@.slides, new@, a) == Ok::<Seq<SlideView>, Fault>(
                    final(deck)@.slides,
                ),
                Err(e) => seated(old(deck)@.slides, new@, a) == Err::<Seq<SlideView>, Fault>(e@),
            }
        }),
{
    let ghost s = deck@.slides;
    let ghost nv = new@;
    let mut at: usize = 0;
    if let Some(a) = after {
        if !same(a, "start") {
            let i = deck.find(a);
            if i >= deck.slides.len() {
                return Err(missing_slide(a));
            }
            at = i + 1;
        }
    }
    deck.slides.insert(at, new);
    assert(deck@.slides =~= s.insert(at as int, nv));
    Ok(())
}

fn do_add_slide(op: &Op, deck: &mut Deck) -> (r: Result<(), AdapterError>)
    ensures
        final(deck).theme == old(deck).theme,
        match r {
            Ok(_) => add_slide(op, old(deck)@.slides) == Ok::<Seq<SlideView>, Fault>(
                final(deck)@.slides,
            ),
            Err(e) => add_slide(op, old(deck)@.slides) == Err::<Seq<SlideView>, Fault>(e@),
        },
{
    let id = op.str_field("id")?;
    if deck.find(id) < deck.slides.len() {
        let mut m = "slide ".to_owned();
        m.push_str(id);
        m.push_str(" already exists");
        return Err(AdapterError::BadOp(m));
    }
    let layout = op.str_field("layout")?;
    if expected_kinds(layout).is_none() {
        return Err(unknown_layout(layout));
    }
    let title = op.str_field("title")?;
    let mut els: Vec<Element> = Vec::new();
    els.push(Element { kind: "title".to_owned(), text: title.to_owned(), source: None });
    assert(elements(els@) =~= opening(title@, None));
    if let Some(body) = op.opt_str("body") {
        els.push(Element { kind: "body".to_owned(), text: body.to_owned(), source: None });
        assert(elements(els@) =~= opening(title@, Some(body@)));
    }
    let slide = Slide {
        id: id.to_owned(),
        layout: layout.to_owned(),
        elements: els,
        notes: String::new(),
    };
    assert(slide@ =~= (SlideView {
        id: id@,
        layout: layout@,
        elements: opening(title@, op.text("body"@)),
        notes: Seq::empty(),
    }));
    seat(deck, slide, op.opt_str("after"))
}

/// Finds the element that an id names: its slide and its place there.
fn locate(deck: &Deck, named: &Named) -> (r: Option<(usize, usize)>)
    ensures
        ({
            let s = deck@.slides;
            let i = slide_at(s, named@.slide);
            let k = nth_of(s[i].elements, named@.kind, named@.n);
            match r {
                Some(p) => p.0 == i && p.1 == k && i < s.len() && k < s[i].elements.len(),
                None => !(i < s.len() && k < s[i].elements.len()),
            }
        }),
{
    let i = deck.find(named.slide.as_str());
    if i >= deck.slides.len() {
        return None;
    }
    assert(deck@.slides[i as int] == deck.slides@[i as int]@);
    let k = deck.slides[i].nth(named.kind.as_str(), named.n);
    if k < deck.slides[i].elements.len() {
        Some((i, k))
    } else {
        None
    }
}

/// Puts an element in the place of another.
fn put_element(deck: &mut Deck, i: usize, k: usize, e: Element)
    requires
        i < old(deck).slides@.len(),
        k < old(deck).slides@[i as int].elements@.len(),
    ensures
        final(deck).theme == old(deck).theme,
        final(deck)@.slides == with_element(old(deck)@.slides, i as int, k as int, e@),
{
    let ghost s = deck@.slides;
    let ghost ev = e@;
    let mut slide = deck.slides[i].copy();
    assert(s[i as int] == deck.slides@[i as int]@);
    let ghost was = slide@;
    assert(was.elements.len() == s[i as int].elements.len());
    slide.elements.set(k, e);
    assert(slide@.elements =~= was.elements.update(k as int, ev));
    assert(slide@ =~= (SlideView { elements: was.elements.update(k as int, ev), ..was }));
    deck.slides.set(i, slide);
    assert(deck@.slides =~= with_element(s, i as int, k as int, ev));
}

fn do_replace_element(op: &Op, deck: &mut Deck) -> (r: Result<(), AdapterError>)
    ensures
        final(deck).theme == old(deck).theme,
        match r {
            Ok(_) => replace_element(op, old(deck)@.slides) == Ok::<Seq<SlideView>, Fault>(
                final(deck)@.slides,
            ),
            Err(e) => replace_element(op, old(deck)@.slides) == Err::<Seq<SlideView>, Fault>(e@),
        },
{
    let id = op.str_field("element")?;
    let text = op.str_field("text")?;
    let named = parse_element_id(id)?;
    match locate(deck, &named) {
        None => Err(unknown(id)),
        Some((i, k)) => {
            assert(deck@.slides[i as int] == deck.slides@[i as int]@);
            let mut e = deck.slides[i].elements[k].copy();
            assert(deck@.slides[i as int].elements[k as int] == e@);
            let ghost was = e@;
            e.text = text.to_owned();
            assert(e@ =~= (ElementView { text: text@, ..was }));
            put_element(deck, i, k, e);
            Ok(())
        },
    }
}

fn do_reorder(op: &Op, deck: &mut Deck) -> (r: Result<(), AdapterError>)
    ensures
        final(deck).theme == old(deck).theme,
        match r {
            Ok(_) => reorder(op, old(deck)@.slides) == Ok::<Seq<SlideView>, Fault>(
                final(deck)@.slides,
            ),
            Err(e) => reorder(op, old(deck)@.slides) == Err::<Seq<SlideView>, Fault>(e@),
        },
{
    let id = op.str_field("slide")?;
    let after = op.str_field("after")?;
    let i = deck.find(id);
    if i >= deck.slides.len() {
        return Err(missing_slide(id));
    }
    let ghost s = deck@.slides;
    assert(s[i as int] == deck.slides@[i as int]@);
    let slide = deck.slides.remove(i);
    assert(deck@.slides =~= s.remove(i as int));
    seat(deck, slide, Some(after))
}

fn do_apply_layout(op: &Op, deck: &mut Deck) -> (r: Result<(), AdapterError>)
    ensures
        final(deck).theme == old(deck).theme,
        match r {
            Ok(_) => apply_layout(op, old(deck)@.slides) == Ok::<Seq<SlideView>, Fault>(
                final(deck)@.slides,
            ),
            Err(e) => apply_layout(op, old(deck)@.slides) == Err::<Seq<SlideView>, Fault>(e@),
        },
{
    let id = op.str_field("slide")?;
    let layout = op.str_field("layout")?;
    if expected_kinds(layout).is_none() {
        return Err(unknown_layout(layout));
    }
    let i = deck.find(id);
    if i >= deck.slides.len() {
        return Err(missing_slide(id));
    }
    let ghost s = deck@.slides;
    assert(s[i as int] == deck.slides@[i as int]@);
    let mut slide = deck.slides[i].copy();
    let ghost was = slide@;
    slide.layout = layout.to_owned();
    assert(slide@ =~= (SlideView { layout: layout@, ..was }));
    let ghost sv = slide@;
    deck.slides.set(i, slide);
    assert(deck@.slides =~= s.update(i as int, sv));
    Ok(())
}

fn do_bind_chart_data(op: &Op, deck: &mut Deck) -> (r: Result<(), AdapterError>)
    ensures
        final(deck).theme == old(deck).theme,
        match r {
            Ok(_) => bind_chart_data(op, old(deck)@.slides) == Ok::<Seq<SlideView>, Fault>(
                final(deck)@.slides,
            ),
            Err(e) => bind_chart_data(op, old(deck)@.slides) == Err::<Seq<SlideView>, Fault>(e@),
        },
{
    let id = op.str_field("element")?;
    let source = op.str_field("source")?;
    let named = parse_element_id(id)?;
    if !same(named.kind.as_str(), "chart") {
        let mut m = id.to_owned();
        m.push_str(" is not a chart");
        return Err(AdapterError::BadOp(m));
    }
    match locate(deck, &named) {
        None => Err(unknown(id)),
        Some((i, k)) => {
            assert(deck@.slides[i as int] == deck.slides@[i as int]@);
            let mut e = deck.slides[i].elements[k].copy();
            assert(deck@.slides[i as int].elements[k as int] == e@);
            let ghost was = e@;
            e.source = Some(source.to_owned());
            assert(e@ =~= (ElementView { source: Some(source@), ..was }));
            put_element(deck, i, k, e);
            Ok(())
        },
    }
}

fn do_delete_slide(op: &Op, deck: &mut Deck) -> (r: Result<(), AdapterError>)
    ensures
        final(deck).theme == old(deck).theme,
        match r {
            Ok(_) => delete_slide(op, old(deck)@.slides) == Ok::<Seq<SlideView>, Fault>(
                final(deck)@.slides,
            ),
            Err(e) => delete_slide(op, old(deck)@.slides) == Err::<Seq<SlideView>, Fault>(e@),
        },
{
    let id = op.str_field("slide")?;
    let i = deck.find(id);
    if i >= deck.slides.len() {
        return Err(missing_slide(id));
    }
    let ghost s = deck@.slides;
    deck.slides.remove(i);
    assert(deck@.slides =~= s.remove(i as int));
    Ok(())
}

fn do_op(op: &Op, deck: &mut Deck) -> (r: Result<(), AdapterError>)
    ensures
        final(deck).theme == old(deck).theme,
        match r {
            Ok(_) => after_op(op, old(deck)@.slides) == Ok::<Seq<SlideView>, Fault>(
                final(deck)@.slides,
            ),
            Err(e) => after_op(op, old(deck)@.slides) == Err::<Seq<SlideView>, Fault>(e@),
        },
{
    match op.kind() {
        None => {
            let mut m = "unknown op ".to_owned();
            m.push_str("<missing>");
            Err(AdapterError::BadOp(m))
        },
        Some(k) => {
            if same(k, "add_slide") {
                do_add_slide(op, deck)
            } else if same(k, "replace_element") {
                do_replace_element(op, deck)
            } else if same(k, "reorder") {
                do_reorder(op, deck)
            } else if same(k, "apply_layout") {
                do_apply_layout(op, deck)
            } else if same(k, "bind_chart_data") {
                do_bind_chart_data(op, deck)
            } else if same(k, "delete_slide") {
                do_delete_slide(op, deck)
            } else {
                let mut m = "unknown op ".to_owned();
                m.push_str(k);
                Err(AdapterError::BadOp(m))
            }
        },
    }
}

/// Applies a batch of ops to a copy of a deck. All or nothing.
pub fn redo(ops: &Vec<Op>, deck: &Deck) -> (r: Result<Deck, AdapterError>)
    ensures
        match r {
            Ok(n) => redone(ops@, deck@) == Ok::<DeckView, Fault>(n@),
            Err(e) => redone(ops@, deck@) == Err::<DeckView, Fault>(e@),
        },
{
    if ops.len() == 0 {
        return Err(bad_op("empty op batch"));
    }
    let mut now = deck.copy();
    let mut i: usize = 0;
    while i < ops.len()
        invariant
            i <= ops@.len(),
            ops@.len() > 0,
            now.theme@ == deck.theme@,
            after_ops(ops@.take(i as int), deck@.slides) == Ok::<Seq<SlideView>, Fault>(
                now@.slides,
            ),
        decreases ops@.len() - i,
    {
        let ghost nn = ops@.take(i + 1);
        assert(nn.drop_last() =~= ops@.take(i as int));
        assert(nn.last() == ops@[i as int]);
        match do_op(&ops[i], &mut now) {
            Ok(_) => {},
            Err(e) => {
                proof {
                    lemma_first_fault(ops@, deck@.slides, i + 1);
                }
                return Err(e);
            },
        }
        i += 1;
    }
    assert(ops@.take(i as int) =~= ops@);
    assert(now@ =~= (DeckView { theme: deck@.theme, slides: now@.slides }));
    Ok(now)
}

/// Moving a slide keeps every slide: the deck after a `reorder` holds the slides that it held
/// before, each as often.
pub proof fn law_reordering_keeps_every_slide(op: &Op, s: Seq<SlideView>)
    requires
        reorder(op, s) is Ok,
    ensures
        reorder(op, s)->Ok_0.to_multiset() == s.to_multiset(),
{
    broadcast use vstd::seq_lib::group_to_multiset_ensures;
    let id = op.demand("slide"@)->Ok_0;
    let after = op.demand("after"@)->Ok_0;
    let i = slide_at(s, id);
    lemma_slide_bounds(s, id);
    let rest = s.remove(i);
    lemma_slide_bounds(rest, after);
    let k = if after == "start"@ {
        0
    } else {
        slide_at(rest, after) + 1
    };
    let t = reorder(op, s)->Ok_0;
    assert(t == rest.insert(k, s[i]));
    assert(t.to_multiset() =~= s.to_multiset());
}

proof fn lemma_slide_bounds(s: Seq<SlideView>, id: Seq<char>)
    ensures
        0 <= slide_at(s, id) <= s.len(),
    decreases s.len(),
{
    if s.len() > 0 && s[0].id != id {
        lemma_slide_bounds(s.skip(1), id);
    }
}

} // verus!
