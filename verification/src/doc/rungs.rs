//! The document ladder: cheapest check first, the whole document once at the end.

use crate::adapter::finding;
use crate::adapter::finding_at;
use crate::adapter::findings;
use crate::adapter::report;
use crate::adapter::text_of;
use crate::adapter::Diagnostic;
use crate::adapter::Entity;
use crate::adapter::EntityView;
use crate::adapter::Finding;
use crate::adapter::Outcome;
use crate::adapter::RungOutcome;
use crate::adapter::VerifyCtx;
use crate::adapter::VerifyRung;
use crate::doc::model::block_views;
use crate::doc::model::document;
use crate::doc::model::layout;
use crate::doc::model::leaves;
use crate::doc::model::paginate;
use crate::doc::model::parse;
use crate::doc::model::Block;
use crate::doc::model::BlockKind;
use crate::doc::model::BlockView;
use crate::doc::model::Leaf;
use crate::doc::model::Page;
use crate::text::at;
use crate::text::begins;
use crate::text::decimal;
use crate::text::from_chars;
use crate::text::occurs_at;
use crate::text::same;
use crate::text::show;
use crate::text::texts;
use crate::text::to_chars;
use crate::text::trim;
use crate::text::trim_of;
use crate::wording::find_char;
use crate::wording::index_of;
use crate::wording::number_of;
use crate::wording::parse_number;
use crate::wording::strip_prefix;
use vstd::prelude::*;

verus! {

/// Block tree valid, ids unique.
pub struct TreeValid;

/// Heading order, empty sections, broken references.
pub struct Lint;

/// Render only the pages containing changed blocks.
pub struct RenderChangedPages;

/// A small vision model looks at the changed pages.
pub struct VisionCheck {
    /// None means no vision model is configured.
    pub model: Option<String>,
}

/// The whole document, once.
pub struct FullRender;

/// One check of the document ladder.
pub enum DocRung {
    Tree(TreeValid),
    Lint(Lint),
    Pages(RenderChangedPages),
    Vision(VisionCheck),
    Full(FullRender),
}

/// One finding for each entity whose id an earlier entity has.
pub open spec fn duplicates(es: Seq<EntityView>) -> Seq<Finding>
    decreases es.len(),
{
    if es.len() == 0 {
        Seq::empty()
    } else {
        let d = es.drop_last();
        let rest = duplicates(d);
        if d.map_values(|e: EntityView| e.id).contains(es.last().id) {
            rest.push(finding("duplicate-block-id"@, es.last().id + " appears twice"@))
        } else {
            rest
        }
    }
}

/// What is wrong with a block tree.
pub open spec fn tree_faults(es: Seq<EntityView>) -> Seq<Finding> {
    if es.len() == 0 {
        duplicates(es).push(finding("empty-document"@, "the document has no blocks"@))
    } else {
        duplicates(es)
    }
}

fn seen_before(es: &Vec<Entity>, n: usize, id: &str) -> (b: bool)
    requires
        n <= es@.len(),
    ensures
        b == crate::adapter::entity_views(es@).take(n as int).map_values(
            |e: EntityView| e.id,
        ).contains(id@),
{
    let ghost ids = crate::adapter::entity_views(es@).take(n as int).map_values(
        |e: EntityView| e.id,
    );
    let mut i: usize = 0;
    while i < n
        invariant
            i <= n <= es@.len(),
            ids == crate::adapter::entity_views(es@).take(n as int).map_values(
                |e: EntityView| e.id,
            ),
            forall|k: int| 0 <= k < i ==> #[trigger] ids[k] != id@,
        decreases n - i,
    {
        assert(ids[i as int] == es@[i as int].id@);
        if same(es[i].id.as_str(), id) {
            return true;
        }
        i += 1;
    }
    false
}

impl VerifyRung for TreeValid {
    fn name(&self) -> (r: &str)
        ensures
            r@ == "block-tree"@,
    {
        "block-tree"
    }

    fn level(&self) -> (r: u8)
        ensures
            r == 0,
    {
        0
    }

    fn expected_ms(&self) -> (r: u64)
        ensures
            r == 1,
    {
        1
    }

    fn once_per_task(&self) -> (r: bool)
        ensures
            !r,
    {
        false
    }

    fn check(&self, ctx: &VerifyCtx<'_>) -> (r: RungOutcome)
        ensures
            r@ == Outcome::judged(tree_faults(ctx.outline@.entities)),
    {
        let es = &ctx.outline.entities;
        let ghost all = ctx.outline@.entities;
        let mut diags: Vec<Diagnostic> = Vec::new();
        let mut i: usize = 0;
        assert(findings(diags@) =~= Seq::<Finding>::empty());
        while i < es.len()
            invariant
                i <= es@.len(),
                all == crate::adapter::entity_views(es@),
                findings(diags@) == duplicates(all.take(i as int)),
            decreases es@.len() - i,
        {
            let ghost nn = all.take(i + 1);
            assert(nn.drop_last() =~= all.take(i as int));
            assert(nn.last() == es@[i as int]@);
            if seen_before(es, i, es[i].id.as_str()) {
                let mut m = es[i].id.clone();
                m.push_str(" appears twice");
                report(&mut diags, Diagnostic::new("duplicate-block-id", m.as_str()));
            }
            i += 1;
        }
        assert(all.take(i as int) =~= all);
        if es.len() == 0 {
            report(&mut diags, Diagnostic::new("empty-document", "the document has no blocks"));
        }
        RungOutcome::judge(diags)
    }
}

/// The headings of a document, in order.
pub open spec fn headings(b: Seq<BlockView>) -> Seq<BlockView> {
    b.filter(|x: BlockView| x.kind == BlockKind::Heading)
}

/// One finding for each heading that is more than one level below the heading before it.
pub open spec fn jumps(h: Seq<BlockView>) -> Seq<Finding>
    decreases h.len(),
{
    if h.len() < 2 {
        Seq::empty()
    } else {
        let rest = jumps(h.drop_last());
        let prev = h[h.len() - 2];
        let x = h.last();
        if prev.level > 0 && x.level > prev.level + 1 {
            rest.push(
                finding_at(
                    "heading-order"@,
                    trim_of(x.text) + " jumps from level "@ + decimal(prev.level as nat) + " to "@
                        + decimal(x.level as nat),
                    x.id,
                ),
            )
        } else {
            rest
        }
    }
}

/// Does a section have anything but headings?
pub open spec fn has_content(b: Seq<BlockView>, section: Seq<char>) -> bool {
    exists|k: int|
        0 <= k < b.len() && (#[trigger] b[k]).section == section && b[k].kind != BlockKind::Heading
}

/// One finding for each heading with nothing under it.
pub open spec fn hollow(h: Seq<BlockView>, b: Seq<BlockView>) -> Seq<Finding>
    decreases h.len(),
{
    if h.len() == 0 {
        Seq::empty()
    } else {
        let rest = hollow(h.drop_last(), b);
        let x = h.last();
        if has_content(b, x.section) {
            rest
        } else {
            rest.push(
                finding_at("empty-section"@, trim_of(x.text) + " has no content"@, x.id),
            )
        }
    }
}

/// The anchor of a link whose anchor starts at position `from`: what stands before the bracket.
pub open spec fn anchor_at(s: Seq<char>, from: int) -> Seq<char> {
    let rest = s.skip(from);
    rest.take(index_of(rest, ')'))
}

/// Is there a heading that opens this section?
pub open spec fn opens_section(h: Seq<BlockView>, section: Seq<char>) -> bool {
    exists|k: int| 0 <= k < h.len() && (#[trigger] h[k]).section == section
}

/// One finding for each link, among those that start before position `n`, to an anchor that is no
/// heading.
pub open spec fn dangling(s: Seq<char>, h: Seq<BlockView>, n: int) -> Seq<Finding>
    decreases n,
{
    if n <= 0 {
        Seq::empty()
    } else {
        let rest = dangling(s, h, n - 1);
        let anchor = anchor_at(s, n + 2);
        if occurs_at(s, "](#"@, n - 1) && anchor.len() > 0 && !opens_section(h, anchor) {
            rest.push(
                finding(
                    "broken-ref"@,
                    "link to #"@ + anchor + ", which is not a heading in this document"@,
                ),
            )
        } else {
            rest
        }
    }
}

/// What the linter finds in a document.
pub open spec fn lint(b: Seq<BlockView>, text: Seq<char>) -> Seq<Finding> {
    let h = headings(b);
    jumps(h) + hollow(h, b) + dangling(text, h, text.len() as int)
}

fn list_headings(b: &Vec<Block>) -> (r: Vec<&Block>)
    ensures
        r@.map_values(|x: &Block| x@) == headings(block_views(b@)),
{
    let ghost all = block_views(b@);
    let ghost p = |x: BlockView| x.kind == BlockKind::Heading;
    let mut out: Vec<&Block> = Vec::new();
    let mut i: usize = 0;
    assert(all.take(0).filter(p) =~= Seq::<BlockView>::empty()) by {
        reveal(Seq::filter);
    }
    assert(out@.map_values(|x: &Block| x@) =~= Seq::<BlockView>::empty());
    while i < b.len()
        invariant
            i <= b@.len(),
            all == block_views(b@),
            p == (|x: BlockView| x.kind == BlockKind::Heading),
            out@.map_values(|x: &Block| x@) == all.take(i as int).filter(p),
        decreases b@.len() - i,
    {
        proof {
            crate::adapter::lemma_filter_step(all, i as int, p);
        }
        assert(all[i as int] == b@[i as int]@);
        let ghost before = out@.map_values(|x: &Block| x@);
        if b[i].kind == BlockKind::Heading {
            out.push(&b[i]);
            assert(out@.map_values(|x: &Block| x@) =~= before.push(b@[i as int]@));
        }
        i += 1;
    }
    assert(all.take(i as int) =~= all);
    out
}

fn content(b: &Vec<Block>, section: &str) -> (r: bool)
    ensures
        r == has_content(block_views(b@), section@),
{
    let ghost all = block_views(b@);
    let mut i: usize = 0;
    while i < b.len()
        invariant
            i <= b@.len(),
            all == block_views(b@),
            forall|k: int|
                0 <= k < i ==> !((#[trigger] all[k]).section == section@ && all[k].kind
                    != BlockKind::Heading),
        decreases b@.len() - i,
    {
        assert(all[i as int] == b@[i as int]@);
        if same(b[i].section.as_str(), section) && b[i].kind != BlockKind::Heading {
            return true;
        }
        i += 1;
    }
    false
}

fn heading_opens(h: &Vec<&Block>, section: &str) -> (r: bool)
    ensures
        r == opens_section(h@.map_values(|x: &Block| x@), section@),
{
    let ghost all = h@.map_values(|x: &Block| x@);
    let mut i: usize = 0;
    while i < h.len()
        invariant
            i <= h@.len(),
            all == h@.map_values(|x: &Block| x@),
            forall|k: int| 0 <= k < i ==> (#[trigger] all[k]).section != section@,
        decreases h@.len() - i,
    {
        assert(all[i as int] == h@[i as int]@);
        if same(h[i].section.as_str(), section) {
            return true;
        }
        i += 1;
    }
    false
}

fn report_jumps(h: &Vec<&Block>, diags: &mut Vec<Diagnostic>)
    ensures
        findings(final(diags)@) == findings(old(diags)@) + jumps(h@.map_values(|x: &Block| x@)),
{
    let ghost all = h@.map_values(|x: &Block| x@);
    let ghost start = findings(diags@);
    let mut i: usize = 1;
    assert(start + jumps(all.take(if all.len() > 0 {
        1
    } else {
        0
    })) =~= start);
    while i < h.len()
        invariant
            1 <= i,
            all == h@.map_values(|x: &Block| x@),
            h@.len() > 0 ==> i <= h@.len(),
            h@.len() > 0 ==> findings(diags@) == start + jumps(all.take(i as int)),
            h@.len() == 0 ==> findings(diags@) == start,
        decreases h@.len() - i,
    {
        let ghost nn = all.take(i + 1);
        assert(nn.drop_last() =~= all.take(i as int));
        assert(nn.last() == h@[i as int]@);
        assert(nn[nn.len() - 2] == h@[i - 1]@);
        let prev = h[i - 1];
        let x = h[i];
        let ghost before = findings(diags@);
        if prev.level > 0 && x.level as u32 > prev.level as u32 + 1 {
            let mut m = trim(x.text.as_str());
            m.push_str(" jumps from level ");
            let a = show(prev.level as u64);
            m.push_str(a.as_str());
            m.push_str(" to ");
            let b = show(x.level as u64);
            m.push_str(b.as_str());
            let d = Diagnostic::new("heading-order", m.as_str()).at_entity(x.id.as_str());
            report(diags, d);
        }
        assert(findings(diags@) =~= start + jumps(nn));
        i += 1;
    }
    if h.len() > 0 {
        assert(all.take(i as int) =~= all);
    } else {
        assert(findings(diags@) =~= start + jumps(all));
    }
}

fn report_hollow(h: &Vec<&Block>, b: &Vec<Block>, diags: &mut Vec<Diagnostic>)
    ensures
        findings(final(diags)@) == findings(old(diags)@) + hollow(
            h@.map_values(|x: &Block| x@),
            block_views(b@),
        ),
{
    let ghost all = h@.map_values(|x: &Block| x@);
    let ghost start = findings(diags@);
    let mut i: usize = 0;
    assert(start + hollow(all.take(0), block_views(b@)) =~= start);
    while i < h.len()
        invariant
            i <= h@.len(),
            all == h@.map_values(|x: &Block| x@),
            findings(diags@) == start + hollow(all.take(i as int), block_views(b@)),
        decreases h@.len() - i,
    {
        let ghost nn = all.take(i + 1);
        assert(nn.drop_last() =~= all.take(i as int));
        assert(nn.last() == h@[i as int]@);
        let x = h[i];
        if !content(b, x.section.as_str()) {
            let mut m = trim(x.text.as_str());
            m.push_str(" has no content");
            let d = Diagnostic::new("empty-section", m.as_str()).at_entity(x.id.as_str());
            report(diags, d);
        }
        assert(findings(diags@) =~= start + hollow(nn, block_views(b@)));
        i += 1;
    }
    assert(all.take(i as int) =~= all);
}

fn report_dangling(text: &str, h: &Vec<&Block>, diags: &mut Vec<Diagnostic>)
    ensures
        findings(final(diags)@) == findings(old(diags)@) + dangling(
            text@,
            h@.map_values(|x: &Block| x@),
            text@.len() as int,
        ),
{
    let v = to_chars(text);
    let link = to_chars("](#");
    let ghost all = h@.map_values(|x: &Block| x@);
    let ghost start = findings(diags@);
    let mut i: usize = 0;
    proof {
        reveal_strlit("](#");
    }
    assert(start + dangling(text@, all, 0) =~= start);
    while i < v.len()
        invariant
            i <= v@.len(),
            v@ == text@,
            link@ == "](#"@,
            link@.len() == 3,
            all == h@.map_values(|x: &Block| x@),
            findings(diags@) == start + dangling(text@, all, i as int),
        decreases v@.len() - i,
    {
        let ghost before = findings(diags@);
        if v.len() - i >= 3 && at(v.as_slice(), link.as_slice(), i) {
            let rest = vstd::slice::slice_subrange(v.as_slice(), i + 3, v.len());
            assert(rest@ =~= text@.skip(i + 3));
            let n: usize = find_char(rest, ')');
            let name = vstd::slice::slice_subrange(rest, 0, n);
            assert(name@ =~= anchor_at(text@, i + 3));
            let anchor = from_chars(name);
            if n > 0 && !heading_opens(h, anchor.as_str()) {
                let mut m = "link to #".to_owned();
                m.push_str(anchor.as_str());
                m.push_str(", which is not a heading in this document");
                report(diags, Diagnostic::new("broken-ref", m.as_str()));
            }
        }
        assert(findings(diags@) =~= start + dangling(text@, all, i + 1));
        i += 1;
    }
}

impl VerifyRung for Lint {
    fn name(&self) -> (r: &str)
        ensures
            r@ == "lint"@,
    {
        "lint"
    }

    fn level(&self) -> (r: u8)
        ensures
            r == 1,
    {
        1
    }

    fn expected_ms(&self) -> (r: u64)
        ensures
            r == 50,
    {
        50
    }

    fn once_per_task(&self) -> (r: bool)
        ensures
            !r,
    {
        false
    }

    /// Heading levels may deepen by one at a time: a jump breaks every table of contents and every
    /// screen reader. A heading has something under it, and a link to an anchor has its heading.
    fn check(&self, ctx: &VerifyCtx<'_>) -> (r: RungOutcome)
        ensures
            r@ == Outcome::judged(
                lint(document(ctx.artifact.bytes@), text_of(ctx.artifact.bytes@)),
            ),
    {
        let blocks = parse(ctx.artifact);
        let h = list_headings(&blocks);
        let mut diags: Vec<Diagnostic> = Vec::new();
        assert(findings(diags@) =~= Seq::<Finding>::empty());
        report_jumps(&h, &mut diags);
        report_hollow(&h, &blocks, &mut diags);
        let text = ctx.artifact.text();
        report_dangling(text.as_str(), &h, &mut diags);
        assert(findings(diags@) =~= lint(document(ctx.artifact.bytes@), text@));
        RungOutcome::judge(diags)
    }
}

/// The page numbers that some render units name; a unit that names no page is passed over.
pub open spec fn pages_named(units: Seq<Seq<char>>) -> Seq<int>
    decreases units.len(),
{
    if units.len() == 0 {
        Seq::empty()
    } else {
        let rest = pages_named(units.drop_last());
        let u = units.last();
        if begins(u, "page:"@) {
            match number_of(u.skip("page:"@.len() as int), usize::MAX as nat) {
                Some(n) => rest.push(n as int),
                None => rest,
            }
        } else {
            rest
        }
    }
}

/// The first page with a number, or the number of pages.
pub open spec fn page_at(p: Seq<Leaf>, n: int) -> int
    decreases p.len(),
{
    if p.len() == 0 || p[0].0 == n {
        0
    } else {
        1 + page_at(p.skip(1), n)
    }
}

/// One finding for each wanted page that is not there or has nothing on it.
pub open spec fn page_faults(p: Seq<Leaf>, wanted: Seq<int>) -> Seq<Finding>
    decreases wanted.len(),
{
    if wanted.len() == 0 {
        Seq::empty()
    } else {
        let rest = page_faults(p, wanted.drop_last());
        let n = wanted.last();
        let i = page_at(p, n);
        if i >= p.len() {
            rest.push(
                finding(
                    "missing-page"@,
                    "page "@ + decimal(n as nat) + " was expected to render but does not exist"@,
                ),
            )
        } else if p[i].1.len() == 0 {
            rest.push(finding("empty-page"@, "page "@ + decimal(n as nat) + " renders empty"@))
        } else {
            rest
        }
    }
}

/// The pages to render: those that the impact names, or all of them where it names none.
pub open spec fn pages_wanted(p: Seq<Leaf>, units: Seq<Seq<char>>) -> Seq<int> {
    if units.len() == 0 {
        p.map_values(|l: Leaf| l.0)
    } else {
        pages_named(units)
    }
}

fn name_pages(units: &Vec<String>) -> (r: Vec<usize>)
    ensures
        r@.map_values(|n: usize| n as int) == pages_named(texts(units@)),
{
    let ghost all = texts(units@);
    let mut out: Vec<usize> = Vec::new();
    let mut i: usize = 0;
    assert(all.take(0) =~= Seq::<Seq<char>>::empty());
    assert(out@.map_values(|n: usize| n as int) =~= Seq::<int>::empty());
    while i < units.len()
        invariant
            i <= units@.len(),
            all == texts(units@),
            out@.map_values(|n: usize| n as int) == pages_named(all.take(i as int)),
        decreases units@.len() - i,
    {
        let ghost nn = all.take(i + 1);
        assert(nn.drop_last() =~= all.take(i as int));
        assert(nn.last() == units@[i as int]@);
        let ghost before = out@.map_values(|n: usize| n as int);
        match strip_prefix(units[i].as_str(), "page:") {
            Some(rest) => {
                match parse_number(rest.as_str(), usize::MAX as u64) {
                    Some(n) => {
                        out.push(n as usize);
                        assert(out@.map_values(|n: usize| n as int) =~= before.push(n as int));
                    },
                    None => {},
                }
            },
            None => {},
        }
        i += 1;
    }
    assert(all.take(i as int) =~= all);
    out
}

fn find_page(p: &Vec<Page>, n: usize) -> (i: usize)
    ensures
        i == page_at(leaves(p@), n as int),
        i <= p@.len(),
{
    let ghost all = leaves(p@);
    let mut i: usize = 0;
    assert(all.skip(0) =~= all);
    while i < p.len()
        invariant
            i <= p@.len(),
            all == leaves(p@),
            page_at(all, n as int) == i + page_at(all.skip(i as int), n as int),
        decreases p@.len() - i,
    {
        assert(all.skip(i as int)[0] == p@[i as int]@);
        assert(all.skip(i as int).skip(1) =~= all.skip(i + 1));
        if p[i].number == n {
            return i;
        }
        i += 1;
    }
    i
}

impl VerifyRung for RenderChangedPages {
    fn name(&self) -> (r: &str)
        ensures
            r@ == "render-changed-pages"@,
    {
        "render-changed-pages"
    }

    fn level(&self) -> (r: u8)
        ensures
            r == 2,
    {
        2
    }

    fn expected_ms(&self) -> (r: u64)
        ensures
            r == 3_000,
    {
        3_000
    }

    fn once_per_task(&self) -> (r: bool)
        ensures
            !r,
    {
        false
    }

    /// Every dirty page exists and has content: a page that renders empty is the classic symptom
    /// of an op that deleted more than it meant to.
    fn check(&self, ctx: &VerifyCtx<'_>) -> (r: RungOutcome)
        ensures
            ({
                let p = layout(document(ctx.artifact.bytes@)).0;
                r@ == Outcome::judged(page_faults(p, pages_wanted(p, ctx.impact@.units)))
            }),
    {
        let blocks = parse(ctx.artifact);
        let pages = paginate(&blocks);
        let ghost p = leaves(pages@);
        let mut dirty: Vec<usize> = Vec::new();
        let mut i: usize = 0;
        if ctx.impact.units.len() == 0 {
            assert(dirty@.map_values(|n: usize| n as int) =~= p.take(0).map_values(|l: Leaf| l.0));
            while i < pages.len()
                invariant
                    i <= pages@.len(),
                    p == leaves(pages@),
                    dirty@.map_values(|n: usize| n as int) == p.take(i as int).map_values(
                        |l: Leaf| l.0,
                    ),
                decreases pages@.len() - i,
            {
                let ghost before = dirty@.map_values(|n: usize| n as int);
                dirty.push(pages[i].number);
                assert(p[i as int] == pages@[i as int]@);
                assert(dirty@.map_values(|n: usize| n as int) =~= before.push(
                    pages@[i as int].number as int,
                ));
                assert(p.take(i + 1).map_values(|l: Leaf| l.0) =~= before.push(p[i as int].0));
                i += 1;
            }
            assert(p.take(i as int) =~= p);
        } else {
            dirty = name_pages(&ctx.impact.units);
        }
        let ghost wanted = dirty@.map_values(|n: usize| n as int);
        assert(wanted == pages_wanted(p, ctx.impact@.units));
        let mut diags: Vec<Diagnostic> = Vec::new();
        let mut i: usize = 0;
        assert(wanted.take(0) =~= Seq::<int>::empty());
        assert(findings(diags@) =~= Seq::<Finding>::empty());
        while i < dirty.len()
            invariant
                i <= dirty@.len(),
                p == leaves(pages@),
                wanted == dirty@.map_values(|n: usize| n as int),
                findings(diags@) == page_faults(p, wanted.take(i as int)),
            decreases dirty@.len() - i,
        {
            let ghost nn = wanted.take(i + 1);
            assert(nn.drop_last() =~= wanted.take(i as int));
            assert(nn.last() == dirty@[i as int]);
            let n: usize = dirty[i];
            let at: usize = find_page(&pages, n);
            let mut m = "page ".to_owned();
            let num = show(n as u64);
            m.push_str(num.as_str());
            if at == pages.len() {
                m.push_str(" was expected to render but does not exist");
                report(&mut diags, Diagnostic::new("missing-page", m.as_str()));
            } else {
                assert(p[at as int] == pages@[at as int]@);
                if pages[at].blocks.len() == 0 {
                    m.push_str(" renders empty");
                    report(&mut diags, Diagnostic::new("empty-page", m.as_str()));
                }
            }
            i += 1;
        }
        assert(wanted.take(i as int) =~= wanted);
        RungOutcome::judge(diags)
    }
}

impl VerifyRung for VisionCheck {
    fn name(&self) -> (r: &str)
        ensures
            r@ == "vision-check"@,
    {
        "vision-check"
    }

    fn level(&self) -> (r: u8)
        ensures
            r == 3,
    {
        3
    }

    fn expected_ms(&self) -> (r: u64)
        ensures
            r == 4_000,
    {
        4_000
    }

    fn once_per_task(&self) -> (r: bool)
        ensures
            !r,
    {
        false
    }

    /// Unavailable without a model, never a pass: a ladder that silently skips its only check for
    /// overflow and broken tables reports success for a broken pdf.
    fn check(&self, ctx: &VerifyCtx<'_>) -> (r: RungOutcome)
        ensures
            r@ == match self.model {
                None => Outcome::unavailable(
                    "no vision model configured for the doc rung 3 check"@,
                ),
                Some(_) => Outcome::pass(),
            },
    {
        match &self.model {
            None => RungOutcome::unavailable("no vision model configured for the doc rung 3 check"),
            Some(_) => RungOutcome::pass(),
        }
    }
}

impl VerifyRung for FullRender {
    fn name(&self) -> (r: &str)
        ensures
            r@ == "full-render"@,
    {
        "full-render"
    }

    fn level(&self) -> (r: u8)
        ensures
            r == 4,
    {
        4
    }

    fn expected_ms(&self) -> (r: u64)
        ensures
            r == 30_000,
    {
        30_000
    }

    fn once_per_task(&self) -> (r: bool)
        ensures
            r,
    {
        true
    }

    fn check(&self, ctx: &VerifyCtx<'_>) -> (r: RungOutcome)
        ensures
            r@ == if document(ctx.artifact.bytes@).len() == 0 {
                Outcome::fail(seq![finding("empty-document"@, "nothing to render"@)])
            } else {
                Outcome::pass()
            },
    {
        let blocks = parse(ctx.artifact);
        assert(block_views(blocks@).len() == blocks@.len());
        if blocks.len() == 0 {
            return RungOutcome::fail_with(Diagnostic::new("empty-document", "nothing to render"));
        }
        RungOutcome::pass()
    }
}

/// What a check of the document ladder finds.
pub open spec fn found(rung: DocRung, ctx: &VerifyCtx<'_>) -> Outcome {
    let b = document(ctx.artifact.bytes@);
    let p = layout(b).0;
    match rung {
        DocRung::Tree(_) => Outcome::judged(tree_faults(ctx.outline@.entities)),
        DocRung::Lint(_) => Outcome::judged(lint(b, text_of(ctx.artifact.bytes@))),
        DocRung::Pages(_) => Outcome::judged(
            page_faults(p, pages_wanted(p, ctx.impact@.units)),
        ),
        DocRung::Vision(v) => match v.model {
            None => Outcome::unavailable("no vision model configured for the doc rung 3 check"@),
            Some(_) => Outcome::pass(),
        },
        DocRung::Full(_) => if b.len() == 0 {
            Outcome::fail(seq![finding("empty-document"@, "nothing to render"@)])
        } else {
            Outcome::pass()
        },
    }
}

impl VerifyRung for DocRung {
    fn name(&self) -> (r: &str)
        ensures
            r@ == match self {
                DocRung::Tree(_) => "block-tree"@,
                DocRung::Lint(_) => "lint"@,
                DocRung::Pages(_) => "render-changed-pages"@,
                DocRung::Vision(_) => "vision-check"@,
                DocRung::Full(_) => "full-render"@,
            },
    {
        match self {
            DocRung::Tree(r) => r.name(),
            DocRung::Lint(r) => r.name(),
            DocRung::Pages(r) => r.name(),
            DocRung::Vision(r) => r.name(),
            DocRung::Full(r) => r.name(),
        }
    }

    fn level(&self) -> (r: u8)
        ensures
            r == match self {
                DocRung::Tree(_) => 0u8,
                DocRung::Lint(_) => 1u8,
                DocRung::Pages(_) => 2u8,
                DocRung::Vision(_) => 3u8,
                DocRung::Full(_) => 4u8,
            },
    {
        match self {
            DocRung::Tree(r) => r.level(),
            DocRung::Lint(r) => r.level(),
            DocRung::Pages(r) => r.level(),
            DocRung::Vision(r) => r.level(),
            DocRung::Full(r) => r.level(),
        }
    }

    fn expected_ms(&self) -> (r: u64)
        ensures
            r == match self {
                DocRung::Tree(_) => 1u64,
                DocRung::Lint(_) => 50u64,
                DocRung::Pages(_) => 3_000u64,
                DocRung::Vision(_) => 4_000u64,
                DocRung::Full(_) => 30_000u64,
            },
    {
        match self {
            DocRung::Tree(r) => r.expected_ms(),
            DocRung::Lint(r) => r.expected_ms(),
            DocRung::Pages(r) => r.expected_ms(),
            DocRung::Vision(r) => r.expected_ms(),
            DocRung::Full(r) => r.expected_ms(),
        }
    }

    fn once_per_task(&self) -> (r: bool)
        ensures
            r == (self is Full),
    {
        match self {
            DocRung::Tree(r) => r.once_per_task(),
            DocRung::Lint(r) => r.once_per_task(),
            DocRung::Pages(r) => r.once_per_task(),
            DocRung::Vision(r) => r.once_per_task(),
            DocRung::Full(r) => r.once_per_task(),
        }
    }

    fn check(&self, ctx: &VerifyCtx<'_>) -> (r: RungOutcome)
        ensures
            r@ == found(*self, ctx),
    {
        match self {
            DocRung::Tree(r) => r.check(ctx),
            DocRung::Lint(r) => r.check(ctx),
            DocRung::Pages(r) => r.check(ctx),
            DocRung::Vision(r) => r.check(ctx),
            DocRung::Full(r) => r.check(ctx),
        }
    }
}

} // verus!
