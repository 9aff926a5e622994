//! The block tree, and the paginator the changed-page render path needs.
//!
//! Block ids are `kind:section-slug/ordinal`: `p:methodology/2`, `table:revenue/1`. They are stable
//! against every edit outside their section: rewriting the revenue section does not renumber a
//! single block under methodology.
//!
//! They are not stable against inserting a block earlier in the same section, which renumbers its
//! later siblings of the same kind. The blast radius is one section, and sections are the caching
//! unit for documents.

use crate::adapter::entity_views;
use crate::adapter::text_of;
use crate::adapter::Artifact;
use crate::adapter::Entity;
use crate::adapter::EntityView;
use crate::adapter::Outline;
use crate::adapter::OutlineView;
use crate::text::begins;
use crate::text::decimal;
use crate::text::find_line_end;
use crate::text::from_chars;
use crate::text::is_space;
use crate::text::lemma_line_end;
use crate::text::line_end;
use crate::text::lines;
use crate::text::lines_of;
use crate::text::same;
use crate::text::show;
use crate::text::starts_with;
use crate::text::texts;
use crate::text::to_chars;
use crate::text::trim;
use crate::text::trim_end;
use crate::text::trim_end_of;
use crate::text::trim_of;
use crate::text::trim_start;
use crate::text::trim_start_of;
use crate::utf8::byte_len;
use crate::utf8::joined;
use crate::utf8::lemma_encode_add;
use crate::utf8::lemma_joined_add;
use crate::utf8::lemma_offset_slice;
use crate::utf8::lemma_offset_step;
use crate::utf8::len_in_bytes;
use crate::utf8::offset;
use crate::wording::all_digits;
use crate::wording::alnum;
use crate::wording::count_words;
use crate::wording::digit;
use crate::wording::drop_char;
use crate::wording::find_char;
use crate::wording::index_of;
use crate::wording::is_alnum;
use crate::wording::leading;
use crate::wording::lower_char;
use crate::wording::lowered;
use crate::wording::skip_char;
use crate::wording::strip_leading;
use crate::wording::strip_trailing;
use crate::wording::word_total;
use vstd::prelude::*;
use vstd::utf8::encode_utf8;
use vstd::utf8::encode_utf8_decode_utf8;

verus! {

/// A block's type.
#[derive(Clone, Copy, PartialEq, Eq, Structural, Debug)]
pub enum BlockKind {
    Heading,
    Paragraph,
    List,
    Table,
    Figure,
    Code,
    FrontMatter,
}

/// The word that a block kind goes by in ids.
pub open spec fn tag_of(k: BlockKind) -> Seq<char> {
    match k {
        BlockKind::Heading => "heading"@,
        BlockKind::Paragraph => "p"@,
        BlockKind::List => "list"@,
        BlockKind::Table => "table"@,
        BlockKind::Figure => "figure"@,
        BlockKind::Code => "code"@,
        BlockKind::FrontMatter => "meta"@,
    }
}

/// The kind that goes by a word.
pub open spec fn kind_of_tag(s: Seq<char>) -> Option<BlockKind> {
    if s == "heading"@ {
        Some(BlockKind::Heading)
    } else if s == "p"@ {
        Some(BlockKind::Paragraph)
    } else if s == "list"@ {
        Some(BlockKind::List)
    } else if s == "table"@ {
        Some(BlockKind::Table)
    } else if s == "figure"@ {
        Some(BlockKind::Figure)
    } else if s == "code"@ {
        Some(BlockKind::Code)
    } else if s == "meta"@ {
        Some(BlockKind::FrontMatter)
    } else {
        None
    }
}

impl BlockKind {
    pub fn as_str(&self) -> (r: &'static str)
        ensures
            r@ == tag_of(*self),
    {
        match self {
            BlockKind::Heading => "heading",
            BlockKind::Paragraph => "p",
            BlockKind::List => "list",
            BlockKind::Table => "table",
            BlockKind::Figure => "figure",
            BlockKind::Code => "code",
            BlockKind::FrontMatter => "meta",
        }
    }

    /// The kind that goes by this word.
    pub fn from_tag(s: &str) -> (r: Option<BlockKind>)
        ensures
            r == kind_of_tag(s@),
    {
        if same(s, "heading") {
            Some(BlockKind::Heading)
        } else if same(s, "p") {
            Some(BlockKind::Paragraph)
        } else if same(s, "list") {
            Some(BlockKind::List)
        } else if same(s, "table") {
            Some(BlockKind::Table)
        } else if same(s, "figure") {
            Some(BlockKind::Figure)
        } else if same(s, "code") {
            Some(BlockKind::Code)
        } else if same(s, "meta") {
            Some(BlockKind::FrontMatter)
        } else {
            None
        }
    }
}

/// The word that a kind goes by leads back to the kind.
pub proof fn law_tags_round_trip(k: BlockKind)
    ensures
        kind_of_tag(tag_of(k)) == Some(k),
{
    reveal_strlit("heading");
    reveal_strlit("p");
    reveal_strlit("list");
    reveal_strlit("table");
    reveal_strlit("figure");
    reveal_strlit("code");
    reveal_strlit("meta");
    assert("heading"@.len() == 7);
    assert("p"@.len() == 1);
    assert("list"@.len() == 4);
    assert("table"@.len() == 5);
    assert("figure"@.len() == 6);
    assert("code"@.len() == 4);
    assert("meta"@.len() == 4);
    assert("list"@[0] == 'l');
    assert("code"@[0] == 'c');
    assert("meta"@[0] == 'm');
}

#[derive(Debug)]
pub struct Block {
    pub id: String,
    pub kind: BlockKind,
    /// Heading level, 1 to 6. Zero for everything else.
    pub level: u8,
    /// Slug path of the section this block sits in.
    pub section: String,
    pub text: String,
    pub start: usize,
    pub end: usize,
}

/// A block, as the values it holds.
#[verifier::ext_equal]
pub ghost struct BlockView {
    pub id: Seq<char>,
    pub kind: BlockKind,
    pub level: int,
    pub section: Seq<char>,
    pub text: Seq<char>,
    pub start: int,
    pub end: int,
}

impl View for Block {
    type V = BlockView;

    open spec fn view(&self) -> BlockView {
        BlockView {
            id: self.id@,
            kind: self.kind,
            level: self.level as int,
            section: self.section@,
            text: self.text@,
            start: self.start as int,
            end: self.end as int,
        }
    }
}

/// A run of blocks, as the values they hold.
pub open spec fn block_views(v: Seq<Block>) -> Seq<BlockView> {
    v.map_values(|b: Block| b@)
}

/// How many rendered lines a block takes.
pub open spec fn line_total(b: BlockView) -> nat {
    if b.kind == BlockKind::Heading {
        2
    } else {
        let n = lines_of(b.text).len();
        (if n > 1 {
            n
        } else {
            1
        }) + 1
    }
}

impl Block {
    pub fn word_count(&self) -> (n: usize)
        ensures
            n == word_total(self.text@),
    {
        count_words(self.text.as_str())
    }

    /// How many rendered lines this block takes. Used by the paginator.
    pub fn line_count(&self) -> (n: usize)
        ensures
            n == line_total(self@) || (n == usize::MAX && line_total(self@) > usize::MAX),
    {
        match self.kind {
            BlockKind::Heading => 2,
            _ => {
                let all = lines(self.text.as_str());
                assert(texts(all@).len() == all@.len());
                let n: usize = if all.len() > 1 { all.len() } else { 1 };
                n.saturating_add(1)
            },
        }
    }
}

/// The letters and digits of a text in lower case, with one dash for each run of other characters
/// after the first letter or digit.
pub open spec fn dashed(s: Seq<char>) -> Seq<char>
    decreases s.len(),
{
    if s.len() == 0 {
        Seq::empty()
    } else {
        let r = dashed(s.drop_last());
        if is_alnum(s.last()) {
            r.push(lower_char(s.last()))
        } else if r.len() > 0 && r.last() != '-' {
            r.push('-')
        } else {
            r
        }
    }
}

/// A text as a slug: lower case words joined by dashes.
pub open spec fn slug_of(text: Seq<char>) -> Seq<char> {
    drop_char(dashed(trim_of(text)), '-')
}

pub fn slug(text: &str) -> (r: String)
    ensures
        r@ == slug_of(text@),
{
    let t = trim(text);
    let v = to_chars(t.as_str());
    let mut out = String::new();
    let mut last_dash = true;
    let mut i: usize = 0;
    while i < v.len()
        invariant
            i <= v@.len(),
            out@ == dashed(v@.take(i as int)),
            last_dash == (out@.len() == 0 || out@.last() == '-'),
        decreases v@.len() - i,
    {
        let ghost nn = v@.take(i + 1);
        assert(nn.drop_last() =~= v@.take(i as int));
        assert(nn.last() == v@[i as int]);
        if alnum(v[i]) {
            out.push(lowered(v[i]));
            assert(lower_char(v@[i as int]) != '-');
            last_dash = false;
        } else if !last_dash {
            out.push('-');
            last_dash = true;
        }
        i += 1;
    }
    assert(v@.take(i as int) =~= v@);
    strip_trailing(out.as_str(), '-')
}

/// The lines of a text from character `from` on, each with its newline.
pub open spec fn pieces_from(s: Seq<char>, from: int) -> Seq<Seq<char>>
    decreases s.len() - from,
    via pieces_from_decreases
{
    if from < 0 || from >= s.len() {
        Seq::empty()
    } else {
        let e = line_end(s, from);
        if e >= s.len() {
            seq![s.subrange(from, s.len() as int)]
        } else {
            seq![s.subrange(from, e + 1)] + pieces_from(s, e + 1)
        }
    }
}

#[via_fn]
proof fn pieces_from_decreases(s: Seq<char>, from: int) {
    if 0 <= from < s.len() {
        lemma_line_end(s, from);
    }
}

/// The lines of a text, each with its newline.
pub open spec fn pieces_of(s: Seq<char>) -> Seq<Seq<char>> {
    pieces_from(s, 0)
}

proof fn lemma_pieces_join(s: Seq<char>, from: int)
    requires
        0 <= from <= s.len(),
    ensures
        joined(pieces_from(s, from)) == s.skip(from),
    decreases s.len() - from,
{
    if from < s.len() {
        lemma_line_end(s, from);
        let e = line_end(s, from);
        let cut = if e >= s.len() {
            s.len() as int
        } else {
            e + 1
        };
        let first = seq![s.subrange(from, cut)];
        assert(first.drop_last() =~= Seq::<Seq<char>>::empty());
        assert(joined(first.drop_last()) =~= Seq::<char>::empty());
        assert(joined(first) =~= s.subrange(from, cut));
        if e < s.len() {
            lemma_pieces_join(s, e + 1);
            lemma_joined_add(first, pieces_from(s, e + 1));
        }
        assert(joined(pieces_from(s, from)) =~= s.skip(from));
    } else {
        assert(s.skip(from) =~= Seq::<char>::empty());
    }
}

/// The lines of a text, put back together, are the text.
pub proof fn law_lines_make_the_text(s: Seq<char>)
    ensures
        joined(pieces_of(s)) == s,
{
    lemma_pieces_join(s, 0);
    assert(s.skip(0) =~= s);
}

/// The lines of a text, each with its newline.
pub fn pieces(s: &str) -> (r: Vec<String>)
    ensures
        texts(r@) == pieces_of(s@),
{
    let v = to_chars(s);
    let mut out: Vec<String> = Vec::new();
    let mut i: usize = 0;
    assert(texts(out@) + pieces_from(v@, 0) =~= pieces_from(v@, 0));
    while i < v.len()
        invariant
            v@ == s@,
            i <= v@.len(),
            texts(out@) + pieces_from(v@, i as int) == pieces_of(v@),
        decreases v@.len() - i,
    {
        let e: usize = find_line_end(v.as_slice(), i);
        let cut: usize = if e < v.len() { e + 1 } else { e };
        let ghost before = out@;
        let line = from_chars(vstd::slice::slice_subrange(v.as_slice(), i, cut));
        out.push(line);
        assert(texts(out@) =~= texts(before).push(line@));
        assert(texts(before) + pieces_from(v@, i as int) =~= texts(out@) + pieces_from(
            v@,
            cut as int,
        ));
        i = cut;
    }
    assert(texts(out@) + pieces_from(v@, i as int) =~= texts(out@));
    out
}

/// Does a line open a heading?
pub open spec fn is_heading(line: Seq<char>) -> bool {
    let t = trim_start_of(line);
    t.len() > 0 && t[0] == '#'
}

/// Does a line open or close fenced code?
pub open spec fn is_fence(line: Seq<char>) -> bool {
    begins(trim_start_of(line), "```"@)
}

pub open spec fn is_blank(line: Seq<char>) -> bool {
    trim_of(line).len() == 0
}

/// Does a line open or close the front matter?
pub open spec fn is_rule(line: Seq<char>) -> bool {
    trim_end_of(line) == "---"@
}

/// Digits and then a full stop.
pub open spec fn is_numbered(t: Seq<char>) -> bool {
    let d = index_of(t, '.');
    0 < d < t.len() && all_digits(t.take(d))
}

/// The kind of the block that a line opens, where it is neither heading nor fence.
pub open spec fn opens(line: Seq<char>) -> BlockKind {
    let t = trim_start_of(line);
    if t.len() > 0 && t[0] == '|' {
        BlockKind::Table
    } else if begins(t, "- "@) || begins(t, "* "@) || is_numbered(t) {
        BlockKind::List
    } else if begins(t, "!["@) {
        BlockKind::Figure
    } else {
        BlockKind::Paragraph
    }
}

/// Where fenced code ends whose inside starts at line `j`: after its closing line.
pub open spec fn fence_end(p: Seq<Seq<char>>, j: int) -> int
    decreases p.len() - j,
{
    if j < 0 || j >= p.len() {
        j
    } else if is_fence(p[j]) {
        j + 1
    } else {
        fence_end(p, j + 1)
    }
}

/// The first blank line from line `j` on, or the end.
pub open spec fn gap_after(p: Seq<Seq<char>>, j: int) -> int
    decreases p.len() - j,
{
    if j < 0 || j >= p.len() || is_blank(p[j]) {
        j
    } else {
        gap_after(p, j + 1)
    }
}

/// Where front matter ends whose inside starts at line `j`: after its closing line.
pub open spec fn rule_end(p: Seq<Seq<char>>, j: int) -> int
    decreases p.len() - j,
{
    if j < 0 || j >= p.len() {
        j
    } else if is_rule(p[j]) {
        j + 1
    } else {
        rule_end(p, j + 1)
    }
}

pub(crate) proof fn lemma_ends(p: Seq<Seq<char>>, j: int)
    requires
        0 <= j <= p.len(),
    ensures
        j <= fence_end(p, j) <= p.len(),
        j <= gap_after(p, j) <= p.len(),
        j <= rule_end(p, j) <= p.len(),
    decreases p.len() - j,
{
    if j < p.len() {
        lemma_ends(p, j + 1);
    }
}

/// The text of lines `i` to `j`.
pub open spec fn span(p: Seq<Seq<char>>, i: int, j: int) -> Seq<char> {
    joined(p.subrange(i, j))
}

/// How many of these blocks are of one kind in one section.
pub open spec fn tally(b: Seq<BlockView>, section: Seq<char>, kind: BlockKind) -> nat
    decreases b.len(),
{
    if b.len() == 0 {
        0
    } else {
        tally(b.drop_last(), section, kind) + (if b.last().section == section && b.last().kind
            == kind {
            1nat
        } else {
            0nat
        })
    }
}

/// The id of the `n`th block of a kind in a section.
pub open spec fn numbered_id(kind: BlockKind, section: Seq<char>, n: nat) -> Seq<char> {
    tag_of(kind) + ":"@ + section + "/"@ + decimal(n)
}

/// The heading that line `i` is.
pub open spec fn heading_block(p: Seq<Seq<char>>, i: int) -> BlockView {
    let t = trim_start_of(p[i]);
    let marks = t.len() - skip_char(t, '#').len();
    let section = section_of(p[i]);
    BlockView {
        id: "heading:"@ + section,
        kind: BlockKind::Heading,
        level: if marks < 6 {
            marks
        } else {
            6
        },
        section,
        text: trim_end_of(p[i]),
        start: offset(p, i) as int,
        end: offset(p, i + 1) as int,
    }
}

/// The section that a heading line opens.
pub open spec fn section_of(line: Seq<char>) -> Seq<char> {
    let s = slug_of(trim_of(skip_char(trim_start_of(line), '#')));
    if s.len() == 0 {
        "root"@
    } else {
        s
    }
}

/// The block of lines `i` to `j` after the given blocks.
pub open spec fn body_block(
    p: Seq<Seq<char>>,
    i: int,
    j: int,
    kind: BlockKind,
    section: Seq<char>,
    sofar: Seq<BlockView>,
) -> BlockView {
    BlockView {
        id: numbered_id(kind, section, tally(sofar, section, kind) + 1),
        kind,
        level: 0,
        section,
        text: trim_end_of(span(p, i, j)),
        start: offset(p, i) as int,
        end: offset(p, j) as int,
    }
}

/// The blocks of the lines from `i` on, after those found so far, within a section.
pub open spec fn blocks_from(
    p: Seq<Seq<char>>,
    i: int,
    section: Seq<char>,
    sofar: Seq<BlockView>,
) -> Seq<BlockView>
    decreases p.len() - i,
    via blocks_from_decreases
{
    if i < 0 || i >= p.len() {
        sofar
    } else if is_heading(p[i]) {
        blocks_from(p, i + 1, section_of(p[i]), sofar.push(heading_block(p, i)))
    } else if is_fence(p[i]) {
        let j = fence_end(p, i + 1);
        let b = body_block(p, i, j, BlockKind::Code, section, sofar);
        blocks_from(p, j, section, sofar.push(b))
    } else if is_blank(p[i]) {
        blocks_from(p, i + 1, section, sofar)
    } else {
        let j = gap_after(p, i);
        let b = body_block(p, i, j, opens(p[i]), section, sofar);
        blocks_from(p, j, section, sofar.push(b))
    }
}

#[via_fn]
proof fn blocks_from_decreases(
    p: Seq<Seq<char>>,
    i: int,
    section: Seq<char>,
    sofar: Seq<BlockView>,
) {
    if 0 <= i < p.len() {
        lemma_ends(p, i + 1);
    }
}

/// The front matter that opens a document.
pub open spec fn front_block(p: Seq<Seq<char>>) -> BlockView {
    let j = rule_end(p, 1);
    BlockView {
        id: "meta:root/1"@,
        kind: BlockKind::FrontMatter,
        level: 0,
        section: "root"@,
        text: span(p, 0, j),
        start: 0,
        end: offset(p, j) as int,
    }
}

/// The blocks of a document, given by its lines.
pub open spec fn blocks_of(p: Seq<Seq<char>>) -> Seq<BlockView> {
    if p.len() > 0 && is_rule(p[0]) {
        blocks_from(p, rule_end(p, 1), "root"@, seq![front_block(p)])
    } else {
        blocks_from(p, 0, "root"@, Seq::empty())
    }
}

/// The blocks of a document.
pub open spec fn document(bytes: Seq<u8>) -> Seq<BlockView> {
    blocks_of(pieces_of(text_of(bytes)))
}


/// The string that a run of lines spells.
fn join_span(p: &Vec<String>, i: usize, j: usize) -> (r: String)
    requires
        i <= j <= p@.len(),
    ensures
        r@ == span(texts(p@), i as int, j as int),
{
    let ghost t = texts(p@);
    let mut out = String::new();
    let mut k: usize = i;
    assert(t.subrange(i as int, i as int) =~= Seq::<Seq<char>>::empty());
    while k < j
        invariant
            i <= k <= j <= p@.len(),
            t == texts(p@),
            out@ == span(t, i as int, k as int),
        decreases j - k,
    {
        let ghost nn = t.subrange(i as int, k + 1);
        assert(nn.drop_last() =~= t.subrange(i as int, k as int));
        assert(nn.last() == p@[k as int]@);
        out.push_str(p[k].as_str());
        k += 1;
    }
    out
}

/// How many bytes lines `i` to `j` take, starting at `pos`.
fn advance(p: &Vec<String>, pos: usize, i: usize, j: usize) -> (r: usize)
    requires
        i <= j <= p@.len(),
        pos == offset(texts(p@), i as int),
        offset(texts(p@), p@.len() as int) <= usize::MAX,
    ensures
        r == offset(texts(p@), j as int),
{
    let ghost t = texts(p@);
    let mut at: usize = pos;
    let mut k: usize = i;
    while k < j
        invariant
            i <= k <= j <= p@.len(),
            t == texts(p@),
            t.len() == p@.len(),
            at == offset(t, k as int),
            offset(t, p@.len() as int) <= usize::MAX,
        decreases j - k,
    {
        proof {
            lemma_offset_step(t, k as int);
            lemma_offset_slice(t, k + 1, p@.len() as int);
        }
        assert(t[k as int] == p@[k as int]@);
        at = at + len_in_bytes(p[k].as_str());
        k += 1;
    }
    at
}

fn blank(line: &str) -> (b: bool)
    ensures
        b == is_blank(line@),
{
    let t = trim(line);
    t.as_str().is_empty()
}

fn fence(line: &str) -> (b: bool)
    ensures
        b == is_fence(line@),
{
    let t = trim_start(line);
    starts_with(t.as_str(), "```")
}

fn rule(line: &str) -> (b: bool)
    ensures
        b == is_rule(line@),
{
    let t = trim_end(line);
    same(t.as_str(), "---")
}

fn heading(line: &str) -> (b: bool)
    ensures
        b == is_heading(line@),
{
    let t = trim_start(line);
    let v = to_chars(t.as_str());
    v.len() > 0 && v[0] == '#'
}

fn numbered(t: &Vec<char>) -> (b: bool)
    ensures
        b == is_numbered(t@),
{
    let d: usize = find_char(t.as_slice(), '.');
    if d == 0 || d >= t.len() {
        return false;
    }
    let mut i: usize = 0;
    while i < d
        invariant
            i <= d < t@.len(),
            d == index_of(t@, '.'),
            forall|k: int| 0 <= k < i ==> crate::wording::is_digit(#[trigger] t@.take(d as int)[k]),
        decreases d - i,
    {
        if !digit(t[i]) {
            assert(!crate::wording::is_digit(t@.take(d as int)[i as int]));
            return false;
        }
        i += 1;
    }
    true
}

fn opened(line: &str) -> (k: BlockKind)
    ensures
        k == opens(line@),
{
    let t = trim_start(line);
    let v = to_chars(t.as_str());
    if v.len() > 0 && v[0] == '|' {
        BlockKind::Table
    } else if starts_with(t.as_str(), "- ") || starts_with(t.as_str(), "* ") || numbered(&v) {
        BlockKind::List
    } else if starts_with(t.as_str(), "![") {
        BlockKind::Figure
    } else {
        BlockKind::Paragraph
    }
}

fn section_opened(line: &str) -> (r: String)
    ensures
        r@ == section_of(line@),
{
    let t = trim_start(line);
    let rest = strip_leading(t.as_str(), '#');
    let title = trim(rest.as_str());
    let s = slug(title.as_str());
    if s.as_str().is_empty() {
        "root".to_owned()
    } else {
        s
    }
}

fn heading_level(line: &str) -> (r: u8)
    ensures
        r as int == ({
            let t = trim_start_of(line@);
            let marks = t.len() - skip_char(t, '#').len();
            if marks < 6 {
                marks
            } else {
                6
            }
        }),
{
    let t = trim_start(line);
    let v = to_chars(t.as_str());
    let n: usize = leading(v.as_slice(), '#');
    if n < 6 {
        n as u8
    } else {
        6
    }
}

fn count_kind(b: &Vec<Block>, section: &str, kind: BlockKind) -> (n: usize)
    ensures
        n == tally(block_views(b@), section@, kind),
        n <= b@.len(),
{
    let ghost all = block_views(b@);
    let mut n: usize = 0;
    let mut i: usize = 0;
    assert(all.take(0) =~= Seq::<BlockView>::empty());
    while i < b.len()
        invariant
            i <= b@.len(),
            n <= i,
            all == block_views(b@),
            n == tally(all.take(i as int), section@, kind),
        decreases b@.len() - i,
    {
        let ghost nn = all.take(i + 1);
        assert(nn.drop_last() =~= all.take(i as int));
        assert(nn.last() == b@[i as int]@);
        if same(b[i].section.as_str(), section) && b[i].kind == kind {
            n += 1;
        }
        i += 1;
    }
    assert(all.take(i as int) =~= all);
    n
}

fn numbered_name(kind: BlockKind, section: &str, n: u64) -> (r: String)
    ensures
        r@ == numbered_id(kind, section@, n as nat),
{
    let mut id = kind.as_str().to_owned();
    id.push_str(":");
    id.push_str(section);
    id.push_str("/");
    let num = show(n);
    id.push_str(num.as_str());
    id
}

/// One more block, of lines `i` to `j`.
fn push_body(
    blocks: &mut Vec<Block>,
    p: &Vec<String>,
    i: usize,
    j: usize,
    kind: BlockKind,
    section: &str,
    start: usize,
    end: usize,
)
    requires
        i <= j <= p@.len(),
        start == offset(texts(p@), i as int),
        end == offset(texts(p@), j as int),
        old(blocks)@.len() < p@.len(),
    ensures
        block_views(final(blocks)@) == block_views(old(blocks)@).push(
            body_block(
                texts(p@),
                i as int,
                j as int,
                kind,
                section@,
                block_views(old(blocks)@),
            ),
        ),
{
    let ghost before = block_views(blocks@);
    assert(blocks@.len() < p.len());
    let n: usize = count_kind(blocks, section, kind) + 1;
    let whole = join_span(p, i, j);
    let b = Block {
        id: numbered_name(kind, section, n as u64),
        kind,
        level: 0,
        section: section.to_owned(),
        text: trim_end(whole.as_str()),
        start,
        end,
    };
    blocks.push(b);
    assert(block_views(blocks@) =~= before.push(b@));
}

pub(crate) proof fn lemma_gap_moves(p: Seq<Seq<char>>, i: int)
    requires
        0 <= i < p.len(),
        !is_blank(p[i]),
    ensures
        i < gap_after(p, i) <= p.len(),
{
    lemma_ends(p, i + 1);
}

/// Parse markdown into blocks.
///
/// A hand written line scanner: the block vocabulary is small and fixed, byte ranges have to be
/// exact for the materializer, and a parse that changed from one release to the next would
/// reshuffle every block id in every cached document.
pub fn parse(artifact: &Artifact) -> (r: Vec<Block>)
    ensures
        block_views(r@) == document(artifact.bytes@),
{
    let text = artifact.text();
    let total: usize = len_in_bytes(text.as_str());
    let p = pieces(text.as_str());
    let ghost t = texts(p@);
    proof {
        law_lines_make_the_text(text@);
        lemma_offset_slice(t, 0, t.len() as int);
        lemma_ends(t, 0);
        assert(t.len() == p@.len());
    }
    let mut blocks: Vec<Block> = Vec::new();
    let mut section = "root".to_owned();
    let mut pos: usize = 0;
    let mut i: usize = 0;
    assert(block_views(blocks@) =~= Seq::<BlockView>::empty());
    if p.len() > 0 && rule(p[0].as_str()) {
        assert(t[0] == p@[0]@);
        let mut j: usize = 1;
        while j < p.len() && !rule(p[j].as_str())
            invariant
                1 <= j <= p@.len(),
                t == texts(p@),
                rule_end(t, 1) == rule_end(t, j as int),
            decreases p@.len() - j,
        {
            assert(t[j as int] == p@[j as int]@);
            j += 1;
        }
        if j < p.len() {
            assert(t[j as int] == p@[j as int]@);
            j += 1;
        }
        let end: usize = advance(&p, 0, 0, j);
        let b = Block {
            id: "meta:root/1".to_owned(),
            kind: BlockKind::FrontMatter,
            level: 0,
            section: "root".to_owned(),
            text: join_span(&p, 0, j),
            start: 0,
            end,
        };
        blocks.push(b);
        assert(block_views(blocks@) =~= seq![front_block(t)]);
        pos = end;
        i = j;
    }
    while i < p.len()
        invariant
            i <= p@.len(),
            t == texts(p@),
            t.len() == p@.len(),
            blocks@.len() <= i,
            pos == offset(t, i as int),
            offset(t, t.len() as int) <= usize::MAX,
            blocks_from(t, i as int, section@, block_views(blocks@)) == blocks_of(t),
        decreases p@.len() - i,
    {
        assert(t[i as int] == p@[i as int]@);
        let ghost before = block_views(blocks@);
        let line = p[i].as_str();
        if heading(line) {
            let end: usize = advance(&p, pos, i, i + 1);
            let opened_section = section_opened(line);
            let mut id = "heading:".to_owned();
            id.push_str(opened_section.as_str());
            let b = Block {
                id,
                kind: BlockKind::Heading,
                level: heading_level(line),
                section: opened_section.clone(),
                text: trim_end(line),
                start: pos,
                end,
            };
            blocks.push(b);
            assert(b@ =~= heading_block(t, i as int));
            assert(block_views(blocks@) =~= before.push(b@));
            section = opened_section;
            pos = end;
            i = i + 1;
        } else if fence(line) {
            let mut j: usize = i + 1;
            while j < p.len() && !fence(p[j].as_str())
                invariant
                    i < j <= p@.len(),
                    t == texts(p@),
                    fence_end(t, i + 1) == fence_end(t, j as int),
                decreases p@.len() - j,
            {
                assert(t[j as int] == p@[j as int]@);
                j += 1;
            }
            if j < p.len() {
                assert(t[j as int] == p@[j as int]@);
                j += 1;
            }
            let end: usize = advance(&p, pos, i, j);
            push_body(&mut blocks, &p, i, j, BlockKind::Code, section.as_str(), pos, end);
            assert(block_views(blocks@).len() == before.len() + 1);
            pos = end;
            i = j;
        } else if blank(line) {
            pos = advance(&p, pos, i, i + 1);
            i = i + 1;
        } else {
            let kind = opened(line);
            let mut j: usize = i;
            while j < p.len() && !blank(p[j].as_str())
                invariant
                    i <= j <= p@.len(),
                    t == texts(p@),
                    gap_after(t, i as int) == gap_after(t, j as int),
                decreases p@.len() - j,
            {
                assert(t[j as int] == p@[j as int]@);
                j += 1;
            }
            if j < p.len() {
                assert(t[j as int] == p@[j as int]@);
            }
            proof {
                lemma_gap_moves(t, i as int);
            }
            let end: usize = advance(&p, pos, i, j);
            push_body(&mut blocks, &p, i, j, kind, section.as_str(), pos, end);
            assert(block_views(blocks@).len() == before.len() + 1);
            pos = end;
            i = j;
        }
    }
    blocks
}


/// A block that lines `i` to `j` make up.
pub open spec fn cut_from(b: BlockView, p: Seq<Seq<char>>, i: int, j: int) -> bool {
    &&& 0 <= i < j <= p.len()
    &&& b.start == offset(p, i)
    &&& b.end == offset(p, j)
    &&& trim_end_of(b.text) == trim_end_of(span(p, i, j))
}

/// A block that some of the lines make up.
pub open spec fn is_cut(b: BlockView, p: Seq<Seq<char>>) -> bool {
    exists|i: int, j: int| cut_from(b, p, i, j)
}

/// Every block is made up of some of the lines, and they come in the order of the lines.
pub open spec fn well_cut(b: Seq<BlockView>, p: Seq<Seq<char>>) -> bool {
    &&& forall|k: int| 0 <= k < b.len() ==> is_cut(#[trigger] b[k], p)
    &&& forall|k: int, m: int|
        0 <= k < m < b.len() ==> (#[trigger] b[k]).end <= (#[trigger] b[m]).start
}

/// Every block under a section is numbered among its own kind there.
pub open spec fn well_numbered(b: Seq<BlockView>) -> bool {
    forall|k: int|
        0 <= k < b.len() ==> (#[trigger] b[k]).id == match b[k].kind {
            BlockKind::Heading => "heading:"@ + b[k].section,
            BlockKind::FrontMatter => "meta:root/1"@,
            kind => numbered_id(
                kind,
                b[k].section,
                tally(b.take(k), b[k].section, kind) + 1,
            ),
        }
}

proof fn lemma_trim_end_twice(s: Seq<char>)
    ensures
        trim_end_of(trim_end_of(s)) == trim_end_of(s),
    decreases s.len(),
{
    if s.len() > 0 && is_space(s.last()) {
        lemma_trim_end_twice(s.drop_last());
    }
}

proof fn lemma_well_push(b: Seq<BlockView>, p: Seq<Seq<char>>, i: int, j: int, x: BlockView)
    requires
        well_cut(b, p),
        well_numbered(b),
        cut_from(x, p, i, j),
        b.len() > 0 ==> b.last().end <= offset(p, i),
        x.id == match x.kind {
            BlockKind::Heading => "heading:"@ + x.section,
            BlockKind::FrontMatter => "meta:root/1"@,
            kind => numbered_id(kind, x.section, tally(b, x.section, kind) + 1),
        },
    ensures
        well_cut(b.push(x), p),
        well_numbered(b.push(x)),
{
    let n = b.push(x);
    assert forall|k: int| 0 <= k < n.len() implies is_cut(#[trigger] n[k], p) by {
        if k == b.len() {
            assert(cut_from(n[k], p, i, j));
        } else {
            assert(n[k] == b[k]);
        }
    }
    assert forall|k: int, m: int| 0 <= k < m < n.len() implies (#[trigger] n[k]).end
        <= (#[trigger] n[m]).start by {
        if m == b.len() {
            assert(n[k] == b[k]);
            if k < b.len() - 1 {
                let l = b[b.len() - 1];
                assert(b[k].end <= l.start);
                let (a, c) = choose|a: int, c: int| cut_from(l, p, a, c);
                lemma_offset_slice(p, a, c);
            }
        } else {
            assert(n[k] == b[k] && n[m] == b[m]);
        }
    }
    assert forall|k: int| 0 <= k < n.len() implies (#[trigger] n[k]).id == match n[k].kind {
        BlockKind::Heading => "heading:"@ + n[k].section,
        BlockKind::FrontMatter => "meta:root/1"@,
        kind => numbered_id(kind, n[k].section, tally(n.take(k), n[k].section, kind) + 1),
    } by {
        if k < b.len() {
            assert(n[k] == b[k]);
            assert(n.take(k) =~= b.take(k));
        } else {
            assert(n.take(k) =~= b);
        }
    }
}

proof fn lemma_blocks_from_well(
    p: Seq<Seq<char>>,
    i: int,
    section: Seq<char>,
    sofar: Seq<BlockView>,
)
    requires
        0 <= i <= p.len(),
        well_cut(sofar, p),
        well_numbered(sofar),
        sofar.len() > 0 ==> sofar.last().end <= offset(p, i),
    ensures
        well_cut(blocks_from(p, i, section, sofar), p),
        well_numbered(blocks_from(p, i, section, sofar)),
    decreases p.len() - i,
{
    if i < p.len() {
        lemma_ends(p, i + 1);
        lemma_offset_slice(p, i, i + 1);
        if is_heading(p[i]) {
            let b = heading_block(p, i);
            assert(p.subrange(i, i + 1) =~= seq![p[i]]);
            assert(seq![p[i]].drop_last() =~= Seq::<Seq<char>>::empty());
            assert(joined(seq![p[i]].drop_last()) =~= Seq::<char>::empty());
            assert(span(p, i, i + 1) =~= p[i]);
            lemma_trim_end_twice(p[i]);
            lemma_well_push(sofar, p, i, i + 1, b);
            lemma_blocks_from_well(p, i + 1, section_of(p[i]), sofar.push(b));
        } else if is_fence(p[i]) {
            let j = fence_end(p, i + 1);
            let b = body_block(p, i, j, BlockKind::Code, section, sofar);
            lemma_trim_end_twice(span(p, i, j));
            lemma_well_push(sofar, p, i, j, b);
            lemma_blocks_from_well(p, j, section, sofar.push(b));
        } else if is_blank(p[i]) {
            lemma_blocks_from_well(p, i + 1, section, sofar);
        } else {
            let j = gap_after(p, i);
            let b = body_block(p, i, j, opens(p[i]), section, sofar);
            lemma_trim_end_twice(span(p, i, j));
            lemma_well_push(sofar, p, i, j, b);
            lemma_blocks_from_well(p, j, section, sofar.push(b));
        }
    }
}

pub(crate) proof fn lemma_blocks_well(p: Seq<Seq<char>>)
    ensures
        well_cut(blocks_of(p), p),
        well_numbered(blocks_of(p)),
{
    if p.len() > 0 && is_rule(p[0]) {
        lemma_ends(p, 1);
        let j = rule_end(p, 1);
        lemma_offset_slice(p, 0, j);
        let b = front_block(p);
        let none = Seq::<BlockView>::empty();
        lemma_well_push(none, p, 0, j, b);
        assert(none.push(b) =~= seq![b]);
        lemma_blocks_from_well(p, j, "root"@, seq![b]);
    } else {
        lemma_blocks_from_well(p, 0, "root"@, Seq::empty());
    }
}

/// The lines of a text are not empty, and hold no newline but at their ends; only the last may be
/// without one.
proof fn lemma_pieces_shape(s: Seq<char>, from: int, k: int)
    requires
        0 <= from <= s.len(),
        0 <= k < pieces_from(s, from).len(),
    ensures
        ({
            let p = pieces_from(s, from);
            &&& p[k].len() > 0
            &&& forall|x: int| 0 <= x < p[k].len() - 1 ==> p[k][x] != '\n'
            &&& p[k].last() == '\n' || k == p.len() - 1
        }),
    decreases s.len() - from,
{
    if from < s.len() {
        lemma_line_end(s, from);
        let e = line_end(s, from);
        if e < s.len() {
            let rest = pieces_from(s, e + 1);
            if k > 0 {
                assert(pieces_from(s, from)[k] == rest[k - 1]);
                lemma_pieces_shape(s, e + 1, k - 1);
            }
        }
    }
}

proof fn lemma_some_bytes(s: Seq<char>)
    requires
        s.len() > 0,
    ensures
        byte_len(s) > 0,
{
    let none = Seq::<char>::empty();
    encode_utf8_decode_utf8(s);
    encode_utf8_decode_utf8(none);
    lemma_encode_add(none, none);
    assert(none + none =~= none);
    if byte_len(s) == 0 {
        assert(encode_utf8(s) =~= encode_utf8(none));
    }
}

/// Lines take up bytes: a line starts after the one before it.
proof fn lemma_lines_take_bytes(text: Seq<char>, i: int, j: int)
    requires
        0 <= i < j <= pieces_of(text).len(),
    ensures
        offset(pieces_of(text), i) < offset(pieces_of(text), j),
{
    let p = pieces_of(text);
    lemma_pieces_shape(text, 0, i);
    lemma_some_bytes(p[i]);
    lemma_offset_step(p, i);
    lemma_offset_slice(p, i + 1, j);
}

/// The byte range of every block, read back, is the block's text, and there is something in it.
pub proof fn law_ranges_slice_back(text: Seq<char>, k: int)
    requires
        0 <= k < blocks_of(pieces_of(text)).len(),
    ensures
        ({
            let b = blocks_of(pieces_of(text))[k];
            &&& 0 <= b.start < b.end <= byte_len(text)
            &&& exists|u: Seq<char>|
                encode_utf8(text).subrange(b.start, b.end) == #[trigger] encode_utf8(u)
                    && trim_end_of(u) == trim_end_of(b.text)
        }),
{
    let p = pieces_of(text);
    let b = blocks_of(p)[k];
    law_lines_make_the_text(text);
    lemma_blocks_well(p);
    let (i, j) = choose|i: int, j: int| cut_from(b, p, i, j);
    lemma_offset_slice(p, i, j);
    lemma_lines_take_bytes(text, i, j);
    let u = span(p, i, j);
    assert(encode_utf8(text).subrange(b.start, b.end) == encode_utf8(u));
}

/// Blocks come in the order of the text, and no two share a byte.
pub proof fn law_blocks_keep_apart(text: Seq<char>, k: int, m: int)
    requires
        0 <= k < m < blocks_of(pieces_of(text)).len(),
    ensures
        blocks_of(pieces_of(text))[k].end <= blocks_of(pieces_of(text))[m].start,
{
    lemma_blocks_well(pieces_of(text));
}

/// Does line `l` lie in a block?
pub open spec fn lies_in(b: BlockView, p: Seq<Seq<char>>, l: int) -> bool {
    b.start <= offset(p, l) && offset(p, l + 1) <= b.end
}

pub(crate) proof fn lemma_blocks_from_extends(
    p: Seq<Seq<char>>,
    i: int,
    section: Seq<char>,
    sofar: Seq<BlockView>,
    k: int,
)
    requires
        0 <= i <= p.len(),
        0 <= k < sofar.len(),
    ensures
        k < blocks_from(p, i, section, sofar).len(),
        blocks_from(p, i, section, sofar)[k] == sofar[k],
    decreases p.len() - i,
{
    if i < p.len() {
        lemma_ends(p, i + 1);
        if is_heading(p[i]) {
            let b = heading_block(p, i);
            lemma_blocks_from_extends(p, i + 1, section_of(p[i]), sofar.push(b), k);
        } else if is_fence(p[i]) {
            let j = fence_end(p, i + 1);
            let b = body_block(p, i, j, BlockKind::Code, section, sofar);
            lemma_blocks_from_extends(p, j, section, sofar.push(b), k);
        } else if is_blank(p[i]) {
            lemma_blocks_from_extends(p, i + 1, section, sofar, k);
        } else {
            let j = gap_after(p, i);
            let b = body_block(p, i, j, opens(p[i]), section, sofar);
            lemma_blocks_from_extends(p, j, section, sofar.push(b), k);
        }
    }
}

proof fn lemma_blocks_from_hold(
    p: Seq<Seq<char>>,
    i: int,
    section: Seq<char>,
    sofar: Seq<BlockView>,
    l: int,
) -> (k: int)
    requires
        0 <= i <= l < p.len(),
        !is_blank(p[l]),
    ensures
        0 <= k < blocks_from(p, i, section, sofar).len(),
        lies_in(blocks_from(p, i, section, sofar)[k], p, l),
    decreases p.len() - i,
{
    let n = sofar.len() as int;
    lemma_ends(p, i + 1);
    lemma_offset_slice(p, i, l);
    if is_heading(p[i]) {
        let b = heading_block(p, i);
        if l == i {
            lemma_blocks_from_extends(p, i + 1, section_of(p[i]), sofar.push(b), n);
            n
        } else {
            lemma_blocks_from_hold(p, i + 1, section_of(p[i]), sofar.push(b), l)
        }
    } else if is_fence(p[i]) {
        let j = fence_end(p, i + 1);
        let b = body_block(p, i, j, BlockKind::Code, section, sofar);
        if l < j {
            lemma_offset_slice(p, l + 1, j);
            lemma_blocks_from_extends(p, j, section, sofar.push(b), n);
            n
        } else {
            lemma_blocks_from_hold(p, j, section, sofar.push(b), l)
        }
    } else if is_blank(p[i]) {
        lemma_blocks_from_hold(p, i + 1, section, sofar, l)
    } else {
        let j = gap_after(p, i);
        let b = body_block(p, i, j, opens(p[i]), section, sofar);
        if l < j {
            lemma_offset_slice(p, l + 1, j);
            lemma_blocks_from_extends(p, j, section, sofar.push(b), n);
            n
        } else {
            lemma_blocks_from_hold(p, j, section, sofar.push(b), l)
        }
    }
}

/// Nothing is lost: every line that is not blank lies in a block, and in one only.
pub proof fn law_every_line_lies_in_one_block(text: Seq<char>, l: int)
    requires
        0 <= l < pieces_of(text).len(),
        !is_blank(pieces_of(text)[l]),
    ensures
        exists|k: int|
            {
                &&& 0 <= k < blocks_of(pieces_of(text)).len()
                &&& #[trigger] lies_in(blocks_of(pieces_of(text))[k], pieces_of(text), l)
                &&& forall|m: int|
                    0 <= m < blocks_of(pieces_of(text)).len() && m != k ==> !#[trigger] lies_in(
                        blocks_of(pieces_of(text))[m],
                        pieces_of(text),
                        l,
                    )
            },
{
    let p = pieces_of(text);
    let b = blocks_of(p);
    let k = if is_rule(p[0]) {
        lemma_ends(p, 1);
        let j = rule_end(p, 1);
        let front = seq![front_block(p)];
        if l < j {
            lemma_offset_slice(p, l + 1, j);
            lemma_blocks_from_extends(p, j, "root"@, front, 0);
            0
        } else {
            lemma_blocks_from_hold(p, j, "root"@, front, l)
        }
    } else {
        lemma_blocks_from_hold(p, 0, "root"@, Seq::empty(), l)
    };
    lemma_lines_take_bytes(text, l, l + 1);
    assert forall|m: int| 0 <= m < b.len() && m != k implies !#[trigger] lies_in(b[m], p, l) by {
        if m < k {
            law_blocks_keep_apart(text, m, k);
        } else {
            law_blocks_keep_apart(text, k, m);
        }
    }
    assert(lies_in(b[k], p, l));
}

/// The kind of the block that a line opens.
pub open spec fn kind_of_line(line: Seq<char>) -> BlockKind {
    if is_heading(line) {
        BlockKind::Heading
    } else if is_fence(line) {
        BlockKind::Code
    } else {
        opens(line)
    }
}

/// Is a block made up of the lines from `i` to `j`, and of the kind that the first of them opens?
/// Only front matter is not, and it opens a document.
pub open spec fn opened_at(b: BlockView, p: Seq<Seq<char>>, i: int, j: int) -> bool {
    &&& 0 <= i < j <= p.len()
    &&& b.start == offset(p, i)
    &&& b.end == offset(p, j)
    &&& if b.kind is FrontMatter {
        b.section == "root"@ && p.len() > 0 && is_rule(p[0])
    } else {
        b.kind == kind_of_line(p[i])
    }
}

spec fn is_opened(b: BlockView, p: Seq<Seq<char>>) -> bool {
    exists|i: int, j: int| #[trigger] opened_at(b, p, i, j)
}

proof fn lemma_opened_push(b: Seq<BlockView>, p: Seq<Seq<char>>, x: BlockView, i: int, j: int)
    requires
        forall|k: int| 0 <= k < b.len() ==> #[trigger] is_opened(b[k], p),
        opened_at(x, p, i, j),
    ensures
        forall|k: int| 0 <= k < b.push(x).len() ==> #[trigger] is_opened(b.push(x)[k], p),
{
    let n = b.push(x);
    assert forall|k: int| 0 <= k < n.len() implies #[trigger] is_opened(n[k], p) by {
        if k < b.len() {
            assert(n[k] == b[k]);
            assert(is_opened(b[k], p));
        }
    }
}

proof fn lemma_blocks_from_opened(
    p: Seq<Seq<char>>,
    i: int,
    section: Seq<char>,
    sofar: Seq<BlockView>,
)
    requires
        0 <= i <= p.len(),
        forall|k: int| 0 <= k < sofar.len() ==> #[trigger] is_opened(sofar[k], p),
    ensures
        forall|k: int|
            0 <= k < blocks_from(p, i, section, sofar).len() ==> #[trigger] is_opened(
                blocks_from(p, i, section, sofar)[k],
                p,
            ),
    decreases p.len() - i,
{
    if i < p.len() {
        lemma_ends(p, i + 1);
        if is_heading(p[i]) {
            let b = heading_block(p, i);
            lemma_opened_push(sofar, p, b, i, i + 1);
            lemma_blocks_from_opened(p, i + 1, section_of(p[i]), sofar.push(b));
            assert(blocks_from(p, i, section, sofar) == blocks_from(
                p,
                i + 1,
                section_of(p[i]),
                sofar.push(b),
            ));
        } else if is_fence(p[i]) {
            let j = fence_end(p, i + 1);
            let b = body_block(p, i, j, BlockKind::Code, section, sofar);
            lemma_opened_push(sofar, p, b, i, j);
            lemma_blocks_from_opened(p, j, section, sofar.push(b));
            assert(blocks_from(p, i, section, sofar) == blocks_from(p, j, section, sofar.push(b)));
        } else if is_blank(p[i]) {
            lemma_blocks_from_opened(p, i + 1, section, sofar);
            assert(blocks_from(p, i, section, sofar) == blocks_from(p, i + 1, section, sofar));
        } else {
            lemma_gap_moves(p, i);
            let j = gap_after(p, i);
            let b = body_block(p, i, j, opens(p[i]), section, sofar);
            lemma_opened_push(sofar, p, b, i, j);
            lemma_blocks_from_opened(p, j, section, sofar.push(b));
            assert(blocks_from(p, i, section, sofar) == blocks_from(p, j, section, sofar.push(b)));
        }
    }
}

proof fn lemma_blocks_opened(p: Seq<Seq<char>>)
    ensures
        forall|k: int| 0 <= k < blocks_of(p).len() ==> #[trigger] is_opened(blocks_of(p)[k], p),
{
    if p.len() > 0 && is_rule(p[0]) {
        lemma_ends(p, 1);
        let j = rule_end(p, 1);
        let b = front_block(p);
        let none = Seq::<BlockView>::empty();
        lemma_offset_slice(p, 0, j);
        lemma_opened_push(none, p, b, 0, j);
        assert(none.push(b) =~= seq![b]);
        lemma_blocks_from_opened(p, j, "root"@, seq![b]);
    } else {
        lemma_blocks_from_opened(p, 0, "root"@, Seq::empty());
    }
}

/// A text up to its first newline, and with it.
pub(crate) open spec fn opening(s: Seq<char>) -> Seq<char> {
    let e = line_end(s, 0);
    if e < s.len() {
        s.take(e + 1)
    } else {
        s
    }
}

/// Lines as they are cut from a text: none is empty, and a newline stands at the end of each but
/// perhaps the last, and nowhere else.
pub open spec fn line_shaped(x: Seq<Seq<char>>) -> bool {
    forall|k: int|
        0 <= k < x.len() ==> {
            &&& (#[trigger] x[k]).len() > 0
            &&& forall|c: int| 0 <= c < x[k].len() - 1 ==> x[k][c] != '\n'
            &&& x[k].last() == '\n' || k == x.len() - 1
        }
}

pub(crate) proof fn lemma_cut_lines(text: Seq<char>, i: int, j: int)
    requires
        0 <= i <= j <= pieces_of(text).len(),
    ensures
        line_shaped(pieces_of(text).subrange(i, j)),
{
    let p = pieces_of(text);
    let x = p.subrange(i, j);
    assert forall|k: int| 0 <= k < x.len() implies {
        &&& (#[trigger] x[k]).len() > 0
        &&& forall|c: int| 0 <= c < x[k].len() - 1 ==> x[k][c] != '\n'
        &&& x[k].last() == '\n' || k == x.len() - 1
    } by {
        lemma_pieces_shape(text, 0, i + k);
        assert(x[k] == p[i + k]);
    }
}

pub(crate) proof fn lemma_first_of(x: Seq<Seq<char>>)
    requires
        line_shaped(x),
        x.len() > 0,
    ensures
        joined(x) == x[0] + joined(x.skip(1)),
        opening(joined(x)) == x[0],
        line_shaped(x.skip(1)),
{
    let s = joined(x);
    let l = x[0];
    let head = seq![l];
    let rest = x.skip(1);
    assert(x =~= head + rest);
    lemma_joined_add(head, rest);
    assert(head.drop_last() =~= Seq::<Seq<char>>::empty());
    assert(joined(head.drop_last()) =~= Seq::<char>::empty());
    assert(joined(head) =~= l);
    lemma_line_end(s, 0);
    let e = line_end(s, 0);
    let n = l.len() - 1;
    assert(s[n] == l[n]);
    assert forall|c: int| 0 <= c < n implies s[c] != '\n' by {
        assert(s[c] == l[c]);
    }
    if l.last() == '\n' {
        assert(e == n);
        assert(s.take(e + 1) =~= l);
    } else {
        assert(rest =~= Seq::<Seq<char>>::empty());
        assert(joined(rest) =~= Seq::<char>::empty());
        assert(s =~= l);
        assert(e == s.len());
    }
    assert forall|k: int| 0 <= k < rest.len() implies {
        &&& (#[trigger] rest[k]).len() > 0
        &&& forall|c: int| 0 <= c < rest[k].len() - 1 ==> rest[k][c] != '\n'
        &&& rest[k].last() == '\n' || k == rest.len() - 1
    } by {
        assert(rest[k] == x[k + 1]);
    }
}

proof fn lemma_first_line(text: Seq<char>, i: int, j: int)
    requires
        0 <= i < j <= pieces_of(text).len(),
    ensures
        opening(span(pieces_of(text), i, j)) == pieces_of(text)[i],
{
    lemma_cut_lines(text, i, j);
    lemma_first_of(pieces_of(text).subrange(i, j));
}

/// The bytes of the blocks in one section, in order.
pub open spec fn sources_in(text: Seq<char>, b: Seq<BlockView>, section: Seq<char>) -> Seq<Seq<u8>>
    decreases b.len(),
{
    if b.len() == 0 {
        Seq::empty()
    } else if b.last().section == section {
        sources_in(text, b.drop_last(), section).push(
            encode_utf8(text).subrange(b.last().start, b.last().end),
        )
    } else {
        sources_in(text, b.drop_last(), section)
    }
}

/// Does a document open with front matter?
pub open spec fn has_front_matter(text: Seq<char>) -> bool {
    pieces_of(text).len() > 0 && is_rule(pieces_of(text)[0])
}

/// Blocks of the same bytes are of the same kind.
proof fn lemma_same_kind(s: Seq<char>, b: BlockView, t: Seq<char>, c: BlockView)
    requires
        is_opened(b, pieces_of(s)),
        is_opened(c, pieces_of(t)),
        !(b.kind is FrontMatter),
        !(c.kind is FrontMatter),
        encode_utf8(s).subrange(b.start, b.end) == encode_utf8(t).subrange(c.start, c.end),
    ensures
        b.kind == c.kind,
{
    let (p, q) = (pieces_of(s), pieces_of(t));
    let (i, j) = choose|i: int, j: int| #[trigger] opened_at(b, p, i, j);
    let (k, l) = choose|k: int, l: int| #[trigger] opened_at(c, q, k, l);
    law_lines_make_the_text(s);
    law_lines_make_the_text(t);
    lemma_offset_slice(p, i, j);
    lemma_offset_slice(q, k, l);
    encode_utf8_decode_utf8(span(p, i, j));
    encode_utf8_decode_utf8(span(q, k, l));
    assert(span(p, i, j) == span(q, k, l));
    lemma_first_line(s, i, j);
    lemma_first_line(t, k, l);
}

proof fn lemma_kinds_same(
    s: Seq<char>,
    b: Seq<BlockView>,
    t: Seq<char>,
    c: Seq<BlockView>,
    section: Seq<char>,
)
    requires
        forall|k: int| 0 <= k < b.len() ==> #[trigger] is_opened(b[k], pieces_of(s)),
        forall|k: int| 0 <= k < c.len() ==> #[trigger] is_opened(c[k], pieces_of(t)),
        section != "root"@ || !has_front_matter(s) && !has_front_matter(t),
        sources_in(s, b, section) == sources_in(t, c, section),
    ensures
        kinds_in(b, section) == kinds_in(c, section),
    decreases b.len() + c.len(),
{
    let (bb, cc) = (b.drop_last(), c.drop_last());
    if b.len() > 0 {
        assert(is_opened(b[b.len() - 1], pieces_of(s)));
        assert forall|k: int| 0 <= k < bb.len() implies #[trigger] is_opened(
            bb[k],
            pieces_of(s),
        ) by {
            assert(is_opened(b[k], pieces_of(s)));
        }
    }
    if c.len() > 0 {
        assert(is_opened(c[c.len() - 1], pieces_of(t)));
        assert forall|k: int| 0 <= k < cc.len() implies #[trigger] is_opened(
            cc[k],
            pieces_of(t),
        ) by {
            assert(is_opened(c[k], pieces_of(t)));
        }
    }
    if b.len() > 0 && b.last().section != section {
        lemma_kinds_same(s, bb, t, c, section);
    } else if c.len() > 0 && c.last().section != section {
        lemma_kinds_same(s, b, t, cc, section);
    } else if b.len() > 0 && c.len() > 0 {
        let x = sources_in(s, bb, section);
        let y = sources_in(t, cc, section);
        let u = encode_utf8(s).subrange(b.last().start, b.last().end);
        let v = encode_utf8(t).subrange(c.last().start, c.last().end);
        assert(x.push(u) == y.push(v));
        assert(x.push(u).drop_last() =~= x);
        assert(y.push(v).drop_last() =~= y);
        assert(x.push(u).last() == u);
        assert(y.push(v).last() == v);
        lemma_kinds_same(s, bb, t, cc, section);
        lemma_same_kind(s, b.last(), t, c.last());
    } else if b.len() > 0 {
        assert(sources_in(s, b, section).len() > 0);
    } else if c.len() > 0 {
        assert(sources_in(t, c, section).len() > 0);
    }
}

/// The kinds of the blocks in one section, in order.
pub open spec fn kinds_in(b: Seq<BlockView>, section: Seq<char>) -> Seq<BlockKind>
    decreases b.len(),
{
    if b.len() == 0 {
        Seq::empty()
    } else if b.last().section == section {
        kinds_in(b.drop_last(), section).push(b.last().kind)
    } else {
        kinds_in(b.drop_last(), section)
    }
}

/// The ids of the blocks in one section, in order.
pub open spec fn ids_in(b: Seq<BlockView>, section: Seq<char>) -> Seq<Seq<char>>
    decreases b.len(),
{
    if b.len() == 0 {
        Seq::empty()
    } else if b.last().section == section {
        ids_in(b.drop_last(), section).push(b.last().id)
    } else {
        ids_in(b.drop_last(), section)
    }
}

pub(crate) proof fn lemma_well_numbered_prefix(b: Seq<BlockView>)
    requires
        well_numbered(b),
        b.len() > 0,
    ensures
        well_numbered(b.drop_last()),
{
    let d = b.drop_last();
    assert forall|k: int| 0 <= k < d.len() implies (#[trigger] d[k]).id == match d[k].kind {
        BlockKind::Heading => "heading:"@ + d[k].section,
        BlockKind::FrontMatter => "meta:root/1"@,
        kind => numbered_id(kind, d[k].section, tally(d.take(k), d[k].section, kind) + 1),
    } by {
        assert(d[k] == b[k]);
        assert(d.take(k) =~= b.take(k));
    }
}

proof fn lemma_tally_same(
    b: Seq<BlockView>,
    c: Seq<BlockView>,
    section: Seq<char>,
    kind: BlockKind,
)
    requires
        kinds_in(b, section) == kinds_in(c, section),
    ensures
        tally(b, section, kind) == tally(c, section, kind),
    decreases b.len() + c.len(),
{
    if b.len() > 0 && b.last().section != section {
        lemma_tally_same(b.drop_last(), c, section, kind);
    } else if c.len() > 0 && c.last().section != section {
        lemma_tally_same(b, c.drop_last(), section, kind);
    } else if b.len() > 0 && c.len() > 0 {
        let x = kinds_in(b.drop_last(), section);
        let y = kinds_in(c.drop_last(), section);
        assert(x.push(b.last().kind) == y.push(c.last().kind));
        assert(x.push(b.last().kind).drop_last() =~= x);
        assert(y.push(c.last().kind).drop_last() =~= y);
        assert(x.push(b.last().kind).last() == b.last().kind);
        assert(y.push(c.last().kind).last() == c.last().kind);
        lemma_tally_same(b.drop_last(), c.drop_last(), section, kind);
    } else if b.len() > 0 {
        assert(kinds_in(b, section).len() > 0);
    } else if c.len() > 0 {
        assert(kinds_in(c, section).len() > 0);
    }
}

proof fn lemma_ids_same(b: Seq<BlockView>, c: Seq<BlockView>, section: Seq<char>)
    requires
        well_numbered(b),
        well_numbered(c),
        kinds_in(b, section) == kinds_in(c, section),
    ensures
        ids_in(b, section) == ids_in(c, section),
    decreases b.len() + c.len(),
{
    if b.len() > 0 && b.last().section != section {
        lemma_well_numbered_prefix(b);
        lemma_ids_same(b.drop_last(), c, section);
    } else if c.len() > 0 && c.last().section != section {
        lemma_well_numbered_prefix(c);
        lemma_ids_same(b, c.drop_last(), section);
    } else if b.len() > 0 && c.len() > 0 {
        let x = kinds_in(b.drop_last(), section);
        let y = kinds_in(c.drop_last(), section);
        assert(x.push(b.last().kind) == y.push(c.last().kind));
        assert(x.push(b.last().kind).drop_last() =~= x);
        assert(y.push(c.last().kind).drop_last() =~= y);
        assert(x.push(b.last().kind).last() == b.last().kind);
        assert(y.push(c.last().kind).last() == c.last().kind);
        lemma_well_numbered_prefix(b);
        lemma_well_numbered_prefix(c);
        lemma_ids_same(b.drop_last(), c.drop_last(), section);
        lemma_tally_same(b.drop_last(), c.drop_last(), section, b.last().kind);
        assert(b.take(b.len() - 1) =~= b.drop_last());
        assert(c.take(c.len() - 1) =~= c.drop_last());
        assert(b[b.len() - 1] == b.last());
        assert(c[c.len() - 1] == c.last());
        assert(b.last().id == c.last().id);
    } else if b.len() > 0 {
        assert(kinds_in(b, section).len() > 0);
    } else if c.len() > 0 {
        assert(kinds_in(c, section).len() > 0);
    }
}

/// Editing one section does not renumber another: whatever else differs between two documents, a
/// section whose blocks read the same in both has the same ids in both. (What stands before the
/// first heading may be front matter in one of them and text in the other.)
pub proof fn law_editing_one_section_does_not_renumber_another(
    before: Seq<char>,
    after: Seq<char>,
    section: Seq<char>,
)
    requires
        section != "root"@ || !has_front_matter(before) && !has_front_matter(after),
        sources_in(before, blocks_of(pieces_of(before)), section) == sources_in(
            after,
            blocks_of(pieces_of(after)),
            section,
        ),
    ensures
        ids_in(blocks_of(pieces_of(before)), section) == ids_in(
            blocks_of(pieces_of(after)),
            section,
        ),
{
    lemma_blocks_well(pieces_of(before));
    lemma_blocks_well(pieces_of(after));
    lemma_blocks_opened(pieces_of(before));
    lemma_blocks_opened(pieces_of(after));
    lemma_kinds_same(
        before,
        blocks_of(pieces_of(before)),
        after,
        blocks_of(pieces_of(after)),
        section,
    );
    lemma_ids_same(blocks_of(pieces_of(before)), blocks_of(pieces_of(after)), section);
}

/// The first line of a text, trimmed.
pub open spec fn headline(text: Seq<char>) -> Seq<char> {
    let l = lines_of(text);
    if l.len() > 0 {
        trim_of(l[0])
    } else {
        Seq::empty()
    }
}

/// The position of the first block called `id`, or the number of blocks.
pub open spec fn find_block(b: Seq<BlockView>, id: Seq<char>) -> int
    decreases b.len(),
{
    if b.len() == 0 {
        0
    } else {
        let r = find_block(b.drop_last(), id);
        if r < b.len() - 1 {
            r
        } else if b.last().id == id {
            b.len() - 1
        } else {
            b.len() as int
        }
    }
}

proof fn lemma_find_block_prefix(b: Seq<BlockView>, id: Seq<char>, n: int)
    requires
        0 <= n <= b.len(),
    ensures
        find_block(b.take(n), id) < n ==> find_block(b, id) == find_block(b.take(n), id),
    decreases b.len(),
{
    if n == b.len() {
        assert(b.take(n) =~= b);
    } else {
        lemma_find_block_prefix(b.drop_last(), id, n);
        assert(b.drop_last().take(n) =~= b.take(n));
    }
}

/// The position of the first block called `id`, or the number of blocks.
pub fn block_position(b: &Vec<Block>, id: &str) -> (i: usize)
    ensures
        i == find_block(block_views(b@), id@),
        i <= b@.len(),
{
    let ghost all = block_views(b@);
    let mut i: usize = 0;
    assert(all.take(0) =~= Seq::<BlockView>::empty());
    while i < b.len()
        invariant
            i <= b@.len(),
            all == block_views(b@),
            find_block(all.take(i as int), id@) == i,
        decreases b@.len() - i,
    {
        let ghost nn = all.take(i + 1);
        assert(nn.drop_last() =~= all.take(i as int));
        assert(nn.last() == b@[i as int]@);
        if same(b[i].id.as_str(), id) {
            proof {
                lemma_find_block_prefix(all, id@, i + 1);
            }
            return i;
        }
        i += 1;
    }
    assert(all.take(i as int) =~= all);
    i
}

/// Every block of a document ends within the bytes of its text.
pub proof fn lemma_block_bounds(bytes: Seq<u8>, k: int)
    requires
        0 <= k < document(bytes).len(),
    ensures
        0 <= document(bytes)[k].start <= document(bytes)[k].end <= byte_len(text_of(bytes)),
{
    law_ranges_slice_back(text_of(bytes), k);
}

/// A block as an entity.
///
/// A block refers to its section heading: that is the edge impact analysis walks when a heading is
/// rewritten and every block under it has to be re-rendered.
pub open spec fn entity_of(b: BlockView) -> EntityView {
    EntityView {
        id: b.id,
        kind: tag_of(b.kind),
        start: b.start,
        end: b.end,
        body: Some((b.start, b.end)),
        signature: Some(headline(b.text)),
        refs: if b.kind == BlockKind::Heading {
            Seq::empty()
        } else {
            seq!["heading:"@ + b.section]
        },
        parent: Some(b.section),
    }
}

/// The outline of a document.
pub open spec fn outline_of(path: Seq<char>, bytes: Seq<u8>) -> OutlineView {
    OutlineView { path, entities: document(bytes).map_values(|b: BlockView| entity_of(b)) }
}

fn first_line(text: &str) -> (r: String)
    ensures
        r@ == headline(text@),
{
    let all = lines(text);
    if all.len() > 0 {
        assert(texts(all@)[0] == all@[0]@);
        assert(texts(all@).len() == all@.len());
        trim(all[0].as_str())
    } else {
        assert(texts(all@).len() == 0);
        assert(headline(text@) =~= Seq::empty());
        String::new()
    }
}

fn as_entity(b: &Block) -> (e: Entity)
    ensures
        e@ == entity_of(b@),
{
    let mut refs: Vec<String> = Vec::new();
    if b.kind != BlockKind::Heading {
        let mut r = "heading:".to_owned();
        r.push_str(b.section.as_str());
        refs.push(r);
        assert(texts(refs@) =~= seq!["heading:"@ + b.section@]);
    } else {
        assert(texts(refs@) =~= Seq::<Seq<char>>::empty());
    }
    Entity {
        id: b.id.clone(),
        kind: b.kind.as_str().to_owned(),
        start: b.start,
        end: b.end,
        body: Some((b.start, b.end)),
        signature: Some(first_line(b.text.as_str())),
        refs,
        parent: Some(b.section.clone()),
    }
}

/// The block tree as the adapter-neutral outline the rest of the runtime speaks.
pub fn outline(artifact: &Artifact) -> (r: Outline)
    ensures
        r@ == outline_of(artifact.path@, artifact.bytes@),
{
    let blocks = parse(artifact);
    let ghost all = outline_of(artifact.path@, artifact.bytes@).entities;
    let mut entities: Vec<Entity> = Vec::new();
    let mut i: usize = 0;
    assert(entity_views(entities@) =~= all.take(0));
    while i < blocks.len()
        invariant
            i <= blocks@.len(),
            block_views(blocks@) == document(artifact.bytes@),
            all == outline_of(artifact.path@, artifact.bytes@).entities,
            entity_views(entities@) == all.take(i as int),
        decreases blocks@.len() - i,
    {
        let ghost before = entity_views(entities@);
        let e = as_entity(&blocks[i]);
        entities.push(e);
        assert(entity_views(entities@) =~= before.push(e@));
        assert(block_views(blocks@)[i as int] == blocks@[i as int]@);
        assert(all.take(i + 1) =~= all.take(i as int).push(all[i as int]));
        i += 1;
    }
    assert(block_views(blocks@).len() == blocks@.len());
    assert(all.take(i as int) =~= all);
    Outline { path: artifact.path.clone(), entities }
}

/// A page of the rendered document.
#[derive(Debug)]
pub struct Page {
    pub number: usize,
    pub blocks: Vec<String>,
}

/// A page: its number, and the ids of the blocks on it.
pub type Leaf = (int, Seq<Seq<char>>);

impl View for Page {
    type V = Leaf;

    open spec fn view(&self) -> Leaf {
        (self.number as int, texts(self.blocks@))
    }
}

/// A run of pages, as the values they hold.
pub open spec fn leaves(v: Seq<Page>) -> Seq<Leaf> {
    v.map_values(|p: Page| p@)
}

/// Lines per page in the built-in renderer.
pub const LINES_PER_PAGE: usize = 48;

/// The pages that some blocks take, and how many lines the last page has. A block goes on the
/// last page where it still fits, else it opens a new page.
pub open spec fn layout(b: Seq<BlockView>) -> (Seq<Leaf>, nat)
    decreases b.len(),
{
    if b.len() == 0 {
        (Seq::empty(), 0)
    } else {
        let (pages, used) = layout(b.drop_last());
        let x = b.last();
        if pages.len() > 0 && used + line_total(x) <= LINES_PER_PAGE {
            let last = pages.last();
            (
                pages.drop_last().push((last.0, last.1.push(x.id))),
                used + line_total(x),
            )
        } else {
            (pages.push(((pages.len() + 1) as int, seq![x.id])), line_total(x))
        }
    }
}

/// The ids of some blocks, in order.
pub open spec fn block_ids(b: Seq<BlockView>) -> Seq<Seq<char>> {
    b.map_values(|x: BlockView| x.id)
}

/// The ids on some pages, in order.
pub open spec fn page_ids(p: Seq<Leaf>) -> Seq<Seq<char>>
    decreases p.len(),
{
    if p.len() == 0 {
        Seq::empty()
    } else {
        page_ids(p.drop_last()) + p.last().1
    }
}

/// The pages hold every block once and in order, they are numbered from one, none is empty, and the
/// last takes more lines than a page has only where a single block does.
pub proof fn law_pages_hold_every_block(b: Seq<BlockView>)
    ensures
        page_ids(layout(b).0) == block_ids(b),
        forall|k: int|
            0 <= k < layout(b).0.len() ==> (#[trigger] layout(b).0[k]).0 == k + 1
                && layout(b).0[k].1.len() > 0,
        layout(b).0.len() > 0 ==> layout(b).1 <= LINES_PER_PAGE || layout(b).0.last().1.len() == 1,
        b.len() > 0 ==> layout(b).0.len() > 0,
    decreases b.len(),
{
    if b.len() > 0 {
        let d = b.drop_last();
        law_pages_hold_every_block(d);
        let (pages, used) = layout(d);
        let x = b.last();
        let n = layout(b).0;
        assert(block_ids(b) =~= block_ids(d).push(x.id));
        if pages.len() > 0 && used + line_total(x) <= LINES_PER_PAGE {
            assert(n.drop_last() =~= pages.drop_last());
            assert(page_ids(n) =~= block_ids(b));
            assert(n[n.len() - 1].0 == pages[pages.len() - 1].0);
        } else {
            assert(n.drop_last() =~= pages);
            assert(page_ids(n) =~= block_ids(b));
        }
        assert forall|k: int| 0 <= k < n.len() implies (#[trigger] n[k]).0 == k + 1
            && n[k].1.len() > 0 by {
            if k < pages.len() {
                assert(pages[k].0 == k + 1);
            }
        }
    } else {
        assert(page_ids(layout(b).0) =~= block_ids(b));
    }
}

/// Lay blocks out into pages, deterministically.
///
/// The built-in renderer is a paginator, not a typesetter. That is enough for what changed-page
/// rendering needs: which pages hold a changed block.
pub fn paginate(blocks: &Vec<Block>) -> (r: Vec<Page>)
    ensures
        leaves(r@) == layout(block_views(blocks@)).0,
{
    let ghost all = block_views(blocks@);
    let mut pages: Vec<Page> = Vec::new();
    let mut used: usize = 0;
    let mut i: usize = 0;
    assert(all.take(0) =~= Seq::<BlockView>::empty());
    assert(leaves(pages@) =~= Seq::<Leaf>::empty());
    while i < blocks.len()
        invariant
            i <= blocks@.len(),
            all == block_views(blocks@),
            leaves(pages@) == layout(all.take(i as int)).0,
            pages@.len() <= i,
            used == layout(all.take(i as int)).1 || (used > LINES_PER_PAGE && layout(
                all.take(i as int),
            ).1 > LINES_PER_PAGE),
        decreases blocks@.len() - i,
    {
        let ghost nn = all.take(i + 1);
        assert(nn.drop_last() =~= all.take(i as int));
        assert(nn.last() == blocks@[i as int]@);
        let ghost before = leaves(pages@);
        let lines: usize = blocks[i].line_count();
        if pages.len() > 0 && used <= LINES_PER_PAGE && lines <= LINES_PER_PAGE - used {
            let mut last = pages.pop().unwrap();
            let ghost old_last = last@;
            assert(before.last() == old_last);
            assert(leaves(pages@) =~= before.drop_last());
            last.blocks.push(blocks[i].id.clone());
            assert(last@ == (old_last.0, old_last.1.push(blocks@[i as int].id@))) by {
                assert(last@.1 =~= old_last.1.push(blocks@[i as int].id@));
            }
            pages.push(last);
            assert(leaves(pages@) =~= before.drop_last().push(last@));
            used = used + lines;
        } else {
            let mut ids: Vec<String> = Vec::new();
            ids.push(blocks[i].id.clone());
            let page = Page { number: pages.len() + 1, blocks: ids };
            assert(page@.1 =~= seq![blocks@[i as int].id@]);
            pages.push(page);
            assert(leaves(pages@) =~= before.push(page@));
            used = lines;
        }
        i += 1;
    }
    assert(all.take(i as int) =~= all);
    pages
}

/// Does a page hold any of these blocks?
pub open spec fn holds_any(p: Leaf, ids: Seq<Seq<char>>) -> bool {
    exists|k: int| 0 <= k < p.1.len() && ids.contains(#[trigger] p.1[k])
}

/// The numbers of the pages that hold any of these blocks, a number that repeats given once.
pub open spec fn dirty_pages(p: Seq<Leaf>, ids: Seq<Seq<char>>) -> Seq<int>
    decreases p.len(),
{
    if p.len() == 0 {
        Seq::empty()
    } else {
        let r = dirty_pages(p.drop_last(), ids);
        if holds_any(p.last(), ids) && !(r.len() > 0 && r.last() == p.last().0) {
            r.push(p.last().0)
        } else {
            r
        }
    }
}

/// A page is dirty exactly where it holds one of the blocks.
pub proof fn law_only_pages_with_changed_blocks_are_dirty(p: Seq<Leaf>, ids: Seq<Seq<char>>, n: int)
    ensures
        dirty_pages(p, ids).contains(n) <==> exists|k: int|
            0 <= k < p.len() && (#[trigger] p[k]).0 == n && holds_any(p[k], ids),
    decreases p.len(),
{
    if p.len() > 0 {
        let d = p.drop_last();
        law_only_pages_with_changed_blocks_are_dirty(d, ids, n);
        let r = dirty_pages(d, ids);
        let all = dirty_pages(p, ids);
        if all.contains(n) {
            let k = choose|k: int| 0 <= k < all.len() && all[k] == n;
            if k < r.len() {
                assert(r[k] == n);
                let m = choose|m: int|
                    0 <= m < d.len() && (#[trigger] d[m]).0 == n && holds_any(d[m], ids);
                assert(p[m] == d[m]);
            } else {
                assert(p[p.len() - 1].0 == n);
            }
        }
        if exists|k: int| 0 <= k < p.len() && (#[trigger] p[k]).0 == n && holds_any(p[k], ids) {
            let k = choose|k: int|
                0 <= k < p.len() && (#[trigger] p[k]).0 == n && holds_any(p[k], ids);
            if k < d.len() {
                assert(d[k] == p[k]);
                let m = choose|m: int| 0 <= m < r.len() && r[m] == n;
                assert(all[m] == n);
            } else {
                assert(all[all.len() - 1] == n);
            }
        }
    }
}

fn page_holds(p: &Page, ids: &Vec<String>) -> (b: bool)
    ensures
        b == holds_any(p@, texts(ids@)),
{
    let mut i: usize = 0;
    while i < p.blocks.len()
        invariant
            i <= p.blocks@.len(),
            forall|k: int| 0 <= k < i ==> !texts(ids@).contains(#[trigger] p@.1[k]),
        decreases p.blocks@.len() - i,
    {
        assert(p@.1[i as int] == p.blocks@[i as int]@);
        if crate::names::mentions(ids, p.blocks[i].as_str()) {
            return true;
        }
        i += 1;
    }
    false
}

/// Which pages contain any of these block ids.
pub fn pages_for(pages: &Vec<Page>, block_ids: &Vec<String>) -> (r: Vec<usize>)
    ensures
        r@.map_values(|n: usize| n as int) == dirty_pages(leaves(pages@), texts(block_ids@)),
{
    let ghost all = leaves(pages@);
    let mut out: Vec<usize> = Vec::new();
    let mut i: usize = 0;
    assert(all.take(0) =~= Seq::<Leaf>::empty());
    assert(out@.map_values(|n: usize| n as int) =~= Seq::<int>::empty());
    while i < pages.len()
        invariant
            i <= pages@.len(),
            all == leaves(pages@),
            out@.map_values(|n: usize| n as int) == dirty_pages(
                all.take(i as int),
                texts(block_ids@),
            ),
        decreases pages@.len() - i,
    {
        let ghost nn = all.take(i + 1);
        assert(nn.drop_last() =~= all.take(i as int));
        assert(nn.last() == pages@[i as int]@);
        let ghost before = out@.map_values(|n: usize| n as int);
        assert(before.len() == out@.len());
        assert(before.len() > 0 ==> before.last() == out@.last());
        if page_holds(&pages[i], block_ids) && !(out.len() > 0 && out[out.len() - 1]
            == pages[i].number) {
            out.push(pages[i].number);
            assert(out@.map_values(|n: usize| n as int) =~= before.push(
                pages@[i as int].number as int,
            ));
        }
        i += 1;
    }
    assert(all.take(i as int) =~= all);
    out
}

} // verus!
