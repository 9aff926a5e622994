//! Syntax trees, as the runs of nodes that the rest of the code adapter reads.
//!
//! tree-sitter does the parsing. What comes out of it here is plain data: every node of the tree in
//! the order in which a walk from the root meets it, each with its depth, so that a parent, a child
//! or a sibling can be told from the depths alone.

use crate::adapter::AdapterError;
use crate::adapter::Artifact;
use crate::adapter::Fault;
use crate::code::lang::Lang;
use crate::code::lang::LangSpec;
use vstd::prelude::*;

verus! {

/// `tree_sitter::Tree`, a parsed file.
#[verifier::external_type_specification]
#[verifier::external_body]
pub struct ExTree(tree_sitter::Tree);

/// `tree_sitter::LanguageError`, why a grammar could not be used.
#[verifier::external_type_specification]
#[verifier::external_body]
pub struct ExLanguageError(tree_sitter::LanguageError);

/// A node of a syntax tree, as the values it holds. A range is where something starts and ends in
/// the bytes; `fields` gives the range of the first child in each named field.
pub ghost struct NodeView {
    pub kind: Seq<char>,
    pub start: int,
    pub end: int,
    pub depth: int,
    pub error: bool,
    pub missing: bool,
    pub faulty: bool,
    pub fields: Map<Seq<char>, (int, int)>,
}

/// The nodes of a tree, in the order in which a walk from the root meets them.
pub uninterp spec fn nodes_in(tree: tree_sitter::Tree) -> Seq<NodeView>;

/// The nodes of the tree that a grammar makes of some bytes, where it makes one.
pub uninterp spec fn parsed(lang: Lang, bytes: Seq<u8>) -> Option<Seq<NodeView>>;

/// `Parser::set_language` and `Parser::parse`: the tree is a function of the grammar and the bytes.
/// What the tree is, and when there is none, is left to the grammar.
#[verifier::external_body]
fn parse_bytes(lang: Lang, bytes: &[u8]) -> (r: Result<
    Option<tree_sitter::Tree>,
    tree_sitter::LanguageError,
>)
    ensures
        match r {
            Ok(Some(t)) => parsed(lang, bytes@) == Some(nodes_in(t)),
            _ => parsed(lang, bytes@) is None,
        },
{
    let grammar = match lang {
        Lang::Rust => tree_sitter_rust::LANGUAGE,
        Lang::Python => tree_sitter_python::LANGUAGE,
        Lang::TypeScript => tree_sitter_typescript::LANGUAGE_TYPESCRIPT,
    };
    let mut parser = tree_sitter::Parser::new();
    parser.set_language(&tree_sitter::Language::new(grammar))?;
    Ok(parser.parse(bytes, None))
}

/// The text of a `tree_sitter::LanguageError`; what it says is left unsaid.
#[verifier::external_body]
fn language_error_text(e: &tree_sitter::LanguageError) -> (r: String) {
    e.to_string()
}

/// `Node::descendant_count` of the root: how many nodes a tree has.
#[verifier::external_body]
fn node_count(tree: &tree_sitter::Tree) -> (n: usize)
    ensures
        n == nodes_in(*tree).len(),
{
    tree.root_node().descendant_count()
}

/// What a node says of itself.
struct Facts {
    kind: String,
    start: usize,
    end: usize,
    depth: u32,
    error: bool,
    missing: bool,
    faulty: bool,
}

/// `TreeCursor::goto_descendant` and the accessors of `Node`: what the `i`th node of a tree holds.
#[verifier::external_body]
fn node_at(tree: &tree_sitter::Tree, i: usize) -> (r: Facts)
    requires
        i < nodes_in(*tree).len(),
    ensures
        r.kind@ == nodes_in(*tree)[i as int].kind,
        r.start == nodes_in(*tree)[i as int].start,
        r.end == nodes_in(*tree)[i as int].end,
        r.depth == nodes_in(*tree)[i as int].depth,
        r.error == nodes_in(*tree)[i as int].error,
        r.missing == nodes_in(*tree)[i as int].missing,
        r.faulty == nodes_in(*tree)[i as int].faulty,
{
    let mut cursor = tree.walk();
    cursor.goto_descendant(i);
    let n = cursor.node();
    Facts {
        kind: n.kind().to_owned(),
        start: n.start_byte(),
        end: n.end_byte(),
        depth: cursor.depth(),
        error: n.is_error(),
        missing: n.is_missing(),
        faulty: n.has_error(),
    }
}

/// `Node::child_by_field_name`: the range of the first child of the `i`th node in a named field.
#[verifier::external_body]
fn field_of(tree: &tree_sitter::Tree, i: usize, field: &str) -> (r: Option<(usize, usize)>)
    requires
        i < nodes_in(*tree).len(),
    ensures
        r is Some <==> nodes_in(*tree)[i as int].fields.contains_key(field@),
        r matches Some(x) ==> nodes_in(*tree)[i as int].fields[field@] == (x.0 as int, x.1 as int),
{
    let mut cursor = tree.walk();
    cursor.goto_descendant(i);
    let child = cursor.node().child_by_field_name(field)?;
    Some((child.start_byte(), child.end_byte()))
}

/// A range of bytes.
pub type Range = Option<(usize, usize)>;

/// A node of a syntax tree.
#[derive(Debug)]
pub struct SyntaxNode {
    pub kind: String,
    pub start: usize,
    pub end: usize,
    /// How many nodes stand above this one.
    pub depth: usize,
    /// A part of the file that fits into no syntax.
    pub error: bool,
    /// Put in by the parser to make sense of what is there.
    pub missing: bool,
    /// This node or one below it is wrong.
    pub faulty: bool,
    /// Where the children stand that are its name, its type, its trait and its body.
    pub name: Range,
    pub of_type: Range,
    pub of_trait: Range,
    pub body: Range,
}

/// A range as the values it holds.
pub open spec fn span_of(r: Range) -> Option<(int, int)> {
    match r {
        Some((a, b)) => Some((a as int, b as int)),
        None => None,
    }
}

/// The range of a field of a node.
pub open spec fn field_span(n: NodeView, field: Seq<char>) -> Option<(int, int)> {
    if n.fields.contains_key(field) {
        Some(n.fields[field])
    } else {
        None
    }
}

/// A node, as the values the adapter reads.
#[verifier::ext_equal]
pub ghost struct Syn {
    pub kind: Seq<char>,
    pub start: int,
    pub end: int,
    pub depth: int,
    pub error: bool,
    pub missing: bool,
    pub faulty: bool,
    pub name: Option<(int, int)>,
    pub of_type: Option<(int, int)>,
    pub of_trait: Option<(int, int)>,
    pub body: Option<(int, int)>,
}

impl View for SyntaxNode {
    type V = Syn;

    open spec fn view(&self) -> Syn {
        Syn {
            kind: self.kind@,
            start: self.start as int,
            end: self.end as int,
            depth: self.depth as int,
            error: self.error,
            missing: self.missing,
            faulty: self.faulty,
            name: span_of(self.name),
            of_type: span_of(self.of_type),
            of_trait: span_of(self.of_trait),
            body: span_of(self.body),
        }
    }
}

/// What the adapter reads of a node.
pub open spec fn reading(n: NodeView) -> Syn {
    Syn {
        kind: n.kind,
        start: n.start,
        end: n.end,
        depth: n.depth,
        error: n.error,
        missing: n.missing,
        faulty: n.faulty,
        name: field_span(n, "name"@),
        of_type: field_span(n, "type"@),
        of_trait: field_span(n, "trait"@),
        body: field_span(n, "body"@),
    }
}

/// A run of nodes, as the values they hold.
pub open spec fn syns(v: Seq<SyntaxNode>) -> Seq<Syn> {
    v.map_values(|n: SyntaxNode| n@)
}

/// The nodes that a grammar makes of some bytes, as far as the adapter reads them.
pub open spec fn tree_of(lang: Lang, bytes: Seq<u8>) -> Option<Seq<Syn>> {
    match parsed(lang, bytes) {
        Some(nodes) => Some(nodes.map_values(|n: NodeView| reading(n))),
        None => None,
    }
}

/// How the lack of a tree is reported: the grammar could not be used, or it made nothing.
pub open spec fn no_tree(name: Seq<char>, e: Fault) -> bool {
    e == Fault::Parse("parser returned no tree"@) || exists|why: Seq<char>|
        e == Fault::Parse(#[trigger] ("grammar "@ + name + " unavailable: "@ + why))
}

/// Parse an artifact, or say why it could not be parsed.
pub fn parse(spec: &LangSpec, artifact: &Artifact) -> (r: Result<Vec<SyntaxNode>, AdapterError>)
    ensures
        match r {
            Ok(nodes) => tree_of(spec.lang, artifact.bytes@) == Some(syns(nodes@)),
            Err(e) => tree_of(spec.lang, artifact.bytes@) is None && no_tree(spec.name@, e@),
        },
{
    let tree = match parse_bytes(spec.lang, artifact.bytes.as_slice()) {
        Ok(Some(tree)) => tree,
        Ok(None) => {
            return Err(AdapterError::Parse("parser returned no tree".to_owned()));
        },
        Err(e) => {
            let why = language_error_text(&e);
            let mut m = "grammar ".to_owned();
            m.push_str(spec.name);
            m.push_str(" unavailable: ");
            m.push_str(why.as_str());
            return Err(AdapterError::Parse(m));
        },
    };
    let n: usize = node_count(&tree);
    let ghost all = nodes_in(tree).map_values(|n: NodeView| reading(n));
    let mut out: Vec<SyntaxNode> = Vec::new();
    let mut i: usize = 0;
    assert(syns(out@) =~= all.take(0));
    while i < n
        invariant
            i <= n,
            n == nodes_in(tree).len(),
            all == nodes_in(tree).map_values(|n: NodeView| reading(n)),
            syns(out@) == all.take(i as int),
        decreases n - i,
    {
        let f = node_at(&tree, i);
        let node = SyntaxNode {
            kind: f.kind,
            start: f.start,
            end: f.end,
            depth: f.depth as usize,
            error: f.error,
            missing: f.missing,
            faulty: f.faulty,
            name: field_of(&tree, i, "name"),
            of_type: field_of(&tree, i, "type"),
            of_trait: field_of(&tree, i, "trait"),
            body: field_of(&tree, i, "body"),
        };
        let ghost before = syns(out@);
        out.push(node);
        assert(node@ =~= all[i as int]);
        assert(syns(out@) =~= before.push(node@));
        assert(all.take(i + 1) =~= all.take(i as int).push(all[i as int]));
        i += 1;
    }
    assert(all.take(i as int) =~= all);
    Ok(out)
}

/// Where the part of the tree under node `i` is over.
pub open spec fn subtree_end(t: Seq<Syn>, i: int) -> int {
    below(t, i + 1, t[i].depth)
}

/// The first node from `j` on that is no deeper than `depth`, or the number of nodes.
pub open spec fn below(t: Seq<Syn>, j: int, depth: int) -> int
    decreases t.len() - j,
{
    if j < 0 || j >= t.len() || t[j].depth <= depth {
        j
    } else {
        below(t, j + 1, depth)
    }
}

pub proof fn lemma_below(t: Seq<Syn>, j: int, depth: int)
    requires
        0 <= j <= t.len(),
    ensures
        j <= below(t, j, depth) <= t.len(),
    decreases t.len() - j,
{
    if j < t.len() && t[j].depth > depth {
        lemma_below(t, j + 1, depth);
    }
}

/// Where the part of the tree under node `i` is over.
pub fn skip_subtree(t: &Vec<SyntaxNode>, i: usize) -> (j: usize)
    requires
        i < t@.len(),
    ensures
        j == subtree_end(syns(t@), i as int),
        i < j <= t@.len(),
{
    let ghost all = syns(t@);
    assert(i < t.len());
    let mut j: usize = i + 1;
    while j < t.len() && t[j].depth > t[i].depth
        invariant
            i < j <= t@.len(),
            all == syns(t@),
            subtree_end(all, i as int) == below(all, j as int, all[i as int].depth),
        decreases t@.len() - j,
    {
        assert(all[j as int] == t@[j as int]@);
        assert(all[i as int] == t@[i as int]@);
        j += 1;
    }
    if j < t.len() {
        assert(all[j as int] == t@[j as int]@);
        assert(all[i as int] == t@[i as int]@);
    }
    j
}

/// The parent of node `i`: the last node before it that is less deep, or -1.
pub open spec fn parent(t: Seq<Syn>, i: int) -> int {
    above(t, i - 1, t[i].depth)
}

/// The last node up to `j` that is less deep than `depth`, or -1.
pub open spec fn above(t: Seq<Syn>, j: int, depth: int) -> int
    decreases j + 1,
{
    if j < 0 {
        -1
    } else if j < t.len() && t[j].depth < depth {
        j
    } else {
        above(t, j - 1, depth)
    }
}

pub proof fn lemma_above(t: Seq<Syn>, j: int, depth: int)
    requires
        -1 <= j < t.len(),
    ensures
        -1 <= above(t, j, depth) <= j,
        above(t, j, depth) >= 0 ==> t[above(t, j, depth)].depth < depth,
        forall|k: int| above(t, j, depth) < k <= j ==> (#[trigger] t[k]).depth >= depth,
    decreases j + 1,
{
    if j >= 0 && t[j].depth >= depth {
        lemma_above(t, j - 1, depth);
    }
}

/// The sibling before node `i`: the last node before it at its depth, with nothing less deep
/// between them, or -1.
pub open spec fn sibling_before(t: Seq<Syn>, i: int) -> int {
    let j = above(t, i - 1, t[i].depth + 1);
    if j >= 0 && t[j].depth == t[i].depth {
        j
    } else {
        -1
    }
}

/// The sibling before node `i`.
pub fn find_sibling_before(t: &Vec<SyntaxNode>, i: usize) -> (r: Option<usize>)
    requires
        i < t@.len(),
    ensures
        match r {
            Some(j) => j == sibling_before(syns(t@), i as int) && j < i,
            None => sibling_before(syns(t@), i as int) == -1,
        },
{
    let ghost all = syns(t@);
    let depth: usize = t[i].depth;
    assert(all[i as int] == t@[i as int]@);
    let mut j: usize = i;
    while j > 0 && t[j - 1].depth > depth
        invariant
            j <= i < t@.len(),
            all == syns(t@),
            depth == all[i as int].depth,
            above(all, i - 1, depth + 1) == above(all, j - 1, depth + 1),
        decreases j,
    {
        assert(all[j - 1] == t@[j - 1]@);
        j -= 1;
    }
    if j > 0 {
        assert(all[j - 1] == t@[j - 1]@);
        if t[j - 1].depth == depth {
            return Some(j - 1);
        }
    }
    None
}

/// A syntax error: where it starts and ends, and what it is.
pub type Flaw = (usize, usize, String);

/// A syntax error, as the values it holds.
pub type FlawView = (int, int, Seq<char>);

pub open spec fn flaw_view(f: Flaw) -> FlawView {
    (f.0 as int, f.1 as int, f.2@)
}

pub open spec fn flaw_views(v: Seq<Flaw>) -> Seq<FlawView> {
    v.map_values(|f: Flaw| flaw_view(f))
}

/// Does one error come strictly before another, by start, end and text?
pub open spec fn flaw_before(a: FlawView, b: FlawView) -> bool {
    a.0 < b.0 || (a.0 == b.0 && (a.1 < b.1 || (a.1 == b.1 && crate::names::before(a.2, b.2))))
}

/// A list with one more error, placed before the first that comes after it.
pub open spec fn flaw_placed(s: Seq<FlawView>, f: FlawView) -> Seq<FlawView>
    decreases s.len(),
{
    if s.len() == 0 || flaw_before(f, s[0]) {
        seq![f] + s
    } else {
        seq![s[0]] + flaw_placed(s.skip(1), f)
    }
}

/// The errors of a tree from node `i` on, added to those found so far and kept in order: every
/// node that is an error or was put in, with nothing under such a node counted again.
pub open spec fn flaws_from(t: Seq<Syn>, i: int, sofar: Seq<FlawView>) -> Seq<FlawView>
    decreases t.len() - i,
    via flaws_from_decreases
{
    if i < 0 || i >= t.len() {
        sofar
    } else if t[i].error {
        flaws_from(
            t,
            subtree_end(t, i),
            flaw_placed(sofar, (t[i].start, t[i].end, "syntax error"@)),
        )
    } else if t[i].missing {
        flaws_from(
            t,
            subtree_end(t, i),
            flaw_placed(sofar, (t[i].start, t[i].end, "missing "@ + t[i].kind)),
        )
    } else if t[i].faulty {
        flaws_from(t, i + 1, sofar)
    } else {
        flaws_from(t, subtree_end(t, i), sofar)
    }
}

#[via_fn]
proof fn flaws_from_decreases(t: Seq<Syn>, i: int, sofar: Seq<FlawView>) {
    if 0 <= i < t.len() {
        lemma_below(t, i + 1, t[i].depth);
    }
}

/// The errors of a tree, in order.
pub open spec fn flaws(t: Seq<Syn>) -> Seq<FlawView> {
    flaws_from(t, 0, Seq::empty())
}

fn is_flaw_before(a: &Flaw, b: &Flaw) -> (r: bool)
    ensures
        r == flaw_before(flaw_view(*a), flaw_view(*b)),
{
    a.0 < b.0 || (a.0 == b.0 && (a.1 < b.1 || (a.1 == b.1 && crate::names::is_before(
        a.2.as_str(),
        b.2.as_str(),
    ))))
}

proof fn lemma_flaw_placed(s: Seq<FlawView>, f: FlawView, i: int)
    requires
        0 <= i <= s.len(),
        forall|k: int| 0 <= k < i ==> !flaw_before(f, #[trigger] s[k]),
        i < s.len() ==> flaw_before(f, s[i]),
    ensures
        flaw_placed(s, f) == s.insert(i, f),
    decreases s.len(),
{
    if i == 0 {
        assert(s.insert(0, f) =~= seq![f] + s);
    } else {
        assert(!flaw_before(f, s[0]));
        let t = s.skip(1);
        assert forall|k: int| 0 <= k < i - 1 implies !flaw_before(f, #[trigger] t[k]) by {
            assert(t[k] == s[k + 1]);
        }
        lemma_flaw_placed(t, f, i - 1);
        assert(s.insert(i, f) =~= seq![s[0]] + t.insert(i - 1, f));
    }
}

fn place_flaw(v: &mut Vec<Flaw>, f: Flaw)
    ensures
        flaw_views(final(v)@) == flaw_placed(flaw_views(old(v)@), flaw_view(f)),
{
    let ghost s = flaw_views(v@);
    let mut i: usize = 0;
    while i < v.len() && !is_flaw_before(&f, &v[i])
        invariant
            i <= v@.len(),
            s == flaw_views(v@),
            forall|k: int| 0 <= k < i ==> !flaw_before(flaw_view(f), #[trigger] s[k]),
        decreases v@.len() - i,
    {
        i += 1;
    }
    proof {
        lemma_flaw_placed(s, flaw_view(f), i as int);
    }
    let ghost added = flaw_view(f);
    v.insert(i, f);
    assert(flaw_views(v@) =~= s.insert(i as int, added));
}

/// Byte ranges of every ERROR or MISSING node. The first rung is exactly this being empty.
pub fn syntax_errors(tree: &Vec<SyntaxNode>) -> (r: Vec<Flaw>)
    ensures
        flaw_views(r@) == flaws(syns(tree@)),
{
    let ghost t = syns(tree@);
    let mut out: Vec<Flaw> = Vec::new();
    let mut i: usize = 0;
    assert(flaw_views(out@) =~= Seq::<FlawView>::empty());
    while i < tree.len()
        invariant
            i <= tree@.len(),
            t == syns(tree@),
            flaws_from(t, i as int, flaw_views(out@)) == flaws(t),
        decreases tree@.len() - i,
    {
        let n = &tree[i];
        assert(t[i as int] == n@);
        if n.error {
            place_flaw(&mut out, (n.start, n.end, "syntax error".to_owned()));
            i = skip_subtree(tree, i);
        } else if n.missing {
            let mut what = "missing ".to_owned();
            what.push_str(n.kind.as_str());
            place_flaw(&mut out, (n.start, n.end, what));
            i = skip_subtree(tree, i);
        } else if n.faulty {
            i = i + 1;
        } else {
            i = skip_subtree(tree, i);
        }
    }
    out
}

proof fn lemma_above_jumps(t: Seq<Syn>, k: int, depth: int)
    requires
        0 <= k < t.len(),
        t[k].depth >= depth,
    ensures
        above(t, k, depth) == above(t, parent(t, k), depth),
{
    lemma_above(t, k - 1, t[k].depth);
    lemma_above_over(t, k, parent(t, k), depth);
}

proof fn lemma_above_over(t: Seq<Syn>, j: int, p: int, depth: int)
    requires
        -1 <= p <= j < t.len(),
        forall|k: int| p < k <= j ==> (#[trigger] t[k]).depth >= depth,
    ensures
        above(t, j, depth) == above(t, p, depth),
    decreases j - p,
{
    if j > p {
        lemma_above_over(t, j - 1, p, depth);
    }
}

/// A position as the position of a parent: -1 for none.
pub open spec fn place(p: Option<usize>) -> int {
    match p {
        Some(i) => i as int,
        None => -1,
    }
}

/// The parent of every node.
pub fn parents(t: &Vec<SyntaxNode>) -> (r: Vec<Option<usize>>)
    ensures
        r@.len() == t@.len(),
        forall|i: int| 0 <= i < r@.len() ==> place(#[trigger] r@[i]) == parent(syns(t@), i),
        forall|i: int| 0 <= i < r@.len() ==> place(#[trigger] r@[i]) < i,
{
    let ghost all = syns(t@);
    let mut out: Vec<Option<usize>> = Vec::new();
    let mut i: usize = 0;
    while i < t.len()
        invariant
            i <= t@.len(),
            all == syns(t@),
            out@.len() == i,
            forall|k: int| 0 <= k < i ==> place(#[trigger] out@[k]) == parent(all, k),
            forall|k: int| 0 <= k < i ==> place(#[trigger] out@[k]) < k,
        decreases t@.len() - i,
    {
        let depth: usize = t[i].depth;
        assert(all[i as int] == t@[i as int]@);
        let mut p: Option<usize> = if i > 0 {
            Some(i - 1)
        } else {
            None
        };
        let mut left: usize = i;
        let mut looking = true;
        while looking
            invariant
                i < t@.len(),
                all == syns(t@),
                out@.len() == i,
                depth == all[i as int].depth,
                forall|k: int| 0 <= k < i ==> place(#[trigger] out@[k]) == parent(all, k),
                forall|k: int| 0 <= k < i ==> place(#[trigger] out@[k]) < k,
                place(p) < left <= i,
                parent(all, i as int) == above(all, place(p), depth as int),
                !looking ==> place(p) == parent(all, i as int),
            decreases left + (if looking {
                1int
            } else {
                0int
            }),
        {
            match p {
                None => {
                    looking = false;
                },
                Some(k) => {
                    assert(all[k as int] == t@[k as int]@);
                    if t[k].depth < depth {
                        looking = false;
                    } else {
                        proof {
                            lemma_above_jumps(all, k as int, depth as int);
                            lemma_above(all, k - 1, all[k as int].depth);
                        }
                        left = k;
                        p = out[k];
                    }
                },
            }
        }
        out.push(p);
        i += 1;
    }
    out
}

} // verus!
