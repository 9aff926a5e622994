//! Entity extraction: bytes in, named entities with stable ids out.
//!
//! Ids look like `fn:Parser::parse_header`, `struct:Header`, `test:tests::parses_a_header`. They are
//! built from names and enclosing scopes, never from offsets or ordinals, because every cached
//! thing downstream is keyed on them.
//!
//! Reference edges are a syntactic approximation: an identifier inside an entity's body that is
//! another entity's simple name counts as a reference. Over-linking is safe for impact analysis,
//! under-linking is not.

use crate::adapter::copy_opt;
use crate::adapter::entity_views;
use crate::adapter::least;
use crate::adapter::AdapterError;
use crate::adapter::Artifact;
use crate::adapter::Entity;
use crate::adapter::EntityView;
use crate::adapter::Outline;
use crate::adapter::OutlineView;
use crate::code::lang::imports;
use crate::code::lang::kind_for;
use crate::code::lang::scope_field;
use crate::code::lang::Lang;
use crate::code::lang::LangSpec;
use crate::code::syntax::find_sibling_before;
use crate::code::syntax::lemma_above;
use crate::code::syntax::lemma_below;
use crate::code::syntax::no_tree;
use crate::code::syntax::parent;
use crate::code::syntax::parents;
use crate::code::syntax::parse;
use crate::code::syntax::place;
use crate::code::syntax::sibling_before;
use crate::code::syntax::skip_subtree;
use crate::code::syntax::span_of;
use crate::code::syntax::subtree_end;
use crate::code::syntax::syns;
use crate::code::syntax::tree_of;
use crate::code::syntax::Range;
use crate::code::syntax::Syn;
use crate::code::syntax::SyntaxNode;
use crate::names::ascending;
use crate::names::before;
use crate::names::is_before;
use crate::names::lemma_listed;
use crate::names::listed;
use crate::names::mentions;
use crate::text::begins;
use crate::text::contains;
use crate::text::ends;
use crate::text::ends_with;
use crate::text::from_chars;
use crate::text::has_text;
use crate::text::join;
use crate::text::join_of;
use crate::text::lines;
use crate::text::lines_of;
use crate::text::same;
use crate::text::starts_with;
use crate::text::texts;
use crate::text::to_chars;
use crate::text::trim;
use crate::text::trim_of;
use crate::utf8::from_utf8;
use crate::wording::after_first;
use crate::wording::after_sep;
use crate::wording::identifiers;
use crate::wording::tail_after_first;
use crate::wording::tail_after_sep;
use crate::wording::words_of;
use vstd::prelude::*;
use vstd::utf8::decode_utf8;
use vstd::utf8::valid_utf8;

verus! {

/// The text of a range of bytes, where it is one and holds text; else nothing.
pub open spec fn read_of(src: Seq<u8>, a: int, b: int) -> Seq<char> {
    if 0 <= a <= b <= src.len() && valid_utf8(src.subrange(a, b)) {
        decode_utf8(src.subrange(a, b))
    } else {
        Seq::empty()
    }
}

/// The text of a range of bytes, as far as the bytes reach.
pub open spec fn read_within(src: Seq<u8>, a: int, b: int) -> Seq<char> {
    read_of(src, least(a, src.len() as int), least(b, src.len() as int))
}

/// The text of a range of bytes, where it is one and holds text; else nothing.
pub fn read(src: &[u8], a: usize, b: usize) -> (r: String)
    ensures
        r@ == read_of(src@, a as int, b as int),
{
    if a <= b && b <= src.len() {
        let part = vstd::slice::slice_subrange(src, a, b);
        assert(part@ == src@.subrange(a as int, b as int));
        match from_utf8(part) {
            Some(s) => s,
            None => {
                let none = String::new();
                assert(none@ =~= read_of(src@, a as int, b as int));
                none
            },
        }
    } else {
        let none = String::new();
        assert(none@ =~= read_of(src@, a as int, b as int));
        none
    }
}

/// The text of a range of bytes, as far as the bytes reach.
pub fn read_clamped(src: &[u8], a: usize, b: usize) -> (r: String)
    ensures
        r@ == read_within(src@, a as int, b as int),
{
    let n: usize = src.len();
    read(src, if a < n { a } else { n }, if b < n { b } else { n })
}

/// What stands in a field of a node, trimmed.
pub open spec fn name_in(src: Seq<u8>, span: Option<(int, int)>) -> Option<Seq<char>> {
    match span {
        Some((a, b)) => Some(trim_of(read_of(src, a, b))),
        None => None,
    }
}

fn name_at(src: &[u8], range: Range) -> (r: Option<String>)
    ensures
        r is Some <==> name_in(src@, span_of(range)) is Some,
        r matches Some(s) ==> name_in(src@, span_of(range)) == Some(s@),
{
    match range {
        Some((a, b)) => {
            let t = read(src, a, b);
            Some(trim(t.as_str()))
        },
        None => None,
    }
}

/// The name of the scope that a node opens, where it opens one.
///
/// A trait impl carries the trait in the scope name: `impl Debug for Digest` and
/// `impl Display for Digest` both define `fmt`, so scoping on the type alone would give two
/// functions the same id.
pub open spec fn scope_opened(lang: Lang, src: Seq<u8>, n: Syn) -> Option<Seq<char>> {
    match scope_field(lang, n.kind) {
        None => None,
        Some(f) => if n.kind == "impl_item"@ {
            match name_in(src, n.of_type) {
                None => None,
                Some(ty) => match name_in(src, n.of_trait) {
                    Some(tr) => Some("<"@ + ty + " as "@ + tr + ">"@),
                    None => Some(ty),
                },
            }
        } else {
            name_in(src, n.name)
        },
    }
}

fn open_scope(spec: &LangSpec, src: &[u8], n: &SyntaxNode) -> (r: Option<String>)
    ensures
        r is Some <==> scope_opened(spec.lang, src@, n@) is Some,
        r matches Some(s) ==> scope_opened(spec.lang, src@, n@) == Some(s@),
{
    if spec.container_name_field(n.kind.as_str()).is_none() {
        return None;
    }
    if same(n.kind.as_str(), "impl_item") {
        match name_at(src, n.of_type) {
            None => None,
            Some(ty) => match name_at(src, n.of_trait) {
                Some(tr) => {
                    let mut s = "<".to_owned();
                    s.push_str(ty.as_str());
                    s.push_str(" as ");
                    s.push_str(tr.as_str());
                    s.push_str(">");
                    Some(s)
                },
                None => Some(ty),
            },
        }
    } else {
        name_at(src, n.name)
    }
}

/// The names of the scopes that node `i` stands in, outermost first. The root opens none.
pub open spec fn scope_of(lang: Lang, src: Seq<u8>, t: Seq<Syn>, i: int) -> Seq<Seq<char>>
    decreases i,
    via scope_of_decreases
{
    if i <= 0 || i >= t.len() {
        Seq::empty()
    } else {
        let p = parent(t, i);
        if p <= 0 {
            Seq::empty()
        } else {
            let outer = scope_of(lang, src, t, p);
            match scope_opened(lang, src, t[p]) {
                Some(name) => outer.push(name),
                None => outer,
            }
        }
    }
}

#[via_fn]
proof fn scope_of_decreases(lang: Lang, src: Seq<u8>, t: Seq<Syn>, i: int) {
    if 0 < i < t.len() {
        lemma_above(t, i - 1, t[i].depth);
    }
}

fn find_scope(
    spec: &LangSpec,
    src: &[u8],
    t: &Vec<SyntaxNode>,
    up: &Vec<Option<usize>>,
    i: usize,
) -> (r: Vec<String>)
    requires
        i < t@.len(),
        up@.len() == t@.len(),
        forall|k: int| 0 <= k < up@.len() ==> place(#[trigger] up@[k]) == parent(syns(t@), k),
        forall|k: int| 0 <= k < up@.len() ==> place(#[trigger] up@[k]) < k,
    ensures
        texts(r@) == scope_of(spec.lang, src@, syns(t@), i as int),
    decreases i,
{
    let none: Vec<String> = Vec::new();
    assert(texts(none@) =~= Seq::<Seq<char>>::empty());
    if i == 0 {
        return none;
    }
    assert(place(up@[i as int]) == parent(syns(t@), i as int));
    match up[i] {
        None => none,
        Some(p) => {
            if p == 0 {
                return none;
            }
            let mut out = find_scope(spec, src, t, up, p);
            assert(syns(t@)[p as int] == t@[p as int]@);
            let ghost outer = texts(out@);
            match open_scope(spec, src, &t[p]) {
                Some(name) => {
                    out.push(name);
                    assert(texts(out@) =~= outer.push(name@));
                },
                None => {},
            }
            out
        },
    }
}

/// Where the brackets of an attribute open: behind the first `[`.
pub open spec fn brackets_open(s: Seq<char>, i: int) -> int
    decreases s.len() - i,
{
    if i < 0 || s.len() <= i {
        s.len() as int
    } else if s[i] == '[' {
        i + 1
    } else {
        brackets_open(s, i + 1)
    }
}

/// Where the name of an attribute that is being read ends: before its arguments, its value or the
/// bracket that closes it.
pub open spec fn name_end(s: Seq<char>, i: int) -> int
    decreases s.len() - i,
{
    if i < 0 || s.len() <= i || "([{=]"@.contains(s[i]) {
        i
    } else {
        name_end(s, i + 1)
    }
}

/// Where the condition of a `cfg_attr` ends: at the first comma that stands in no bracket of the
/// condition's own.
pub open spec fn condition_end(s: Seq<char>, i: int, depth: int) -> int
    decreases s.len() - i,
{
    if i < 0 || s.len() <= i || (s[i] == ',' && depth == 1) {
        i
    } else if s[i] == '(' {
        condition_end(s, i + 1, depth + 1)
    } else if s[i] == ')' {
        condition_end(s, i + 1, depth - 1)
    } else {
        condition_end(s, i + 1, depth)
    }
}

/// Does an attribute mark a test? Its name holds `test`, as in `#[tokio::test]` or `#[rstest]`, or
/// it is a `cfg_attr` that puts on one that does. A `cfg` says when an item is built, and marks
/// none.
pub open spec fn marks_test(s: Seq<char>) -> bool {
    let from = brackets_open(s, 0);
    let to = name_end(s, from);
    let name = s.subrange(from, to);
    has_text(name, "test"@) || (trim_of(name) == "cfg_attr"@ && has_text(
        s.skip(condition_end(s, to, 0)),
        "test"@,
    ))
}

fn is_test_mark(text: &str) -> (r: bool)
    ensures
        r == marks_test(text@),
{
    let v = to_chars(text);
    let n = v.len();
    let mut from: usize = 0;
    while from < n && v[from] != '['
        invariant
            from <= n == v@.len(),
            v@ == text@,
            brackets_open(text@, 0) == brackets_open(text@, from as int),
        decreases n - from,
    {
        from += 1;
    }
    if from < n {
        from += 1;
    }
    proof {
        reveal_strlit("([{=]");
    }
    let mut to: usize = from;
    while to < n && v[to] != '(' && v[to] != '[' && v[to] != '{' && v[to] != '=' && v[to] != ']'
        invariant
            from <= to <= n == v@.len(),
            v@ == text@,
            "([{=]"@ == seq!['(', '[', '{', '=', ']'],
            name_end(text@, from as int) == name_end(text@, to as int),
        decreases n - to,
    {
        to += 1;
    }
    proof {
        if to < n {
            let k = if v@[to as int] == '(' {
                0int
            } else if v@[to as int] == '[' {
                1
            } else if v@[to as int] == '{' {
                2
            } else if v@[to as int] == '=' {
                3
            } else {
                4
            };
            assert("([{=]"@[k] == v@[to as int]);
        }
    }
    let name = from_chars(vstd::slice::slice_subrange(v.as_slice(), from, to));
    if contains(name.as_str(), "test") {
        return true;
    }
    if !same(trim(name.as_str()).as_str(), "cfg_attr") {
        return false;
    }
    let mut i: usize = to;
    let mut depth: i128 = 0;
    while i < n && !(v[i] == ',' && depth == 1)
        invariant
            to <= i <= n == v@.len(),
            v@ == text@,
            -(i as int) <= depth <= i,
            condition_end(text@, to as int, 0) == condition_end(text@, i as int, depth as int),
        decreases n - i,
    {
        if v[i] == '(' {
            depth += 1;
        } else if v[i] == ')' {
            depth -= 1;
        }
        i += 1;
    }
    let rest = from_chars(vstd::slice::slice_subrange(v.as_slice(), i, n));
    assert(rest@ =~= text@.skip(i as int));
    contains(rest.as_str(), "test")
}

/// Is there a test attribute on node `j` or, past comments and other attributes, shortly before it?
/// Attributes are siblings before the item in rust's grammar.
pub open spec fn test_attribute(src: Seq<u8>, t: Seq<Syn>, j: int, hops: nat) -> bool
    decreases 5 - hops,
{
    if j < 0 || hops > 4 {
        false
    } else if t[j].kind == "attribute_item"@ {
        marks_test(read_of(src, t[j].start, t[j].end)) || test_attribute(
            src,
            t,
            sibling_before(t, j),
            hops + 1,
        )
    } else if t[j].kind == "line_comment"@ || t[j].kind == "block_comment"@ {
        test_attribute(src, t, sibling_before(t, j), hops + 1)
    } else {
        false
    }
}

/// Is node `i`, with this simple name in this scope, a test?
pub open spec fn is_test(
    lang: Lang,
    src: Seq<u8>,
    t: Seq<Syn>,
    i: int,
    simple: Seq<char>,
    scope: Seq<Seq<char>>,
) -> bool {
    if scope.contains("tests"@) || scope.contains("test"@) {
        true
    } else {
        match lang {
            Lang::Rust => test_attribute(src, t, sibling_before(t, i), 0),
            Lang::Python => begins(simple, "test_"@),
            Lang::TypeScript => begins(simple, "test"@) || ends(simple, "Test"@),
        }
    }
}

fn has_test_attribute(src: &[u8], t: &Vec<SyntaxNode>, i: usize) -> (r: bool)
    requires
        i < t@.len(),
    ensures
        r == test_attribute(src@, syns(t@), sibling_before(syns(t@), i as int), 0),
{
    let ghost all = syns(t@);
    let mut sib: Option<usize> = find_sibling_before(t, i);
    let mut hops: usize = 0;
    while hops <= 4
        invariant
            all == syns(t@),
            hops <= 5,
            sib matches Some(j) ==> j < t@.len(),
            test_attribute(src@, all, sibling_before(all, i as int), 0) == test_attribute(
                src@,
                all,
                place(sib),
                hops as nat,
            ),
        decreases 5 - hops,
    {
        match sib {
            None => {
                return false;
            },
            Some(j) => {
                assert(all[j as int] == t@[j as int]@);
                let kind = t[j].kind.as_str();
                if same(kind, "attribute_item") {
                    let text = read(src, t[j].start, t[j].end);
                    if is_test_mark(text.as_str()) {
                        return true;
                    }
                } else if !same(kind, "line_comment") && !same(kind, "block_comment") {
                    return false;
                }
                sib = find_sibling_before(t, j);
                hops += 1;
            },
        }
    }
    false
}

fn check_test(
    spec: &LangSpec,
    src: &[u8],
    t: &Vec<SyntaxNode>,
    i: usize,
    simple: &str,
    scope: &Vec<String>,
) -> (r: bool)
    requires
        i < t@.len(),
    ensures
        r == is_test(spec.lang, src@, syns(t@), i as int, simple@, texts(scope@)),
{
    if mentions(scope, "tests") || mentions(scope, "test") {
        return true;
    }
    match spec.lang {
        Lang::Rust => has_test_attribute(src, t, i),
        Lang::Python => starts_with(simple, "test_"),
        Lang::TypeScript => starts_with(simple, "test") || ends_with(simple, "Test"),
    }
}

/// A name within its scopes.
pub open spec fn qualified(scope: Seq<Seq<char>>, sep: Seq<char>, simple: Seq<char>) -> Seq<char> {
    if scope.len() == 0 {
        simple
    } else {
        join_of(scope, sep) + sep + simple
    }
}

/// A text on one line.
pub open spec fn one_line(s: Seq<char>) -> Seq<char> {
    trim_of(join_of(lines_of(trim_of(s)), " "@))
}

/// The entity that node `i` defines, where it defines one, without its references.
pub open spec fn entity_at(lang: Lang, sep: Seq<char>, src: Seq<u8>, t: Seq<Syn>, i: int) -> Option<
    EntityView,
> {
    let n = t[i];
    match kind_for(lang, n.kind) {
        None => None,
        Some(k) => match name_in(src, n.name) {
            None => None,
            Some(simple) => {
                let scope = scope_of(lang, src, t, i);
                let kind = if k == "fn"@ && is_test(lang, src, t, i, simple, scope) {
                    "test"@
                } else {
                    k
                };
                let sig_end = match n.body {
                    Some((a, _)) => a,
                    None => n.end,
                };
                Some(
                    EntityView {
                        id: kind + ":"@ + qualified(scope, sep, simple),
                        kind,
                        start: n.start,
                        end: n.end,
                        body: n.body,
                        signature: Some(
                            one_line(read_of(src, n.start, least(sig_end, src.len() as int))),
                        ),
                        refs: Seq::empty(),
                        parent: if scope.len() == 0 {
                            None
                        } else {
                            Some(join_of(scope, sep))
                        },
                    },
                )
            },
        },
    }
}

fn make_entity(
    spec: &LangSpec,
    src: &[u8],
    t: &Vec<SyntaxNode>,
    up: &Vec<Option<usize>>,
    i: usize,
) -> (r: Option<Entity>)
    requires
        i < t@.len(),
        up@.len() == t@.len(),
        forall|k: int| 0 <= k < up@.len() ==> place(#[trigger] up@[k]) == parent(syns(t@), k),
        forall|k: int| 0 <= k < up@.len() ==> place(#[trigger] up@[k]) < k,
    ensures
        r is Some <==> entity_at(spec.lang, spec.sep@, src@, syns(t@), i as int) is Some,
        r matches Some(e) ==> entity_at(spec.lang, spec.sep@, src@, syns(t@), i as int) == Some(e@),
{
    let n = &t[i];
    assert(syns(t@)[i as int] == n@);
    let k = match spec.entity_kind(n.kind.as_str()) {
        Some(k) => k,
        None => {
            return None;
        },
    };
    let simple = match name_at(src, n.name) {
        Some(s) => s,
        None => {
            return None;
        },
    };
    let scope = find_scope(spec, src, t, up, i);
    assert(texts(scope@).len() == scope@.len());
    let kind = if same(k, "fn") && check_test(spec, src, t, i, simple.as_str(), &scope) {
        "test"
    } else {
        k
    };
    let inside = join(&scope, spec.sep);
    let mut id = kind.to_owned();
    id.push_str(":");
    let mut parent: Option<String> = None;
    if scope.len() == 0 {
        id.push_str(simple.as_str());
    } else {
        let mut q = inside.clone();
        q.push_str(spec.sep);
        q.push_str(simple.as_str());
        id.push_str(q.as_str());
        parent = Some(inside);
    }
    let sig_end: usize = match n.body {
        Some((a, _)) => a,
        None => n.end,
    };
    let len: usize = src.len();
    let raw = read(src, n.start, if sig_end < len { sig_end } else { len });
    let raw = trim(raw.as_str());
    let all = lines(raw.as_str());
    let flat = join(&all, " ");
    let refs: Vec<String> = Vec::new();
    assert(texts(refs@) =~= Seq::<Seq<char>>::empty());
    Some(
        Entity {
            id,
            kind: kind.to_owned(),
            start: n.start,
            end: n.end,
            body: n.body,
            signature: Some(trim(flat.as_str())),
            refs,
            parent,
        },
    )
}

/// The entities that the nodes before `n` define, in the order of the nodes. The root defines none.
pub open spec fn defined(
    lang: Lang,
    sep: Seq<char>,
    src: Seq<u8>,
    t: Seq<Syn>,
    n: int,
) -> Seq<EntityView>
    decreases n,
{
    if n <= 1 {
        Seq::empty()
    } else {
        let rest = defined(lang, sep, src, t, n - 1);
        match entity_at(lang, sep, src, t, n - 1) {
            Some(e) => rest.push(e),
            None => rest,
        }
    }
}

/// The import that a node is.
pub open spec fn import_of(src: Seq<u8>, n: Syn) -> EntityView {
    let text = trim_of(read_of(src, n.start, n.end));
    EntityView {
        id: "import:"@ + text,
        kind: "import"@,
        start: n.start,
        end: n.end,
        body: None,
        signature: Some(text),
        refs: Seq::empty(),
        parent: None,
    }
}

/// The imports among the nodes from `i` on, after those found so far.
pub open spec fn imports_from(
    lang: Lang,
    src: Seq<u8>,
    t: Seq<Syn>,
    i: int,
    sofar: Seq<EntityView>,
) -> Seq<EntityView>
    decreases t.len() - i,
    via imports_from_decreases
{
    if i < 0 || i >= t.len() {
        sofar
    } else if imports(lang, t[i].kind) {
        imports_from(lang, src, t, subtree_end(t, i), sofar.push(import_of(src, t[i])))
    } else {
        imports_from(lang, src, t, i + 1, sofar)
    }
}

#[via_fn]
proof fn imports_from_decreases(
    lang: Lang,
    src: Seq<u8>,
    t: Seq<Syn>,
    i: int,
    sofar: Seq<EntityView>,
) {
    if 0 <= i < t.len() {
        lemma_below(t, i + 1, t[i].depth);
    }
}

/// The part of an id that other code spells: what follows the kind and the scopes.
pub open spec fn simple_of(id: Seq<char>, sep: Seq<char>) -> Seq<char> {
    after_sep(after_first(id, ':'), sep)
}

/// The part of an id that other code spells.
pub fn simple_name(id: &str, sep: &str) -> (r: String)
    ensures
        r@ == simple_of(id@, sep@),
{
    let q = tail_after_first(id, ':');
    tail_after_sep(q.as_str(), sep)
}

/// The text in which an entity's references stand: its body, or all of it where it has none.
pub open spec fn body_text(src: Seq<u8>, e: EntityView) -> Seq<char> {
    match e.body {
        Some((a, b)) => read_within(src, a, b),
        None => read_within(src, e.start, e.end),
    }
}

/// Does one entity spell another's name in its body? An import neither is a definition nor is
/// linked to, and nothing refers to itself.
pub open spec fn links(src: Seq<u8>, sep: Seq<char>, e: EntityView, to: EntityView) -> bool {
    to.kind != "import"@ && to.id != e.id && words_of(body_text(src, e)).contains(
        simple_of(to.id, sep),
    )
}

/// The ids that an entity refers to. A name that is defined twice links to both.
pub open spec fn linked_ids(
    src: Seq<u8>,
    sep: Seq<char>,
    e: EntityView,
    all: Seq<EntityView>,
) -> Set<Seq<char>> {
    Set::new(
        |x: Seq<char>|
            exists|k: int|
                0 <= k < all.len() && (#[trigger] all[k]).id == x && links(src, sep, e, all[k]),
    )
}

/// An entity with its references.
pub open spec fn linked(
    src: Seq<u8>,
    sep: Seq<char>,
    e: EntityView,
    all: Seq<EntityView>,
) -> EntityView {
    EntityView { refs: listed(linked_ids(src, sep, e, all)), ..e }
}

/// Does one entity come strictly before another, by where it starts and then by its id?
pub open spec fn sooner(a: EntityView, b: EntityView) -> bool {
    a.start < b.start || (a.start == b.start && before(a.id, b.id))
}

/// A list with one more entity, placed before the first that comes after it.
pub open spec fn filed(s: Seq<EntityView>, e: EntityView) -> Seq<EntityView>
    decreases s.len(),
{
    if s.len() == 0 || sooner(e, s[0]) {
        seq![e] + s
    } else {
        seq![s[0]] + filed(s.skip(1), e)
    }
}

/// The first `n` entities of a list, each with its references, in the order in which they are
/// defined in the file.
pub open spec fn sorted(src: Seq<u8>, sep: Seq<char>, all: Seq<EntityView>, n: int) -> Seq<
    EntityView,
>
    decreases n,
{
    if n <= 0 {
        Seq::empty()
    } else {
        filed(sorted(src, sep, all, n - 1), linked(src, sep, all[n - 1], all))
    }
}

/// The definitions and imports of a tree.
pub open spec fn gathered(lang: Lang, sep: Seq<char>, src: Seq<u8>, t: Seq<Syn>) -> Seq<EntityView> {
    imports_from(lang, src, t, 0, defined(lang, sep, src, t, t.len() as int))
}

/// The entities of a tree: its definitions and imports, linked and in order.
pub open spec fn symbols_of(lang: Lang, sep: Seq<char>, src: Seq<u8>, t: Seq<Syn>) -> Seq<
    EntityView,
> {
    let all = gathered(lang, sep, src, t);
    sorted(src, sep, all, all.len() as int)
}

proof fn lemma_filed(s: Seq<EntityView>, e: EntityView, i: int)
    requires
        0 <= i <= s.len(),
        forall|k: int| 0 <= k < i ==> !sooner(e, #[trigger] s[k]),
        i < s.len() ==> sooner(e, s[i]),
    ensures
        filed(s, e) == s.insert(i, e),
    decreases s.len(),
{
    if i == 0 {
        assert(s.insert(0, e) =~= seq![e] + s);
    } else {
        assert(!sooner(e, s[0]));
        let t = s.skip(1);
        assert forall|k: int| 0 <= k < i - 1 implies !sooner(e, #[trigger] t[k]) by {
            assert(t[k] == s[k + 1]);
        }
        lemma_filed(t, e, i - 1);
        assert(s.insert(i, e) =~= seq![s[0]] + t.insert(i - 1, e));
    }
}

fn is_sooner(a: &Entity, b: &Entity) -> (r: bool)
    ensures
        r == sooner(a@, b@),
{
    a.start < b.start || (a.start == b.start && is_before(a.id.as_str(), b.id.as_str()))
}

fn file(v: &mut Vec<Entity>, e: Entity)
    ensures
        entity_views(final(v)@) == filed(entity_views(old(v)@), e@),
{
    let ghost s = entity_views(v@);
    let mut i: usize = 0;
    while i < v.len() && !is_sooner(&e, &v[i])
        invariant
            i <= v@.len(),
            s == entity_views(v@),
            forall|k: int| 0 <= k < i ==> !sooner(e@, #[trigger] s[k]),
        decreases v@.len() - i,
    {
        i += 1;
    }
    proof {
        lemma_filed(s, e@, i as int);
    }
    let ghost added = e@;
    v.insert(i, e);
    assert(entity_views(v@) =~= s.insert(i as int, added));
}

fn gather(spec: &LangSpec, src: &[u8], t: &Vec<SyntaxNode>) -> (r: Vec<Entity>)
    ensures
        entity_views(r@) == gathered(spec.lang, spec.sep@, src@, syns(t@)),
{
    let ghost all = syns(t@);
    let up = parents(t);
    let mut out: Vec<Entity> = Vec::new();
    let mut i: usize = 1;
    assert(entity_views(out@) =~= Seq::<EntityView>::empty());
    while i < t.len()
        invariant
            1 <= i,
            i <= t@.len() || i == 1,
            all == syns(t@),
            up@.len() == t@.len(),
            forall|k: int| 0 <= k < up@.len() ==> place(#[trigger] up@[k]) == parent(all, k),
            forall|k: int| 0 <= k < up@.len() ==> place(#[trigger] up@[k]) < k,
            entity_views(out@) == defined(spec.lang, spec.sep@, src@, all, i as int),
        decreases t@.len() - i,
    {
        let ghost sofar = entity_views(out@);
        match make_entity(spec, src, t, &up, i) {
            Some(e) => {
                out.push(e);
                assert(entity_views(out@) =~= sofar.push(e@));
            },
            None => {},
        }
        i += 1;
    }
    assert(entity_views(out@) == defined(spec.lang, spec.sep@, src@, all, all.len() as int)) by {
        if t@.len() == 0 {
            assert(entity_views(out@) =~= defined(spec.lang, spec.sep@, src@, all, 0));
        }
    }
    let mut i: usize = 0;
    while i < t.len()
        invariant
            i <= t@.len(),
            all == syns(t@),
            imports_from(spec.lang, src@, all, i as int, entity_views(out@)) == gathered(
                spec.lang,
                spec.sep@,
                src@,
                all,
            ),
        decreases t@.len() - i,
    {
        let n = &t[i];
        assert(all[i as int] == n@);
        if spec.is_import(n.kind.as_str()) {
            let raw = read(src, n.start, n.end);
            let text = trim(raw.as_str());
            let mut id = "import:".to_owned();
            id.push_str(text.as_str());
            let refs: Vec<String> = Vec::new();
            assert(texts(refs@) =~= Seq::<Seq<char>>::empty());
            let e = Entity {
                id,
                kind: "import".to_owned(),
                start: n.start,
                end: n.end,
                body: None,
                signature: Some(text),
                refs,
                parent: None,
            };
            let ghost sofar = entity_views(out@);
            out.push(e);
            assert(e@ =~= import_of(src@, n@));
            assert(entity_views(out@) =~= sofar.push(e@));
            i = skip_subtree(t, i);
        } else {
            i += 1;
        }
    }
    out
}

/// The ids that an entity refers to, in ascending order.
fn find_refs(src: &[u8], sep: &str, e: &Entity, all: &Vec<Entity>, simples: &Vec<String>) -> (r: Vec<
    String,
>)
    requires
        simples@.len() == all@.len(),
        forall|k: int|
            0 <= k < all@.len() ==> (#[trigger] simples@[k])@ == simple_of(all@[k].id@, sep@),
    ensures
        texts(r@) == listed(linked_ids(src@, sep@, e@, entity_views(all@))),
{
    let text = match e.body {
        Some((a, b)) => read_clamped(src, a, b),
        None => read_clamped(src, e.start, e.end),
    };
    let found = identifiers(text.as_str());
    let ghost set = linked_ids(src@, sep@, e@, entity_views(all@));
    let ghost views = entity_views(all@);
    let mut out: Vec<String> = Vec::new();
    let mut i: usize = 0;
    assert(texts(out@) =~= Seq::<Seq<char>>::empty());
    while i < all.len()
        invariant
            i <= all@.len(),
            views == entity_views(all@),
            text@ == body_text(src@, e@),
            texts(found@) == words_of(text@),
            simples@.len() == all@.len(),
            forall|k: int|
                0 <= k < all@.len() ==> (#[trigger] simples@[k])@ == simple_of(all@[k].id@, sep@),
            ascending(texts(out@)),
            forall|x: Seq<char>| #[trigger]
                texts(out@).contains(x) <==> exists|k: int|
                    0 <= k < i && (#[trigger] views[k]).id == x && links(
                        src@,
                        sep@,
                        e@,
                        views[k],
                    ),
        decreases all@.len() - i,
    {
        let to = &all[i];
        assert(views[i as int] == to@);
        assert(simples@[i as int]@ == simple_of(all@[i as int].id@, sep@));
        let ghost sofar = texts(out@);
        if !same(to.kind.as_str(), "import") && !same(to.id.as_str(), e.id.as_str()) && mentions(
            &found,
            simples[i].as_str(),
        ) {
            crate::names::insert(&mut out, to.id.clone());
            assert(links(src@, sep@, e@, views[i as int]));
        }
        proof {
            assert forall|x: Seq<char>| #[trigger]
                texts(out@).contains(x) implies exists|k: int|
                0 <= k < i + 1 && (#[trigger] views[k]).id == x && links(
                    src@,
                    sep@,
                    e@,
                    views[k],
                ) by {
                if !sofar.contains(x) {
                    assert(views[i as int].id == x);
                }
            }
            assert forall|x: Seq<char>|
                (exists|k: int|
                    0 <= k < i + 1 && (#[trigger] views[k]).id == x && links(
                        src@,
                        sep@,
                        e@,
                        views[k],
                    )) implies #[trigger] texts(out@).contains(x) by {
                let k = choose|k: int|
                    0 <= k < i + 1 && (#[trigger] views[k]).id == x && links(
                        src@,
                        sep@,
                        e@,
                        views[k],
                    );
                if k < i {
                    assert(sofar.contains(x));
                }
            }
        }
        i += 1;
    }
    proof {
        assert forall|x: Seq<char>| #[trigger] texts(out@).contains(x) <==> set.contains(x) by {}
        lemma_listed(texts(out@), set);
    }
    out
}

/// The entities of a syntax tree: its definitions and imports, linked and in the order in which
/// they are defined in the file.
pub fn extract(spec: &LangSpec, src: &[u8], t: &Vec<SyntaxNode>) -> (r: Vec<Entity>)
    ensures
        entity_views(r@) == symbols_of(spec.lang, spec.sep@, src@, syns(t@)),
{
    let all = gather(spec, src, t);
    let ghost views = entity_views(all@);
    let mut simples: Vec<String> = Vec::new();
    let mut i: usize = 0;
    while i < all.len()
        invariant
            i <= all@.len(),
            simples@.len() == i,
            forall|k: int|
                0 <= k < i ==> (#[trigger] simples@[k])@ == simple_of(all@[k].id@, spec.sep@),
        decreases all@.len() - i,
    {
        simples.push(simple_name(all[i].id.as_str(), spec.sep));
        i += 1;
    }
    let mut out: Vec<Entity> = Vec::new();
    let mut i: usize = 0;
    assert(entity_views(out@) =~= Seq::<EntityView>::empty());
    while i < all.len()
        invariant
            i <= all@.len(),
            views == entity_views(all@),
            simples@.len() == all@.len(),
            forall|k: int|
                0 <= k < all@.len() ==> (#[trigger] simples@[k])@ == simple_of(
                    all@[k].id@,
                    spec.sep@,
                ),
            entity_views(out@) == sorted(src@, spec.sep@, views, i as int),
        decreases all@.len() - i,
    {
        let e = &all[i];
        assert(views[i as int] == e@);
        let refs = find_refs(src, spec.sep, e, &all, &simples);
        let done = Entity {
            id: e.id.clone(),
            kind: e.kind.clone(),
            start: e.start,
            end: e.end,
            body: e.body,
            signature: copy_opt(&e.signature),
            refs,
            parent: copy_opt(&e.parent),
        };
        assert(done@ =~= linked(src@, spec.sep@, e@, views));
        file(&mut out, done);
        i += 1;
    }
    assert(views.len() == all@.len());
    out
}

/// The outline of a file, where its grammar makes a tree of it.
pub open spec fn outline_of(lang: Lang, sep: Seq<char>, path: Seq<char>, bytes: Seq<u8>) -> Option<
    OutlineView,
> {
    match tree_of(lang, bytes) {
        Some(t) => Some(OutlineView { path, entities: symbols_of(lang, sep, bytes, t) }),
        None => None,
    }
}

pub fn outline(spec: &LangSpec, artifact: &Artifact) -> (r: Result<Outline, AdapterError>)
    ensures
        match r {
            Ok(o) => outline_of(spec.lang, spec.sep@, artifact.path@, artifact.bytes@) == Some(o@),
            Err(e) => tree_of(spec.lang, artifact.bytes@) is None && no_tree(spec.name@, e@),
        },
{
    let tree = match parse(spec, artifact) {
        Ok(t) => t,
        Err(e) => {
            return Err(e);
        },
    };
    let entities = extract(spec, artifact.bytes.as_slice(), &tree);
    Ok(Outline { path: artifact.path.clone(), entities })
}

} // verus!
