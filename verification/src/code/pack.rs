//! Context packs for code.
//!
//! Deterministic assembly: the same inputs produce the same pack, because a pack is a node and its
//! hash is what makes the model call downstream of it cacheable.
//!
//! Minimality is the warm hit rate: a pack holds the target's own text, and signatures rather than
//! bodies for everything around it. A caller's body changing must not invalidate a pack that only
//! needed its signature.

use crate::adapter::entity_views;
use crate::adapter::fitted;
use crate::adapter::law_fitted_pack;
use crate::adapter::pack_size;
use crate::adapter::text_of;
use crate::adapter::unknown;
use crate::adapter::with_part;
use crate::adapter::AdapterError;
use crate::adapter::Artifact;
use crate::adapter::Entity;
use crate::adapter::EntityView;
use crate::adapter::Fault;
use crate::adapter::Outline;
use crate::adapter::OutlineView;
use crate::adapter::Pack;
use crate::adapter::PackRequest;
use crate::adapter::Part;
use crate::code::ops::clip;
use crate::code::symbols::read_clamped;
use crate::code::symbols::read_within;
use crate::names::mentions;
use crate::text::contains;
use crate::text::has_text;
use crate::text::join;
use crate::text::join_of;
use crate::text::lines;
use crate::text::lines_of;
use crate::text::same;
use crate::text::texts;
use crate::text::trim;
use crate::text::trim_of;
use crate::utf8::byte_len;
use crate::utf8::from_utf8_lossy;
use crate::utf8::lemma_encode_add;
use crate::utf8::len_in_bytes;
use crate::wording::after_first;
use crate::wording::after_last;
use crate::wording::tail_after_first;
use crate::wording::tail_after_last;
use vstd::prelude::*;
use vstd::utf8::encode_utf8;

verus! {

/// Roughly four characters per token. Used to turn token budgets into byte budgets without a
/// tokenizer the hash would then depend on.
pub const CHARS_PER_TOKEN: usize = 4;

pub const DEFAULT_BUDGET_CHARS: usize = 24_000;

pub const MAX_BUDGET_CHARS: usize = 48_000;

/// The last word of an id, past its kind and its scopes.
pub open spec fn last_word(id: Seq<char>) -> Seq<char> {
    after_last(after_last(after_first(id, ':'), ':'), '.')
}

/// The last word of an id, past its kind and its scopes.
pub fn find_last_word(id: &str) -> (r: String)
    ensures
        r@ == last_word(id@),
{
    let q = tail_after_first(id, ':');
    let a = tail_after_last(q.as_str(), ':');
    tail_after_last(a.as_str(), '.')
}

/// The line that stands for an entity: its signature, or its id where it has none.
pub open spec fn face(e: EntityView) -> Seq<char> {
    match e.signature {
        Some(s) => if s.len() > 0 {
            s
        } else {
            e.id
        },
        None => e.id,
    }
}

fn signature_line(e: &Entity) -> (r: String)
    ensures
        r@ == face(e@),
{
    match &e.signature {
        Some(s) => if s.as_str().is_empty() {
            e.id.clone()
        } else {
            s.clone()
        },
        None => e.id.clone(),
    }
}

/// The source of an entity.
pub open spec fn source_of(e: EntityView, bytes: Seq<u8>) -> Seq<char> {
    text_of(clip(e, bytes))
}

fn source(e: &Entity, a: &Artifact) -> (r: String)
    ensures
        r@ == source_of(e@, a.bytes@),
{
    if e.start <= e.end {
        from_utf8_lossy(e.slice(a))
    } else {
        let none: Vec<u8> = Vec::new();
        assert(none@ =~= clip(e@, a.bytes@));
        from_utf8_lossy(none.as_slice())
    }
}

/// The import lines of a file.
pub open spec fn import_lines(es: Seq<EntityView>) -> Seq<Seq<char>>
    decreases es.len(),
{
    if es.len() == 0 {
        Seq::empty()
    } else {
        let rest = import_lines(es.drop_last());
        match es.last().signature {
            Some(s) => if es.last().kind == "import"@ {
                rest.push(s)
            } else {
                rest
            },
            None => rest,
        }
    }
}

/// The faces of what is referred to. Imports are not called.
pub open spec fn callee_lines(o: OutlineView, refs: Seq<Seq<char>>) -> Seq<Seq<char>>
    decreases refs.len(),
{
    if refs.len() == 0 {
        Seq::empty()
    } else {
        let rest = callee_lines(o, refs.drop_last());
        match o.entity(refs.last()) {
            Some(e) => if e.kind != "import"@ {
                rest.push(face(e))
            } else {
                rest
            },
            None => rest,
        }
    }
}

/// The first of some lines that holds a word.
pub open spec fn first_with(l: Seq<Seq<char>>, needle: Seq<char>) -> Option<Seq<char>>
    decreases l.len(),
{
    if l.len() == 0 {
        None
    } else if has_text(l[0], needle) {
        Some(l[0])
    } else {
        first_with(l.skip(1), needle)
    }
}

/// The first line inside a caller that names a word.
pub open spec fn call_site(text: Seq<char>, e: EntityView, needle: Seq<char>) -> Option<Seq<char>> {
    let src = encode_utf8(text);
    let body = match e.body {
        Some((a, b)) => read_within(src, a, b),
        None => read_within(src, e.start, e.end),
    };
    first_with(lines_of(body), needle)
}

/// A caller as its face and the one line that names the target.
pub open spec fn caller_line(text: Seq<char>, e: EntityView, needle: Seq<char>) -> Seq<char> {
    match call_site(text, e, needle) {
        Some(line) => face(e) + "\n    "@ + trim_of(line),
        None => face(e),
    }
}

/// The callers of an entity, other than tests.
pub open spec fn caller_lines(
    es: Seq<EntityView>,
    target: Seq<char>,
    text: Seq<char>,
) -> Seq<Seq<char>>
    decreases es.len(),
{
    if es.len() == 0 {
        Seq::empty()
    } else {
        let rest = caller_lines(es.drop_last(), target, text);
        let e = es.last();
        if e.refers_to(target) && e.kind != "test"@ {
            rest.push(caller_line(text, e, last_word(target)))
        } else {
            rest
        }
    }
}

/// The tests that refer to an entity, in full.
pub open spec fn test_sources(es: Seq<EntityView>, target: Seq<char>, bytes: Seq<u8>) -> Seq<
    Seq<char>,
>
    decreases es.len(),
{
    if es.len() == 0 {
        Seq::empty()
    } else {
        let rest = test_sources(es.drop_last(), target, bytes);
        let e = es.last();
        if e.refers_to(target) && e.kind == "test"@ {
            rest.push(source_of(e, bytes))
        } else {
            rest
        }
    }
}

pub open spec fn is_type_kind(k: Seq<char>) -> bool {
    k == "struct"@ || k == "enum"@ || k == "type"@ || k == "interface"@
}

/// The definitions of the types that a signature names.
pub open spec fn type_sources(es: Seq<EntityView>, sig: Seq<char>, bytes: Seq<u8>) -> Seq<Seq<char>>
    decreases es.len(),
{
    if es.len() == 0 {
        Seq::empty()
    } else {
        let rest = type_sources(es.drop_last(), sig, bytes);
        let e = es.last();
        if is_type_kind(e.kind) && has_text(sig, last_word(e.id)) {
            rest.push(source_of(e, bytes))
        } else {
            rest
        }
    }
}

/// All that a pack could hold, in order of priority.
pub open spec fn pack_parts(o: OutlineView, target: EntityView, bytes: Seq<u8>) -> Seq<Part> {
    let text = text_of(bytes);
    let p1 = with_part(Seq::empty(), "imports"@, join_of(import_lines(o.entities), "\n"@));
    let p2 = with_part(
        p1,
        "target"@,
        "// "@ + target.id + "\n"@ + source_of(target, bytes),
    );
    let p3 = with_part(p2, "calls"@, join_of(callee_lines(o, target.refs), "\n"@));
    let p4 = with_part(
        p3,
        "callers"@,
        join_of(caller_lines(o.entities, target.id, text), "\n"@),
    );
    let p5 = with_part(
        p4,
        "tests"@,
        join_of(test_sources(o.entities, target.id, bytes), "\n\n"@),
    );
    match target.signature {
        Some(sig) => with_part(
            p5,
            "types"@,
            join_of(type_sources(o.entities, sig, bytes), "\n\n"@),
        ),
        None => p5,
    }
}

/// What stands at the end of a section that was cut.
pub open spec fn cut_mark() -> Seq<char> {
    "\n// ... truncated to fit the context budget\n"@
}

/// The lines from `i` on, after what was kept, as far as the room goes, and then the mark.
pub open spec fn cut_lines(l: Seq<Seq<char>>, i: int, kept: Seq<char>, room: nat) -> Seq<char>
    decreases l.len() - i,
{
    if i < 0 || i >= l.len() {
        kept
    } else if byte_len(kept) + byte_len(l[i]) + 1 > room {
        kept + cut_mark()
    } else {
        cut_lines(l, i + 1, kept + l[i] + "\n"@, room)
    }
}

/// The first section called "target", or the number of sections.
pub open spec fn target_at(p: Seq<Part>) -> int
    decreases p.len(),
{
    if p.len() == 0 || p[0].0 == "target"@ {
        0
    } else {
        1 + target_at(p.skip(1))
    }
}

/// The target section, cut on a line boundary so that it takes so many bytes with its name and
/// the mark.
pub open spec fn cut_part(x: Part, size: nat) -> Part {
    let fixed = byte_len(x.0) + byte_len(cut_mark());
    (x.0, cut_lines(lines_of(x.1), 0, Seq::empty(), if size > fixed {
        (size - fixed) as nat
    } else {
        0
    }))
}

/// A pack within a budget: sections go from the back, and where the target is still over what is
/// left for it, it is cut. What stands before it stays as long as that leaves room for the name of
/// the target and the mark of the cut.
pub open spec fn within_budget(p: Seq<Part>, budget: nat) -> Seq<Part> {
    let f = fitted(p, budget, 2);
    let i = target_at(f);
    if pack_size(f) > budget && i < f.len() {
        let rest = pack_size(f.remove(i));
        if rest + byte_len(f[i].0) + byte_len(cut_mark()) <= budget {
            f.update(i, cut_part(f[i], (budget - rest) as nat))
        } else {
            seq![cut_part(f[i], budget)]
        }
    } else {
        f
    }
}

/// The budget that is kept to: what was asked for, within bounds.
pub open spec fn budget_of(asked: nat) -> nat {
    if asked < 1000 {
        1000
    } else if asked > MAX_BUDGET_CHARS {
        MAX_BUDGET_CHARS as nat
    } else {
        asked
    }
}

fn list_imports(es: &Vec<Entity>) -> (r: Vec<String>)
    ensures
        texts(r@) == import_lines(entity_views(es@)),
{
    let ghost all = entity_views(es@);
    let mut out: Vec<String> = Vec::new();
    let mut i: usize = 0;
    assert(all.take(0) =~= Seq::<EntityView>::empty());
    assert(texts(out@) =~= Seq::<Seq<char>>::empty());
    while i < es.len()
        invariant
            i <= es@.len(),
            all == entity_views(es@),
            texts(out@) == import_lines(all.take(i as int)),
        decreases es@.len() - i,
    {
        let ghost nn = all.take(i + 1);
        assert(nn.drop_last() =~= all.take(i as int));
        assert(nn.last() == es@[i as int]@);
        let ghost before = texts(out@);
        match &es[i].signature {
            Some(s) => {
                if same(es[i].kind.as_str(), "import") {
                    out.push(s.clone());
                    assert(texts(out@) =~= before.push(s@));
                }
            },
            None => {},
        }
        i += 1;
    }
    assert(all.take(i as int) =~= all);
    out
}

fn list_callees(o: &Outline, refs: &Vec<String>) -> (r: Vec<String>)
    ensures
        texts(r@) == callee_lines(o@, texts(refs@)),
{
    let ghost all = texts(refs@);
    let mut out: Vec<String> = Vec::new();
    let mut i: usize = 0;
    assert(all.take(0) =~= Seq::<Seq<char>>::empty());
    assert(texts(out@) =~= Seq::<Seq<char>>::empty());
    while i < refs.len()
        invariant
            i <= refs@.len(),
            all == texts(refs@),
            texts(out@) == callee_lines(o@, all.take(i as int)),
        decreases refs@.len() - i,
    {
        let ghost nn = all.take(i + 1);
        assert(nn.drop_last() =~= all.take(i as int));
        assert(nn.last() == refs@[i as int]@);
        let ghost before = texts(out@);
        match o.get(refs[i].as_str()) {
            Some(e) => {
                if !same(e.kind.as_str(), "import") {
                    let line = signature_line(e);
                    out.push(line);
                    assert(texts(out@) =~= before.push(line@));
                }
            },
            None => {},
        }
        i += 1;
    }
    assert(all.take(i as int) =~= all);
    out
}

fn find_call_site(text: &str, e: &Entity, needle: &str) -> (r: Option<String>)
    ensures
        r is Some <==> call_site(text@, e@, needle@) is Some,
        r matches Some(s) ==> call_site(text@, e@, needle@) == Some(s@),
{
    let src = text.as_bytes();
    let body = match e.body {
        Some((a, b)) => read_clamped(src, a, b),
        None => read_clamped(src, e.start, e.end),
    };
    let all = lines(body.as_str());
    let ghost l = texts(all@);
    let mut i: usize = 0;
    assert(l.skip(0) =~= l);
    while i < all.len()
        invariant
            i <= all@.len(),
            l == texts(all@),
            call_site(text@, e@, needle@) == first_with(l.skip(i as int), needle@),
        decreases all@.len() - i,
    {
        assert(l.skip(i as int)[0] == all@[i as int]@);
        assert(l.skip(i as int).skip(1) =~= l.skip(i + 1));
        if contains(all[i].as_str(), needle) {
            return Some(all[i].clone());
        }
        i += 1;
    }
    None
}

fn list_callers(es: &Vec<Entity>, target: &str, text: &str) -> (r: Vec<String>)
    ensures
        texts(r@) == caller_lines(entity_views(es@), target@, text@),
{
    let ghost all = entity_views(es@);
    let word = find_last_word(target);
    let mut out: Vec<String> = Vec::new();
    let mut i: usize = 0;
    assert(all.take(0) =~= Seq::<EntityView>::empty());
    assert(texts(out@) =~= Seq::<Seq<char>>::empty());
    while i < es.len()
        invariant
            i <= es@.len(),
            all == entity_views(es@),
            word@ == last_word(target@),
            texts(out@) == caller_lines(all.take(i as int), target@, text@),
        decreases es@.len() - i,
    {
        let ghost nn = all.take(i + 1);
        assert(nn.drop_last() =~= all.take(i as int));
        assert(nn.last() == es@[i as int]@);
        let ghost before = texts(out@);
        let e = &es[i];
        if mentions(&e.refs, target) && !same(e.kind.as_str(), "test") {
            let mut line = signature_line(e);
            match find_call_site(text, e, word.as_str()) {
                Some(site) => {
                    line.push_str("\n    ");
                    let t = trim(site.as_str());
                    line.push_str(t.as_str());
                },
                None => {},
            }
            assert(line@ =~= caller_line(text@, e@, word@));
            out.push(line);
            assert(texts(out@) =~= before.push(line@));
        }
        i += 1;
    }
    assert(all.take(i as int) =~= all);
    out
}

fn list_tests(es: &Vec<Entity>, target: &str, a: &Artifact) -> (r: Vec<String>)
    ensures
        texts(r@) == test_sources(entity_views(es@), target@, a.bytes@),
{
    let ghost all = entity_views(es@);
    let mut out: Vec<String> = Vec::new();
    let mut i: usize = 0;
    assert(all.take(0) =~= Seq::<EntityView>::empty());
    assert(texts(out@) =~= Seq::<Seq<char>>::empty());
    while i < es.len()
        invariant
            i <= es@.len(),
            all == entity_views(es@),
            texts(out@) == test_sources(all.take(i as int), target@, a.bytes@),
        decreases es@.len() - i,
    {
        let ghost nn = all.take(i + 1);
        assert(nn.drop_last() =~= all.take(i as int));
        assert(nn.last() == es@[i as int]@);
        let ghost before = texts(out@);
        let e = &es[i];
        if mentions(&e.refs, target) && same(e.kind.as_str(), "test") {
            let s = source(e, a);
            out.push(s);
            assert(texts(out@) =~= before.push(s@));
        }
        i += 1;
    }
    assert(all.take(i as int) =~= all);
    out
}

fn list_types(es: &Vec<Entity>, sig: &str, a: &Artifact) -> (r: Vec<String>)
    ensures
        texts(r@) == type_sources(entity_views(es@), sig@, a.bytes@),
{
    let ghost all = entity_views(es@);
    let mut out: Vec<String> = Vec::new();
    let mut i: usize = 0;
    assert(all.take(0) =~= Seq::<EntityView>::empty());
    assert(texts(out@) =~= Seq::<Seq<char>>::empty());
    while i < es.len()
        invariant
            i <= es@.len(),
            all == entity_views(es@),
            texts(out@) == type_sources(all.take(i as int), sig@, a.bytes@),
        decreases es@.len() - i,
    {
        let ghost nn = all.take(i + 1);
        assert(nn.drop_last() =~= all.take(i as int));
        assert(nn.last() == es@[i as int]@);
        let ghost before = texts(out@);
        let e = &es[i];
        let k = e.kind.as_str();
        if same(k, "struct") || same(k, "enum") || same(k, "type") || same(k, "interface") {
            let word = find_last_word(e.id.as_str());
            if contains(sig, word.as_str()) {
                let s = source(e, a);
                out.push(s);
                assert(texts(out@) =~= before.push(s@));
            }
        }
        i += 1;
    }
    assert(all.take(i as int) =~= all);
    out
}

fn truncate(name: &str, body: &str, size: usize) -> (r: String)
    ensures
        r@ == cut_part((name@, body@), size as nat).1,
{
    let all = lines(body);
    let ghost l = texts(all@);
    let a: usize = len_in_bytes(name);
    let b: usize = len_in_bytes("\n// ... truncated to fit the context budget\n");
    let room: usize = if a < size && b < size - a {
        size - a - b
    } else {
        0
    };
    let mut kept = String::new();
    let mut i: usize = 0;
    assert(kept@ =~= Seq::<char>::empty());
    while i < all.len()
        invariant
            i <= all@.len(),
            l == texts(all@),
            l == lines_of(body@),
            cut_part((name@, body@), size as nat).1 == cut_lines(
                l,
                i as int,
                kept@,
                room as nat,
            ),
        decreases all@.len() - i,
    {
        assert(l[i as int] == all@[i as int]@);
        let a: usize = len_in_bytes(kept.as_str());
        let b: usize = len_in_bytes(all[i].as_str());
        if a >= room || b >= room - a {
            kept.push_str("\n// ... truncated to fit the context budget\n");
            return kept;
        }
        kept.push_str(all[i].as_str());
        kept.push_str("\n");
        i += 1;
    }
    assert(l.len() == all@.len());
    kept
}

fn trim_to_budget(pack: &mut Pack, budget: usize)
    ensures
        final(pack)@ == within_budget(old(pack)@, budget as nat),
{
    let ghost all = pack@;
    pack.fit(budget, 2);
    proof {
        law_fitted_pack(all, budget as nat, 2);
    }
    if !pack.exceeds(budget) {
        return;
    }
    let ghost f = pack@;
    let mut i: usize = 0;
    assert(f.skip(0) =~= f);
    while i < pack.parts.len() && !same(pack.parts[i].0.as_str(), "target")
        invariant
            i <= pack.parts@.len(),
            f == pack@,
            target_at(f) == i + target_at(f.skip(i as int)),
        decreases pack.parts@.len() - i,
    {
        assert(f.skip(i as int)[0] == (pack.parts@[i as int].0@, pack.parts@[i as int].1@));
        assert(f.skip(i as int).skip(1) =~= f.skip(i + 1));
        i += 1;
    }
    assert(f.len() == pack.parts@.len());
    if i < pack.parts.len() {
        assert(f.skip(i as int)[0] == (pack.parts@[i as int].0@, pack.parts@[i as int].1@));
        assert(f[i as int] == (pack.parts@[i as int].0@, pack.parts@[i as int].1@));
        let ghost x = f[i as int];
        let part = pack.parts.remove(i);
        let ghost rest = f.remove(i as int);
        assert(pack@ =~= rest);
        let a: usize = len_in_bytes(part.0.as_str());
        let b: usize = len_in_bytes("\n// ... truncated to fit the context budget\n");
        let spare: usize = if a <= budget && b <= budget - a {
            budget - a - b
        } else {
            0
        };
        let fits = a <= budget && b <= budget - a && !pack.exceeds(spare);
        if fits {
            let taken = pack.size_within(spare);
            let body = truncate(part.0.as_str(), part.1.as_str(), budget - taken);
            pack.parts.insert(i, (part.0, body));
            assert(pack@ =~= f.update(i as int, cut_part(x, (budget - taken) as nat)));
        } else {
            let body = truncate(part.0.as_str(), part.1.as_str(), budget);
            pack.parts = Vec::new();
            pack.parts.push((part.0, body));
            assert(pack@ =~= seq![cut_part(x, budget as nat)]);
        }
    }
}

proof fn lemma_short(s: Seq<char>)
    ensures
        byte_len(s) <= 4 * s.len(),
    decreases s.len(),
{
    if s.len() > 0 {
        let w = s.drop_last();
        lemma_short(w);
        assert(s =~= w + seq![s.last()]);
        lemma_encode_add(w, seq![s.last()]);
        assert(seq![s.last()].drop_first() =~= Seq::<char>::empty());
        reveal_with_fuel(encode_utf8, 2);
    } else {
        reveal_with_fuel(encode_utf8, 2);
    }
}

/// A section that was cut takes no more than it was given, where that covers its name and the
/// mark.
proof fn lemma_cut_lines(l: Seq<Seq<char>>, i: int, kept: Seq<char>, room: nat)
    requires
        byte_len(kept) <= room,
    ensures
        byte_len(cut_lines(l, i, kept, room)) <= room + byte_len(cut_mark()),
    decreases l.len() - i,
{
    if 0 <= i < l.len() {
        if byte_len(kept) + byte_len(l[i]) + 1 > room {
            lemma_encode_add(kept, cut_mark());
        } else {
            lemma_encode_add(kept, l[i]);
            lemma_encode_add(kept + l[i], "\n"@);
            reveal_strlit("\n");
            lemma_newline();
            lemma_cut_lines(l, i + 1, kept + l[i] + "\n"@, room);
        }
    }
}

proof fn lemma_newline()
    ensures
        byte_len("\n"@) == 1,
{
    reveal_strlit("\n");
    assert("\n"@ =~= seq!['\n']);
    assert(seq!['\n'].drop_first() =~= Seq::<char>::empty());
    reveal_with_fuel(encode_utf8, 2);
}

/// However much there is to say, a pack keeps to its budget.
pub proof fn law_a_pack_keeps_to_its_budget(
    o: OutlineView,
    target: EntityView,
    bytes: Seq<u8>,
    asked: nat,
)
    ensures
        pack_size(within_budget(pack_parts(o, target, bytes), budget_of(asked))) <= budget_of(
            asked,
        ),
{
    let p = pack_parts(o, target, bytes);
    let budget = budget_of(asked);
    let f = fitted(p, budget, 2);
    let i = target_at(f);
    law_fitted_pack(p, budget, 2);
    lemma_target_in(o, target, bytes, budget);
    if pack_size(f) > budget {
        let x = f[i];
        let mark = cut_mark();
        reveal_strlit("target");
        reveal_strlit("\n// ... truncated to fit the context budget\n");
        lemma_short("target"@);
        lemma_short(mark);
        lemma_target_at(f);
        assert(x.0 == "target"@);
        let rest = pack_size(f.remove(i));
        lemma_encode_add(Seq::<char>::empty(), Seq::<char>::empty());
        if rest + byte_len(x.0) + byte_len(mark) <= budget {
            let size = (budget - rest) as nat;
            let y = cut_part(x, size);
            lemma_cut_lines(
                lines_of(x.1),
                0,
                Seq::empty(),
                (size - byte_len(x.0) - byte_len(mark)) as nat,
            );
            lemma_size_update(f, i, y);
        } else {
            let y = cut_part(x, budget);
            lemma_cut_lines(
                lines_of(x.1),
                0,
                Seq::empty(),
                (budget - byte_len(x.0) - byte_len(mark)) as nat,
            );
            assert(seq![y].drop_last() =~= Seq::<Part>::empty());
            reveal_with_fuel(pack_size, 2);
        }
    }
}

proof fn lemma_size_update(f: Seq<Part>, i: int, y: Part)
    requires
        0 <= i < f.len(),
    ensures
        pack_size(f.update(i, y)) == pack_size(f.remove(i)) + byte_len(y.0) + byte_len(y.1),
    decreases f.len(),
{
    let g = f.update(i, y);
    if i == f.len() - 1 {
        assert(g.drop_last() =~= f.remove(i));
    } else {
        lemma_size_update(f.drop_last(), i, y);
        assert(g.drop_last() =~= f.drop_last().update(i, y));
        assert(f.remove(i).drop_last() =~= f.drop_last().remove(i));
        assert(f.remove(i).last() == f.last());
    }
}

pub fn build(req: &PackRequest<'_>) -> (r: Result<Pack, AdapterError>)
    ensures
        match req.outline@.entity(req.target@) {
            Some(t) => r matches Ok(p) && p@ == within_budget(
                pack_parts(req.outline@, t, req.artifact.bytes@),
                budget_of(req.budget_chars as nat),
            ) && pack_size(p@) <= budget_of(req.budget_chars as nat),
            None => r matches Err(e) && e@ == Fault::UnknownEntity(req.target@),
        },
{
    let budget: usize = if req.budget_chars < 1000 {
        1000
    } else if req.budget_chars > MAX_BUDGET_CHARS {
        MAX_BUDGET_CHARS
    } else {
        req.budget_chars
    };
    let outline = req.outline;
    let artifact = req.artifact;
    let target = match outline.get(req.target) {
        Some(t) => t,
        None => {
            return Err(unknown(req.target));
        },
    };
    let mut pack = Pack::default();
    let list = list_imports(&outline.entities);
    let part = join(&list, "\n");
    pack.push("imports", part.as_str());
    let mut part = "// ".to_owned();
    part.push_str(target.id.as_str());
    part.push_str("\n");
    let body = source(target, artifact);
    part.push_str(body.as_str());
    pack.push("target", part.as_str());
    let list = list_callees(outline, &target.refs);
    let part = join(&list, "\n");
    pack.push("calls", part.as_str());
    let text = artifact.text();
    let list = list_callers(&outline.entities, target.id.as_str(), text.as_str());
    let part = join(&list, "\n");
    pack.push("callers", part.as_str());
    let list = list_tests(&outline.entities, target.id.as_str(), artifact);
    let part = join(&list, "\n\n");
    pack.push("tests", part.as_str());
    match &target.signature {
        Some(sig) => {
            let list = list_types(&outline.entities, sig.as_str(), artifact);
            let part = join(&list, "\n\n");
            pack.push("types", part.as_str());
        },
        None => {},
    }
    trim_to_budget(&mut pack, budget);
    proof {
        law_a_pack_keeps_to_its_budget(
            outline@,
            target@,
            artifact.bytes@,
            req.budget_chars as nat,
        );
    }
    Ok(pack)
}

proof fn lemma_not_blank(s: Seq<char>)
    requires
        s.len() > 0,
        !crate::text::is_space(s[0]),
    ensures
        trim_of(s).len() > 0,
{
    lemma_trim_end_keeps(s);
}

proof fn lemma_trim_end_keeps(s: Seq<char>)
    requires
        s.len() > 0,
        !crate::text::is_space(s[0]),
    ensures
        crate::text::trim_end_of(s).len() > 0,
        crate::text::trim_end_of(s)[0] == s[0],
    decreases s.len(),
{
    if crate::text::is_space(s.last()) {
        lemma_trim_end_keeps(s.drop_last());
    }
}

proof fn lemma_target_at(p: Seq<Part>)
    ensures
        0 <= target_at(p) <= p.len(),
    decreases p.len(),
{
    if p.len() > 0 && p[0].0 != "target"@ {
        lemma_target_at(p.skip(1));
    }
}

proof fn lemma_target_in(o: OutlineView, target: EntityView, bytes: Seq<u8>, budget: nat)
    ensures
        ({
            let f = fitted(pack_parts(o, target, bytes), budget, 2);
            &&& target_at(f) < f.len()
            &&& target_at(f) < 2
            &&& f[target_at(f)].0 == "target"@
        }),
{
    let all = pack_parts(o, target, bytes);
    let body = "// "@ + target.id + "\n"@ + source_of(target, bytes);
    reveal_strlit("// ");
    assert("// "@[0] == '/');
    assert(body[0] == '/');
    lemma_not_blank(body);
    let p1 = with_part(Seq::empty(), "imports"@, join_of(import_lines(o.entities), "\n"@));
    let p2 = with_part(p1, "target"@, body);
    let at = p1.len() as int;
    assert(p1.len() <= 1);
    assert(p2[at].0 == "target"@);
    assert(all.len() > at && all[at] == p2[at]);
    law_fitted_pack(all, budget, 2);
    let f = fitted(all, budget, 2);
    assert(f.len() > at) by {
        if all.len() < 2 {
            assert(f == all);
        }
    }
    assert(f[at] == all[at]);
    lemma_target_found(f, at);
}

proof fn lemma_target_found(p: Seq<Part>, at: int)
    requires
        0 <= at < p.len(),
        p[at].0 == "target"@,
    ensures
        target_at(p) <= at,
        p[target_at(p)].0 == "target"@,
    decreases p.len(),
{
    if p[0].0 != "target"@ {
        lemma_target_found(p.skip(1), at - 1);
        lemma_target_at(p.skip(1));
    }
}

/// However tight the budget, the target is in the pack: extras are dropped before it is.
pub proof fn law_the_target_survives(
    o: OutlineView,
    target: EntityView,
    bytes: Seq<u8>,
    budget: nat,
)
    ensures
        ({
            let p = within_budget(pack_parts(o, target, bytes), budget);
            exists|i: int| 0 <= i < p.len() && i < 2 && (#[trigger] p[i]).0 == "target"@
        }),
{
    lemma_target_in(o, target, bytes, budget);
    let f = fitted(pack_parts(o, target, bytes), budget, 2);
    lemma_target_at(f);
    let p = within_budget(pack_parts(o, target, bytes), budget);
    assert(p[0].0 == "target"@ || p[target_at(f)].0 == "target"@);
}

} // verus!
