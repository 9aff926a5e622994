//! What each op does to a source file, byte for byte.

use crate::adapter::EntityView;
use crate::adapter::Fault;
use crate::adapter::Op;
use crate::code::linking::is_identifier;
use crate::code::linking::is_last_segment;
use crate::code::linking::lemma_simple;
use crate::code::ops::all_renamed;
use crate::code::ops::batch_work;
use crate::code::ops::common_margin;
use crate::code::ops::diff_op;
use crate::code::ops::first_byte;
use crate::code::ops::imports_end;
use crate::code::ops::indent_of;
use crate::code::ops::margin;
use crate::code::ops::materialized;
use crate::code::ops::op_work;
use crate::code::ops::past_bytes;
use crate::code::ops::reindented;
use crate::code::ops::renamed_from;
use crate::code::ops::run_end;
use crate::code::ops::shifted;
use crate::code::ops::tests_module;
use crate::code::ops::word_byte;
use crate::code::ops::Scene;
use crate::code::ops::Work;
use crate::code::ops::MAX_OP_LINES;
use crate::splice::law_one_edit_rewrites_one_place;
use crate::splice::Change;
use crate::text::ends;
use crate::text::is_space;
use crate::text::join_of;
use crate::text::lines_of;
use crate::text::trim_of;
use crate::text::trim_start_of;
use crate::utf8::byte_len;
use crate::utf8::lemma_encode_add;
use crate::wording::is_word;
use vstd::prelude::*;
use vstd::utf8::encode_utf8;

verus! {

/// Is a line of code only moved? A blank line comes out empty. Any other has the new indentation in
/// the place of some of the white space that it began with, and is otherwise as it was.
pub open spec fn is_moved(line: Seq<char>, out: Seq<char>, indent: Seq<char>) -> bool {
    if forall|j: int| 0 <= j < line.len() ==> is_space(#[trigger] line[j]) {
        out.len() == 0
    } else {
        exists|k: int| #[trigger] is_cut(line, out, indent, k)
    }
}

/// Does a line come out with this many of its characters, all of them white space, exchanged for
/// the indentation?
pub open spec fn is_cut(line: Seq<char>, out: Seq<char>, indent: Seq<char>, k: int) -> bool {
    &&& 0 <= k <= line.len()
    &&& forall|j: int| 0 <= j < k ==> is_space(#[trigger] line[j])
    &&& out == indent + line.skip(k)
}

/// Are these the lines of some code, moved to an indentation?
pub open spec fn are_moved(code: Seq<char>, ls: Seq<Seq<char>>, indent: Seq<char>) -> bool {
    &&& ls.len() == lines_of(code).len()
    &&& forall|i: int| 0 <= i < ls.len() ==> is_moved(lines_of(code)[i], #[trigger] ls[i], indent)
}

proof fn lemma_trim_start(s: Seq<char>)
    ensures
        trim_start_of(s).len() <= s.len(),
        s.skip(s.len() - trim_start_of(s).len()) == trim_start_of(s),
        forall|j: int| 0 <= j < s.len() - trim_start_of(s).len() ==> is_space(#[trigger] s[j]),
        trim_start_of(s).len() > 0 ==> !is_space(trim_start_of(s)[0]),
    decreases s.len(),
{
    if s.len() > 0 && is_space(s[0]) {
        let t = s.skip(1);
        lemma_trim_start(t);
        let n = t.len() - trim_start_of(t).len();
        assert(t.skip(n) =~= s.skip(n + 1));
        assert forall|j: int| 0 <= j < n + 1 implies is_space(#[trigger] s[j]) by {
            if j > 0 {
                assert(t[j - 1] == s[j]);
            }
        }
        assert(trim_start_of(s) == trim_start_of(t));
    } else {
        assert(s.skip(0) =~= s);
    }
}

proof fn lemma_trim_end_len(s: Seq<char>)
    ensures
        crate::text::trim_end_of(s).len() == 0 <==> forall|j: int|
            0 <= j < s.len() ==> is_space(#[trigger] s[j]),
    decreases s.len(),
{
    if s.len() > 0 && is_space(s.last()) {
        let d = s.drop_last();
        lemma_trim_end_len(d);
        assert forall|j: int| 0 <= j < d.len() implies d[j] == #[trigger] s[j] by {}
        if forall|j: int| 0 <= j < d.len() ==> is_space(#[trigger] d[j]) {
            assert forall|j: int| 0 <= j < s.len() implies is_space(#[trigger] s[j]) by {
                if j < d.len() {
                    assert(is_space(d[j]));
                }
            }
        } else {
            let j = choose|j: int| 0 <= j < d.len() && !is_space(#[trigger] d[j]);
            assert(!is_space(s[j]));
        }
    } else if s.len() > 0 {
        assert(!is_space(s[s.len() - 1]));
    }
}

/// A text is blank where it is white space throughout.
proof fn lemma_blank(s: Seq<char>)
    ensures
        trim_of(s).len() == 0 <==> forall|j: int| 0 <= j < s.len() ==> is_space(#[trigger] s[j]),
{
    let t = trim_start_of(s);
    lemma_trim_start(s);
    lemma_trim_end_len(s);
    lemma_trim_end_len(t);
    let n = s.len() - t.len();
    lemma_trim_start(crate::text::trim_end_of(s));
    if forall|j: int| 0 <= j < s.len() ==> is_space(#[trigger] s[j]) {
        assert forall|j: int| 0 <= j < t.len() implies is_space(#[trigger] t[j]) by {
            assert(t[j] == s[n + j]);
        }
    } else {
        let j = choose|j: int| 0 <= j < s.len() && !is_space(#[trigger] s[j]);
        assert(t[j - n] == s[j]);
    }
}

proof fn lemma_past_bytes(s: Seq<char>, n: int, m: int) -> (k: int)
    requires
        0 <= m <= s.len(),
        n <= byte_len(s.take(m)),
    ensures
        0 <= k <= m,
        past_bytes(s, n) == s.skip(k),
    decreases s.len(),
{
    if n <= 0 || s.len() == 0 {
        assert(s.skip(0) =~= s);
        0
    } else {
        if m == 0 {
            let none = Seq::<char>::empty();
            assert(s.take(0) =~= none);
            lemma_encode_add(none, none);
            assert(none + none =~= none);
        }
        let t = s.skip(1);
        lemma_encode_add(seq![s[0]], t.take(m - 1));
        assert(seq![s[0]] + t.take(m - 1) =~= s.take(m));
        let k = lemma_past_bytes(t, n - byte_len(seq![s[0]]), m - 1);
        assert(t.skip(k) =~= s.skip(k + 1));
        k + 1
    }
}

proof fn lemma_common_margin(l: Seq<Seq<char>>, i: int)
    requires
        0 <= i < l.len(),
        trim_of(l[i]).len() > 0,
    ensures
        common_margin(l) is Some,
        common_margin(l)->0 <= byte_len(margin(l[i])),
    decreases l.len(),
{
    if i < l.len() - 1 {
        lemma_common_margin(l.drop_last(), i);
    }
}

/// Indenting code only moves its lines: there are as many as before, and each is its old self with
/// white space in front exchanged for the indentation.
pub proof fn law_indenting_only_moves_lines(code: Seq<char>, indent: Seq<char>)
    ensures
        exists|ls: Seq<Seq<char>>| #[trigger]
            are_moved(code, ls, indent) && reindented(code, indent) == join_of(ls, "\n"@),
{
    let l = lines_of(code);
    let base = match common_margin(l) {
        Some(n) => n,
        None => 0,
    };
    let ls = l.map_values(|x: Seq<char>| shifted(x, base, indent));
    assert forall|i: int| 0 <= i < ls.len() implies is_moved(l[i], #[trigger] ls[i], indent) by {
        lemma_blank(l[i]);
        if trim_of(l[i]).len() > 0 {
            lemma_common_margin(l, i);
            lemma_trim_start(l[i]);
            let m = l[i].len() - trim_start_of(l[i]).len();
            let k = lemma_past_bytes(l[i], base as int, m);
            assert(is_cut(l[i], ls[i], indent, k));
        }
    }
    assert(are_moved(code, ls, indent));
}

/// Is the entity at a place the first with an id?
pub open spec fn is_first(es: Seq<EntityView>, id: Seq<char>, i: int) -> bool {
    &&& 0 <= i < es.len()
    &&& es[i].id == id
    &&& forall|k: int| 0 <= k < i ==> (#[trigger] es[k]).id != id
}

proof fn lemma_find(es: Seq<EntityView>, id: Seq<char>, i: int)
    requires
        is_first(es, id, i),
    ensures
        crate::adapter::find_id(es, id) == i,
{
    crate::adapter::lemma_find_id(es, id);
    let f = crate::adapter::find_id(es, id);
    if f < i {
        assert(es[f].id != id);
    } else if f > i {
        assert(es[i].id != id);
    }
}

proof fn lemma_kinds_differ()
    ensures
        ({
            let (a, b, c, d) = (
                "replace_body"@,
                "replace_signature"@,
                "insert_after"@,
                "add_import"@,
            );
            let (e, f, g, h) = ("add_test"@, "rename"@, "delete"@, "unified_diff"@);
            &&& a != b && a != c && a != d && a != e && a != f && a != g && a != h
            &&& b != c && b != d && b != e && b != f && b != g && b != h
            &&& c != d && c != e && c != f && c != g && c != h
            &&& d != e && d != f && d != g && d != h
            &&& e != f && e != g && e != h
            &&& f != g && f != h
            &&& g != h
        }),
{
    reveal_strlit("replace_body");
    reveal_strlit("replace_signature");
    reveal_strlit("insert_after");
    reveal_strlit("add_import");
    reveal_strlit("add_test");
    reveal_strlit("rename");
    reveal_strlit("delete");
    reveal_strlit("unified_diff");
    assert("replace_body"@.len() == 12 && "replace_body"@[0] == 'r');
    assert("replace_signature"@.len() == 17);
    assert("insert_after"@.len() == 12 && "insert_after"@[0] == 'i');
    assert("add_import"@.len() == 10);
    assert("add_test"@.len() == 8);
    assert("rename"@.len() == 6 && "rename"@[0] == 'r');
    assert("delete"@.len() == 6 && "delete"@[0] == 'd');
    assert("unified_diff"@.len() == 12 && "unified_diff"@[0] == 'u');
}

proof fn lemma_one_op(s: Scene, op: Op)
    requires
        op.text("op"@) != Some("unified_diff"@),
    ensures
        diff_op(seq![op]) == 1,
        batch_work(s, seq![op]) == op_work(s, &op, Work::none()),
{
    let ops = seq![op];
    assert(ops.skip(1) =~= Seq::<Op>::empty());
    assert(diff_op(ops.skip(1)) == 0);
    assert(ops.drop_last() =~= Seq::<Op>::empty());
    assert(batch_work(s, ops.drop_last()) == Ok::<Work, Fault>(Work::none()));
}

proof fn lemma_one_change(s: Scene, op: Op, c: Change)
    requires
        op.text("op"@) != Some("unified_diff"@),
        op_work(s, &op, Work::none()) == Ok::<Work, Fault>(Work::none().edit(c)),
        0 <= c.start <= c.end <= s.src().len(),
    ensures
        materialized(s, seq![op]) == Ok::<Seq<u8>, Fault>(
            s.src().take(c.start) + c.text + s.src().skip(c.end),
        ),
{
    lemma_one_op(s, op);
    let w = Work::none().edit(c);
    assert(w.edits =~= seq![c]);
    assert(w.renames =~= Seq::empty());
    law_one_edit_rewrites_one_place(s.src(), c);
}

/// What is inserted after an entity comes after it. The file up to the end of the entity is byte
/// for byte what it was, the new code stands directly behind that, parted by a blank line and
/// indented as the entity is, and what followed the entity follows the new code unchanged.
pub proof fn law_inserted_code_follows_its_entity(s: Scene, op: Op, i: int, code: Seq<char>)
    requires
        op.text("op"@) == Some("insert_after"@),
        op.text("entity"@) is Some,
        op.text("code"@) == Some(code),
        lines_of(code).len() <= MAX_OP_LINES,
        is_first(s.before.entities, op.text("entity"@)->0, i),
        0 <= s.before.entities[i].end <= s.src().len(),
    ensures
        ({
            let e = s.before.entities[i];
            exists|ls: Seq<Seq<char>>| #[trigger]
                are_moved(code, ls, indent_of(s.src(), e.start)) && materialized(s, seq![op]) == Ok::<
                    Seq<u8>,
                    Fault,
                >(
                    s.src().take(e.end) + encode_utf8("\n\n"@ + join_of(ls, "\n"@)) + s.src().skip(
                        e.end,
                    ),
                )
        }),
{
    let e = s.before.entities[i];
    lemma_kinds_differ();
    lemma_find(s.before.entities, op.text("entity"@)->0, i);
    law_indenting_only_moves_lines(code, indent_of(s.src(), e.start));
    let w = op_work(s, &op, Work::none())->Ok_0;
    lemma_one_change(s, op, w.edits[0]);
}

/// A new body stands where the old one stood, and nothing else of the file changes. Where the
/// language has braces the body is put in braces, on lines of its own.
pub proof fn law_a_new_body_replaces_only_the_body(
    s: Scene,
    op: Op,
    i: int,
    from: int,
    to: int,
    body: Seq<char>,
)
    requires
        op.text("op"@) == Some("replace_body"@),
        op.text("entity"@) is Some,
        op.text("body"@) == Some(body),
        lines_of(body).len() <= MAX_OP_LINES,
        is_first(s.before.entities, op.text("entity"@)->0, i),
        s.before.entities[i].body == Some((from, to)),
        0 <= from <= to <= s.src().len(),
    ensures
        ({
            let outer = indent_of(s.src(), s.before.entities[i].start);
            exists|ls: Seq<Seq<char>>| #[trigger]
                are_moved(body, ls, outer + "    "@) && materialized(s, seq![op]) == Ok::<
                    Seq<u8>,
                    Fault,
                >(
                    s.src().take(from) + encode_utf8(
                        if s.braced {
                            "{\n"@ + join_of(ls, "\n"@) + "\n"@ + outer + "}"@
                        } else {
                            "\n"@ + join_of(ls, "\n"@)
                        },
                    ) + s.src().skip(to),
                )
        }),
{
    lemma_kinds_differ();
    lemma_find(s.before.entities, op.text("entity"@)->0, i);
    law_indenting_only_moves_lines(
        body,
        indent_of(s.src(), s.before.entities[i].start) + "    "@,
    );
    let w = op_work(s, &op, Work::none())->Ok_0;
    lemma_one_change(s, op, w.edits[0]);
}

/// A new signature stands from where the entity starts to where its body starts; the body stays.
pub proof fn law_a_new_signature_keeps_the_body(
    s: Scene,
    op: Op,
    i: int,
    from: int,
    to: int,
    signature: Seq<char>,
)
    requires
        op.text("op"@) == Some("replace_signature"@),
        op.text("entity"@) is Some,
        op.text("signature"@) == Some(signature),
        lines_of(signature).len() <= MAX_OP_LINES,
        is_first(s.before.entities, op.text("entity"@)->0, i),
        s.before.entities[i].body == Some((from, to)),
        0 <= s.before.entities[i].start <= from <= s.src().len(),
    ensures
        materialized(s, seq![op]) == Ok::<Seq<u8>, Fault>(
            s.src().take(s.before.entities[i].start) + encode_utf8(trim_of(signature) + " "@)
                + s.src().skip(from),
        ),
{
    lemma_kinds_differ();
    lemma_find(s.before.entities, op.text("entity"@)->0, i);
    let w = op_work(s, &op, Work::none())->Ok_0;
    lemma_one_change(s, op, w.edits[0]);
}

/// Deleting an entity takes the entity, the newline behind it where there is one, and nothing else.
pub proof fn law_deleting_takes_only_the_entity(s: Scene, op: Op, i: int)
    requires
        op.text("op"@) == Some("delete"@),
        op.text("entity"@) is Some,
        is_first(s.before.entities, op.text("entity"@)->0, i),
        0 <= s.before.entities[i].start <= s.before.entities[i].end <= s.src().len(),
    ensures
        ({
            let e = s.before.entities[i];
            materialized(s, seq![op]) == Ok::<Seq<u8>, Fault>(
                s.src().take(e.start) + s.src().skip(
                    if e.end < s.src().len() && s.src()[e.end] == 10u8 {
                        e.end + 1
                    } else {
                        e.end
                    },
                ),
            )
        }),
{
    lemma_kinds_differ();
    lemma_find(s.before.entities, op.text("entity"@)->0, i);
    let w = op_work(s, &op, Work::none())->Ok_0;
    let c = w.edits[0];
    lemma_one_change(s, op, c);
    let none = Seq::<char>::empty();
    lemma_encode_add(none, none);
    assert(none + none =~= none);
    assert(c.text.len() == 0);
    assert(s.src().take(c.start) + c.text + s.src().skip(c.end) =~= s.src().take(c.start)
        + s.src().skip(c.end));
}

proof fn lemma_imports_end(es: Seq<EntityView>, i: int)
    requires
        0 <= i < es.len(),
        es[i].kind == "import"@,
        forall|k: int|
            0 <= k < es.len() && (#[trigger] es[k]).kind == "import"@ ==> es[k].end <= es[i].end,
    ensures
        imports_end(es) == Some(es[i].end),
    decreases es.len(),
{
    let d = es.drop_last();
    assert forall|k: int| 0 <= k < d.len() && (#[trigger] d[k]).kind == "import"@ implies d[k].end
        <= es[i].end by {
        assert(d[k] == es[k]);
    }
    if i < es.len() - 1 {
        assert(d[i] == es[i]);
        lemma_imports_end(d, i);
        assert(es[es.len() - 1].kind == "import"@ ==> es[es.len() - 1].end <= es[i].end);
    } else {
        lemma_imports_bound(d, es[i].end);
    }
}

proof fn lemma_imports_bound(es: Seq<EntityView>, bound: int)
    requires
        forall|k: int|
            0 <= k < es.len() && (#[trigger] es[k]).kind == "import"@ ==> es[k].end <= bound,
    ensures
        imports_end(es) matches Some(n) ==> n <= bound,
    decreases es.len(),
{
    if es.len() > 0 {
        let d = es.drop_last();
        assert forall|k: int|
            0 <= k < d.len() && (#[trigger] d[k]).kind == "import"@ implies d[k].end <= bound by {
            assert(d[k] == es[k]);
        }
        lemma_imports_bound(d, bound);
        assert(es[es.len() - 1].kind == "import"@ ==> es[es.len() - 1].end <= bound);
    }
}

/// A new import stands on a line of its own behind the last of the imports; nothing else changes.
pub proof fn law_an_import_joins_the_imports(s: Scene, op: Op, i: int, import: Seq<char>)
    requires
        op.text("op"@) == Some("add_import"@),
        op.text("import"@) == Some(import),
        forall|k: int|
            0 <= k < s.before.entities.len() && (#[trigger] s.before.entities[k]).kind == "import"@
                ==> s.before.entities[k].signature != Some(trim_of(import)),
        0 <= i < s.before.entities.len(),
        s.before.entities[i].kind == "import"@,
        forall|k: int|
            0 <= k < s.before.entities.len() && (#[trigger] s.before.entities[k]).kind == "import"@
                ==> s.before.entities[k].end <= s.before.entities[i].end,
        0 <= s.before.entities[i].end <= s.src().len(),
    ensures
        ({
            let end = s.before.entities[i].end;
            materialized(s, seq![op]) == Ok::<Seq<u8>, Fault>(
                s.src().take(end) + encode_utf8("\n"@ + trim_of(import)) + s.src().skip(end),
            )
        }),
{
    lemma_kinds_differ();
    lemma_imports_end(s.before.entities, i);
    let w = op_work(s, &op, Work::none())->Ok_0;
    lemma_one_change(s, op, w.edits[0]);
}

/// An import that is there already is not added again: the file stays as it is.
pub proof fn law_an_import_is_not_doubled(s: Scene, op: Op, i: int, import: Seq<char>)
    requires
        op.text("op"@) == Some("add_import"@),
        op.text("import"@) == Some(import),
        0 <= i < s.before.entities.len(),
        s.before.entities[i].kind == "import"@,
        s.before.entities[i].signature == Some(trim_of(import)),
    ensures
        materialized(s, seq![op]) == Ok::<Seq<u8>, Fault>(s.src()),
{
    lemma_kinds_differ();
    lemma_one_op(s, op);
    let w = Work::none();
    let src = s.src();
    assert(crate::splice::arranged(w.edits) =~= Seq::empty());
    assert(crate::splice::all_within(Seq::empty(), src.len() as int));
    assert(crate::splice::edited(src, Seq::empty()) =~= src);
    assert(all_renamed(src, w.renames) == src);
}

proof fn lemma_tests_module(es: Seq<EntityView>, i: int)
    requires
        0 <= i < es.len(),
        es[i].kind == "mod"@ && ends(es[i].id, "tests"@),
        forall|k: int|
            0 <= k < i ==> !((#[trigger] es[k]).kind == "mod"@ && ends(es[k].id, "tests"@)),
    ensures
        tests_module(es) == i,
    decreases es.len(),
{
    let d = es.drop_last();
    assert forall|k: int| 0 <= k < i implies !((#[trigger] d[k]).kind == "mod"@ && ends(
        d[k].id,
        "tests"@,
    )) by {
        assert(d[k] == es[k]);
    }
    if i < es.len() - 1 {
        assert(d[i] == es[i]);
        lemma_tests_module(d, i);
    } else {
        lemma_no_tests_module(d);
    }
}

proof fn lemma_no_tests_module(es: Seq<EntityView>)
    requires
        forall|k: int|
            0 <= k < es.len() ==> !((#[trigger] es[k]).kind == "mod"@ && ends(es[k].id, "tests"@)),
    ensures
        tests_module(es) == es.len(),
    decreases es.len(),
{
    if es.len() > 0 {
        let d = es.drop_last();
        assert(!(es[es.len() - 1].kind == "mod"@ && ends(es[es.len() - 1].id, "tests"@)));
        assert forall|k: int| 0 <= k < d.len() implies !((#[trigger] d[k]).kind == "mod"@ && ends(
            d[k].id,
            "tests"@,
        )) by {
            assert(d[k] == es[k]);
        }
        lemma_no_tests_module(d);
    }
}

/// A new test of a rust file goes into the module of tests, as its last item: before the brace that
/// closes the module, with everything before and behind as it was.
pub proof fn law_a_test_joins_the_tests(
    s: Scene,
    op: Op,
    i: int,
    from: int,
    to: int,
    name: Seq<char>,
    code: Seq<char>,
)
    requires
        s.lang is Rust,
        op.text("op"@) == Some("add_test"@),
        op.text("name"@) == Some(name),
        op.text("code"@) == Some(code),
        lines_of(code).len() <= MAX_OP_LINES,
        0 <= i < s.before.entities.len(),
        s.before.entities[i].kind == "mod"@ && ends(s.before.entities[i].id, "tests"@),
        forall|k: int|
            0 <= k < i ==> !((#[trigger] s.before.entities[k]).kind == "mod"@ && ends(
                s.before.entities[k].id,
                "tests"@,
            )),
        s.before.entities[i].body == Some((from, to)),
        0 < to <= s.src().len(),
    ensures
        exists|ls: Seq<Seq<char>>| #[trigger]
            are_moved(code, ls, "        "@) && materialized(s, seq![op]) == Ok::<Seq<u8>, Fault>(
                s.src().take(to - 1) + encode_utf8(
                    "\n    #[test]\n    fn "@ + name + "() {\n"@ + join_of(ls, "\n"@) + "\n    }\n"@,
                ) + s.src().skip(to - 1),
            ),
{
    lemma_kinds_differ();
    lemma_tests_module(s.before.entities, i);
    law_indenting_only_moves_lines(code, "        "@);
    let w = op_work(s, &op, Work::none())->Ok_0;
    lemma_one_change(s, op, w.edits[0]);
}

/// Does a file end in some code, moved to an indentation, between a head and a tail, and is it up
/// to there as it was?
pub open spec fn comes_last(
    s: Scene,
    op: Op,
    code: Seq<char>,
    indent: Seq<char>,
    head: Seq<char>,
    tail: Seq<char>,
) -> bool {
    exists|ls: Seq<Seq<char>>| #[trigger]
        are_moved(code, ls, indent) && materialized(s, seq![op]) == Ok::<Seq<u8>, Fault>(
            s.src() + encode_utf8(head + join_of(ls, "\n"@) + tail),
        )
}

/// A new test where there is no module for it goes to the end of the file, and the file up to there
/// is as it was.
pub proof fn law_a_test_without_a_module_comes_last(
    s: Scene,
    op: Op,
    name: Seq<char>,
    code: Seq<char>,
)
    requires
        op.text("op"@) == Some("add_test"@),
        op.text("name"@) == Some(name),
        op.text("code"@) == Some(code),
        lines_of(code).len() <= MAX_OP_LINES,
        s.lang is Rust ==> forall|k: int|
            0 <= k < s.before.entities.len() ==> !((#[trigger] s.before.entities[k]).kind == "mod"@
                && ends(s.before.entities[k].id, "tests"@)),
    ensures
        s.lang is Rust ==> comes_last(
            s,
            op,
            code,
            "        "@,
            "\n#[cfg(test)]\nmod tests {\n    use super::*;\n\n    #[test]\n    fn "@ + name
                + "() {\n"@,
            "\n    }\n}\n"@,
        ),
        s.lang is Python ==> comes_last(
            s,
            op,
            code,
            "    "@,
            "\n\ndef "@ + name + "():\n"@,
            "\n"@,
        ),
        s.lang is TypeScript ==> comes_last(
            s,
            op,
            code,
            "  "@,
            "\n\nexport function "@ + name + "() {\n"@,
            "\n}\n"@,
        ),
{
    lemma_kinds_differ();
    if s.lang is Rust {
        lemma_no_tests_module(s.before.entities);
    }
    law_indenting_only_moves_lines(code, "        "@);
    law_indenting_only_moves_lines(code, "    "@);
    law_indenting_only_moves_lines(code, "  "@);
    let w = op_work(s, &op, Work::none())->Ok_0;
    let c = w.edits[0];
    lemma_one_change(s, op, c);
    assert(s.src().take(c.start) + c.text + s.src().skip(c.end) =~= s.src() + c.text);
}

/// A file with one word renamed throughout.
pub open spec fn renamed(src: Seq<u8>, from: Seq<u8>, to: Seq<u8>) -> Seq<u8> {
    renamed_from(src, 0, from, to)
}

/// Is this a word, as the bytes of an identifier spell one?
pub open spec fn is_spelled(w: Seq<u8>) -> bool {
    &&& w.len() > 0
    &&& first_byte(w[0])
    &&& forall|j: int| 0 <= j < w.len() ==> word_byte(#[trigger] w[j])
}

proof fn lemma_run(src: Seq<u8>, i: int)
    requires
        0 <= i <= src.len(),
    ensures
        i <= run_end(src, i) <= src.len(),
        forall|j: int| i <= j < run_end(src, i) ==> word_byte(#[trigger] src[j]),
        run_end(src, i) < src.len() ==> !word_byte(src[run_end(src, i)]),
    decreases src.len() - i,
{
    if i < src.len() && word_byte(src[i]) {
        lemma_run(src, i + 1);
    }
}

/// The run of word bytes at a place ends where the first other byte stands.
proof fn lemma_run_to(src: Seq<u8>, i: int, e: int)
    requires
        0 <= i <= e <= src.len(),
        forall|j: int| i <= j < e ==> word_byte(#[trigger] src[j]),
        e < src.len() ==> !word_byte(src[e]),
    ensures
        run_end(src, i) == e,
{
    lemma_run(src, i);
    let r = run_end(src, i);
    if r < e {
        assert(word_byte(src[r]));
    } else if e < r {
        assert(word_byte(src[e]));
    }
}

proof fn lemma_split(a: Seq<u8>, x: u8, b: Seq<u8>, i: int, from: Seq<u8>, to: Seq<u8>)
    requires
        !word_byte(x),
        0 <= i <= a.len(),
    ensures
        renamed_from(a + seq![x] + b, i, from, to) == renamed_from(a, i, from, to) + seq![x]
            + renamed_from(b, 0, from, to),
    decreases a.len() - i,
{
    let s = a + seq![x] + b;
    let tail = seq![x] + renamed(b, from, to);
    if i == a.len() {
        lemma_after(a + seq![x], b, 0, from, to);
        assert(s[i] == x);
        assert(renamed_from(s, i, from, to) == seq![x] + renamed_from(s, i + 1, from, to));
        assert(renamed_from(a, i, from, to) =~= Seq::<u8>::empty());
        assert(renamed_from(a, i, from, to) + seq![x] + renamed(b, from, to) =~= tail);
    } else if first_byte(a[i]) {
        lemma_run(a, i);
        lemma_run(a, i + 1);
        let e = run_end(a, i);
        assert(word_byte(a[i]));
        assert(s[i] == a[i]);
        assert forall|j: int| i <= j < e implies word_byte(#[trigger] s[j]) by {
            assert(s[j] == a[j]);
        }
        if e < a.len() {
            assert(s[e] == a[e]);
        } else {
            assert(s[e] == x);
        }
        lemma_run_to(s, i, e);
        assert(s.subrange(i, e) =~= a.subrange(i, e));
        lemma_split(a, x, b, e, from, to);
        let w = a.subrange(i, e);
        let head = if w == from {
            to
        } else {
            w
        };
        let rest = renamed_from(a, e, from, to);
        assert(renamed_from(a, i, from, to) == head + rest);
        assert(renamed_from(s, i, from, to) == head + renamed_from(s, e, from, to));
        assert(head + (rest + seq![x] + renamed(b, from, to)) =~= (head + rest) + seq![x] + renamed(
            b,
            from,
            to,
        ));
    } else {
        assert(s[i] == a[i]);
        lemma_split(a, x, b, i + 1, from, to);
        let rest = renamed_from(a, i + 1, from, to);
        assert(renamed_from(a, i, from, to) == seq![a[i]] + rest);
        assert(renamed_from(s, i, from, to) == seq![a[i]] + renamed_from(s, i + 1, from, to));
        assert(seq![a[i]] + (rest + seq![x] + renamed(b, from, to)) =~= (seq![a[i]] + rest) + seq![x]
            + renamed(b, from, to));
    }
}

/// What is before a place does not matter from there on.
proof fn lemma_after(a: Seq<u8>, b: Seq<u8>, i: int, from: Seq<u8>, to: Seq<u8>)
    requires
        0 <= i <= b.len(),
    ensures
        renamed_from(a + b, a.len() + i, from, to) == renamed_from(b, i, from, to),
    decreases b.len() - i,
{
    let s = a + b;
    let n = a.len() as int;
    if i < b.len() {
        assert(s[n + i] == b[i]);
        if first_byte(b[i]) {
            lemma_run(b, i);
            lemma_run(b, i + 1);
            let e = run_end(b, i);
            assert(word_byte(b[i]));
            assert forall|j: int| n + i <= j < n + e implies word_byte(#[trigger] s[j]) by {
                assert(s[j] == b[j - n]);
            }
            if e < b.len() {
                assert(s[n + e] == b[e]);
            }
            lemma_run_to(s, n + i, n + e);
            assert(s.subrange(n + i, n + e) =~= b.subrange(i, e));
            lemma_after(a, b, e, from, to);
        } else {
            lemma_after(a, b, i + 1, from, to);
        }
    }
}

/// Renaming goes word by word: a byte that is part of no word stays where it is, and what is before
/// it and behind it is renamed for itself.
pub proof fn law_renaming_goes_word_by_word(
    a: Seq<u8>,
    x: u8,
    b: Seq<u8>,
    from: Seq<u8>,
    to: Seq<u8>,
)
    requires
        !word_byte(x),
    ensures
        renamed(a + seq![x] + b, from, to) == renamed(a, from, to) + seq![x] + renamed(b, from, to),
{
    lemma_split(a, x, b, 0, from, to);
}

/// A word is renamed where it is the whole of it, and not where it is a part of a longer one.
pub proof fn law_only_the_whole_word_is_renamed(w: Seq<u8>, from: Seq<u8>, to: Seq<u8>)
    requires
        is_spelled(w),
    ensures
        renamed(w, from, to) == (if w == from {
            to
        } else {
            w
        }),
{
    let e = w.len() as int;
    lemma_run_to(w, 0, e);
    assert(w.subrange(0, e) =~= w);
    let rest = renamed_from(w, e, from, to);
    assert(rest =~= Seq::<u8>::empty());
    assert(to + rest =~= to);
    assert(w + rest =~= w);
}

/// A rename op renames, throughout the file, the last segment of the entity's id to the new name.
pub proof fn law_a_rename_renames_the_last_segment(
    s: Scene,
    op: Op,
    i: int,
    w: Seq<char>,
    kind: Seq<char>,
    scopes: Option<Seq<char>>,
)
    requires
        op.text("op"@) == Some("rename"@),
        op.text("entity"@) is Some,
        op.text("to"@) is Some,
        is_first(s.before.entities, op.text("entity"@)->0, i),
        is_identifier(w),
        s.sep.len() > 0,
        forall|j: int| 0 <= j < s.sep.len() ==> !is_word(#[trigger] s.sep[j]),
        is_last_segment(w, op.text("entity"@)->0, s.sep, kind, scopes),
    ensures
        materialized(s, seq![op]) == Ok::<Seq<u8>, Fault>(
            renamed(s.src(), encode_utf8(w), encode_utf8(trim_of(op.text("to"@)->0))),
        ),
{
    lemma_kinds_differ();
    lemma_find(s.before.entities, op.text("entity"@)->0, i);
    lemma_simple(w, op.text("entity"@)->0, s.sep, kind, scopes);
    lemma_one_op(s, op);
    let work = op_work(s, &op, Work::none())->Ok_0;
    let src = s.src();
    assert(work.edits =~= Seq::empty());
    assert(crate::splice::arranged(work.edits) =~= Seq::empty());
    assert(crate::splice::all_within(Seq::empty(), src.len() as int));
    assert(crate::splice::edited(src, Seq::empty()) =~= src);
    let r = work.renames;
    assert(r.drop_last() =~= Seq::empty());
    assert(all_renamed(src, r.drop_last()) == src);
}

} // verus!
