//! What each op does to a workbook: which cells it changes, and which it leaves alone.

use crate::adapter::Fault;
use crate::adapter::Field;
use crate::adapter::Op;
use crate::names::law_a_list_names_its_members;
use crate::names::listed;
use crate::sheets::cell::a1_of;
use crate::sheets::cell::parse_cell;
use crate::sheets::cell::CellView;
use crate::sheets::formula::reads_of;
use crate::sheets::workbook::after_op;
use crate::sheets::workbook::after_ops;
use crate::sheets::workbook::reworked;
use crate::sheets::workbook::row_moved;
use crate::sheets::workbook::rows_moved;
use crate::sheets::workbook::values_set;
use crate::sheets::workbook::WorkbookView;
use crate::text::begins;
use vstd::prelude::*;

verus! {

/// The sheet that a reference without one is on.
pub open spec fn home(w: WorkbookView) -> Seq<char> {
    if w.sheets.len() > 0 {
        w.sheets[0]
    } else {
        "Sheet1"@
    }
}

/// Does a reference name the cell that is stored under a key?
pub open spec fn names_key(sheet: Seq<char>, at: Seq<char>, key: Seq<char>) -> bool {
    parse_cell(sheet, at) matches Some(c) && a1_of(c) == key
}

proof fn lemma_kinds_differ()
    ensures
        ({
            let (a, b, c) = ("set_values"@, "set_formula"@, "insert_rows"@);
            let (d, e, f) = ("add_sheet"@, "define_name"@, "assert"@);
            &&& a != b && a != c && a != d && a != e && a != f
            &&& b != c && b != d && b != e && b != f
            &&& c != d && c != e && c != f
            &&& d != e && d != f
            &&& e != f
        }),
{
    reveal_strlit("set_values");
    reveal_strlit("set_formula");
    reveal_strlit("insert_rows");
    reveal_strlit("add_sheet");
    reveal_strlit("define_name");
    reveal_strlit("assert");
    assert("set_values"@.len() == 10);
    assert("set_formula"@.len() == 11 && "set_formula"@[0] == 's');
    assert("insert_rows"@.len() == 11 && "insert_rows"@[0] == 'i');
    assert("add_sheet"@.len() == 9);
    assert("define_name"@.len() == 11 && "define_name"@[0] == 'd');
    assert("assert"@.len() == 6);
}

proof fn lemma_one_op(op: Op, w: WorkbookView)
    ensures
        reworked(seq![op], w) == after_op(&op, home(w), w),
{
    let ops = seq![op];
    assert(ops.drop_last() =~= Seq::<Op>::empty());
    assert(after_ops(ops.drop_last(), home(w), w) == Ok::<WorkbookView, Fault>(w));
}

/// Does each entry of a table put a literal into a cell?
pub open spec fn are_literals(sheet: Seq<char>, t: Seq<(String, String)>) -> bool {
    forall|j: int|
        0 <= j < t.len() ==> parse_cell(sheet, (#[trigger] t[j]).0@) is Some && !begins(
            t[j].1@,
            "="@,
        )
}

proof fn lemma_kept(
    sheet: Seq<char>,
    t: Seq<(String, String)>,
    cells: Map<Seq<char>, Seq<char>>,
    key: Seq<char>,
    from: int,
)
    requires
        are_literals(sheet, t),
        0 <= from <= t.len(),
        forall|j: int| from <= j < t.len() ==> !names_key(sheet, (#[trigger] t[j]).0@, key),
    ensures
        values_set(sheet, t, cells) is Ok,
        values_set(sheet, t.take(from), cells) is Ok,
        ({
            let r = values_set(sheet, t, cells)->Ok_0;
            let was = values_set(sheet, t.take(from), cells)->Ok_0;
            r.dom().contains(key) == was.dom().contains(key) && r[key] == was[key]
        }),
    decreases t.len(),
{
    if t.len() > 0 {
        let d = t.drop_last();
        let m = t.len() - 1;
        assert(are_literals(sheet, d)) by {
            assert forall|j: int| 0 <= j < d.len() implies parse_cell(
                sheet,
                (#[trigger] d[j]).0@,
            ) is Some && !begins(d[j].1@, "="@) by {
                assert(d[j] == t[j]);
            }
        }
        assert(parse_cell(sheet, t[m].0@) is Some && !begins(t[m].1@, "="@));
        if from < t.len() {
            assert forall|j: int| from <= j < d.len() implies !names_key(
                sheet,
                (#[trigger] d[j]).0@,
                key,
            ) by {
                assert(d[j] == t[j]);
            }
            lemma_kept(sheet, d, cells, key, from);
            assert(d.take(from) =~= t.take(from));
            assert(!names_key(sheet, t[m].0@, key));
        } else {
            lemma_kept(sheet, d, cells, key, d.len() as int);
            assert(d.take(d.len() as int) =~= d);
            assert(t.take(from) =~= t);
        }
    } else {
        assert(t.take(from) =~= t);
    }
}

/// Setting values leaves alone what it does not name: such a cell is as it was, and so are sheets,
/// names and assertions.
pub proof fn law_setting_values_leaves_the_rest_alone(
    w: WorkbookView,
    op: Op,
    t: Vec<(String, String)>,
    key: Seq<char>,
)
    requires
        op.text("op"@) == Some("set_values"@),
        op.field("cells"@) == Some(Field::Table(t)),
        are_literals(home(w), t@),
        forall|j: int| 0 <= j < t@.len() ==> !names_key(home(w), (#[trigger] t@[j]).0@, key),
    ensures
        reworked(seq![op], w) matches Ok(r) && {
            &&& r.sheets == w.sheets && r.names == w.names && r.assertions == w.assertions
            &&& r.cells.dom().contains(key) == w.cells.dom().contains(key)
            &&& r.cells[key] == w.cells[key]
        },
{
    lemma_kinds_differ();
    lemma_one_op(op, w);
    lemma_kept(home(w), t@, w.cells, key, 0);
    assert(t@.take(0) =~= Seq::<(String, String)>::empty());
}

/// Setting values gives each cell that it names the last value that it has for it.
pub proof fn law_setting_values_sets_what_it_names(
    w: WorkbookView,
    op: Op,
    t: Vec<(String, String)>,
    key: Seq<char>,
    j: int,
)
    requires
        op.text("op"@) == Some("set_values"@),
        op.field("cells"@) == Some(Field::Table(t)),
        are_literals(home(w), t@),
        0 <= j < t@.len(),
        names_key(home(w), t@[j].0@, key),
        forall|k: int| j < k < t@.len() ==> !names_key(home(w), (#[trigger] t@[k]).0@, key),
    ensures
        reworked(seq![op], w) matches Ok(r) && r.cells.dom().contains(key) && r.cells[key]
            == t@[j].1@,
{
    lemma_kinds_differ();
    lemma_one_op(op, w);
    lemma_kept(home(w), t@, w.cells, key, j + 1);
    let n = t@.take(j + 1);
    assert(n.last() == t@[j]);
}

/// Setting a formula changes one cell: it holds the formula, behind an equals sign, and everything
/// else is as it was. A formula that does not parse is refused.
pub proof fn law_setting_a_formula_changes_one_cell(w: WorkbookView, op: Op, c: CellView)
    requires
        op.text("op"@) == Some("set_formula"@),
        op.text("cell"@) is Some,
        op.text("formula"@) is Some,
        parse_cell(home(w), op.text("cell"@)->0) == Some(c),
    ensures
        ({
            let f = op.text("formula"@)->0;
            let full = if begins(f, "="@) {
                f
            } else {
                "="@ + f
            };
            match reworked(seq![op], w) {
                Ok(r) => {
                    &&& reads_of(c.sheet, full, w.names) is Ok
                    &&& r.sheets == w.sheets && r.names == w.names && r.assertions == w.assertions
                    &&& r.cells == w.cells.insert(a1_of(c), full)
                },
                Err(_) => reads_of(c.sheet, full, w.names) is Err,
            }
        }),
{
    lemma_kinds_differ();
    lemma_one_op(op, w);
}

/// The key of a cell after some rows come in above it.
pub open spec fn down(c: CellView, count: nat) -> Seq<char> {
    a1_of(CellView { sheet: c.sheet, col: c.col, row: c.row + count })
}

/// Does a stored cell go down when rows come in?
pub open spec fn goes_down(sheet: Seq<char>, target: Seq<char>, at: nat, key: Seq<char>) -> bool {
    parse_cell(sheet, key) matches Some(c) && c.sheet == target && c.row >= at
}

/// Where a stored cell is when rows have come in.
pub open spec fn place_after(
    sheet: Seq<char>,
    target: Seq<char>,
    at: nat,
    count: nat,
    key: Seq<char>,
) -> Seq<char> {
    if goes_down(sheet, target, at, key) {
        down(parse_cell(sheet, key)->0, count)
    } else {
        key
    }
}

proof fn lemma_rows(
    sheet: Seq<char>,
    target: Seq<char>,
    at: nat,
    count: nat,
    cells: Map<Seq<char>, Seq<char>>,
    ks: Seq<Seq<char>>,
)
    requires
        forall|i: int|
            0 <= i < ks.len() && #[trigger] goes_down(sheet, target, at, ks[i]) ==> parse_cell(
                sheet,
                ks[i],
            )->0.row + count < 0x1_0000_0000,
        forall|i: int, j: int|
            0 <= i < ks.len() && 0 <= j < ks.len() && #[trigger] place_after(
                sheet,
                target,
                at,
                count,
                ks[i],
            ) == #[trigger] place_after(sheet, target, at, count, ks[j]) ==> ks[i] == ks[j],
    ensures
        ({
            let r = rows_moved(sheet, target, at, count, cells, ks);
            &&& forall|i: int|
                #![trigger ks[i]]
                0 <= i < ks.len() ==> r.dom().contains(
                    place_after(sheet, target, at, count, ks[i]),
                ) && r[place_after(sheet, target, at, count, ks[i])] == cells[ks[i]]
            &&& forall|x: Seq<char>| #[trigger]
                r.dom().contains(x) ==> exists|i: int|
                    0 <= i < ks.len() && #[trigger] place_after(sheet, target, at, count, ks[i])
                        == x
        }),
    decreases ks.len(),
{
    if ks.len() > 0 {
        let d = ks.drop_last();
        let m = ks.len() - 1;
        assert forall|i: int| 0 <= i < d.len() && #[trigger] goes_down(sheet, target, at, d[i]) implies parse_cell(
            sheet, d[i])->0.row + count < 0x1_0000_0000 by {
            assert(d[i] == ks[i]);
            assert(goes_down(sheet, target, at, ks[i]));
        }
        assert forall|i: int, j: int|
            0 <= i < d.len() && 0 <= j < d.len() && #[trigger] place_after(
                sheet,
                target,
                at,
                count,
                d[i],
            ) == #[trigger] place_after(sheet, target, at, count, d[j]) implies d[i] == d[j] by {
            assert(d[i] == ks[i] && d[j] == ks[j]);
        }
        lemma_rows(sheet, target, at, count, cells, d);
        let rest = rows_moved(sheet, target, at, count, cells, d);
        let r = rows_moved(sheet, target, at, count, cells, ks);
        let last = place_after(sheet, target, at, count, ks[m]);
        assert(row_moved(sheet, target, at, count, ks[m]) == last) by {
            if goes_down(sheet, target, at, ks[m]) {
                let row = parse_cell(sheet, ks[m])->0.row + count;
                assert(row % 0x1_0000_0000 == row);
            }
        }
        assert(r == rest.insert(last, cells[ks[m]]));
        assert forall|i: int|
            #![trigger ks[i]]
            0 <= i < ks.len() implies r.dom().contains(
            place_after(sheet, target, at, count, ks[i]),
        ) && r[place_after(sheet, target, at, count, ks[i])] == cells[ks[i]] by {
            if i < m {
                assert(d[i] == ks[i]);
                if place_after(sheet, target, at, count, ks[i]) == last {
                    assert(ks[i] == ks[m]);
                }
            }
        }
        assert forall|x: Seq<char>| #[trigger] r.dom().contains(x) implies exists|i: int|
            0 <= i < ks.len() && #[trigger] place_after(sheet, target, at, count, ks[i]) == x by {
            if x == last {
                assert(place_after(sheet, target, at, count, ks[m]) == x);
            } else {
                assert(rest.dom().contains(x));
                let i = choose|i: int|
                    0 <= i < d.len() && #[trigger] place_after(sheet, target, at, count, d[i]) == x;
                assert(place_after(sheet, target, at, count, ks[i]) == x);
            }
        }
    }
}

/// Are the cells those of another table, each where it is when rows have come in?
pub open spec fn are_pushed(
    sheet: Seq<char>,
    target: Seq<char>,
    at: nat,
    count: nat,
    cells: Map<Seq<char>, Seq<char>>,
    r: Map<Seq<char>, Seq<char>>,
) -> bool {
    &&& forall|k: Seq<char>| #[trigger]
        cells.dom().contains(k) ==> {
            let to = place_after(sheet, target, at, count, k);
            r.dom().contains(to) && r[to] == cells[k]
        }
    &&& forall|x: Seq<char>| #[trigger]
        r.dom().contains(x) ==> exists|k: Seq<char>| #[trigger]
            cells.dom().contains(k) && place_after(sheet, target, at, count, k) == x
}

/// Can rows come in so that no two cells end up in one place and no row runs past 32 bits?
pub open spec fn can_come_in(
    sheet: Seq<char>,
    target: Seq<char>,
    at: nat,
    count: nat,
    cells: Map<Seq<char>, Seq<char>>,
) -> bool {
    &&& forall|k: Seq<char>|
        cells.dom().contains(k) && #[trigger] goes_down(sheet, target, at, k) ==> parse_cell(
            sheet,
            k,
        )->0.row + count < 0x1_0000_0000
    &&& forall|k: Seq<char>, l: Seq<char>|
        cells.dom().contains(k) && cells.dom().contains(l) && #[trigger] place_after(
            sheet,
            target,
            at,
            count,
            k,
        ) == #[trigger] place_after(sheet, target, at, count, l) ==> k == l
}

proof fn lemma_pushed(
    sheet: Seq<char>,
    target: Seq<char>,
    at: nat,
    count: nat,
    cells: Map<Seq<char>, Seq<char>>,
)
    requires
        cells.dom().finite(),
        can_come_in(sheet, target, at, count, cells),
    ensures
        are_pushed(
            sheet,
            target,
            at,
            count,
            cells,
            rows_moved(sheet, target, at, count, cells, listed(cells.dom())),
        ),
{
    let ks = listed(cells.dom());
    law_a_list_names_its_members(cells.dom());
    assert forall|i: int| 0 <= i < ks.len() implies cells.dom().contains(#[trigger] ks[i]) by {
        assert(ks.contains(ks[i]));
    }
    lemma_rows(sheet, target, at, count, cells, ks);
    let r = rows_moved(sheet, target, at, count, cells, ks);
    assert forall|k: Seq<char>| #[trigger] cells.dom().contains(k) implies ({
        let to = place_after(sheet, target, at, count, k);
        r.dom().contains(to) && r[to] == cells[k]
    }) by {
        assert(ks.contains(k));
        let i = choose|i: int| 0 <= i < ks.len() && ks[i] == k;
        assert(ks[i] == k);
    }
    assert forall|x: Seq<char>| #[trigger] r.dom().contains(x) implies exists|k: Seq<char>| #[trigger]
        cells.dom().contains(k) && place_after(sheet, target, at, count, k) == x by {
        let i = choose|i: int|
            0 <= i < ks.len() && #[trigger] place_after(sheet, target, at, count, ks[i]) == x;
        assert(cells.dom().contains(ks[i]));
    }
}

/// Rows that come in push down what stands at their place or below, on their sheet, by as many rows
/// as come in, and leave every other cell where it is. No cell is lost or changed, and none is made.
pub proof fn law_rows_push_down_what_is_below(
    w: WorkbookView,
    op: Op,
    target: Seq<char>,
    at: u64,
    count: u64,
)
    requires
        op.text("op"@) == Some("insert_rows"@),
        op.whole("at"@) == Some(at),
        op.whole("count"@) == Some(count),
        target == match op.text("sheet"@) {
            Some(s) => s,
            None => home(w),
        },
        at < 0x1_0000_0000,
        count < 0x1_0000_0000,
        w.cells.dom().finite(),
        can_come_in(home(w), target, at as nat, count as nat, w.cells),
    ensures
        reworked(seq![op], w) matches Ok(r) && {
            &&& r.sheets == w.sheets && r.names == w.names && r.assertions == w.assertions
            &&& are_pushed(home(w), target, at as nat, count as nat, w.cells, r.cells)
        },
{
    lemma_kinds_differ();
    lemma_one_op(op, w);
    let (a, n) = (at as nat, count as nat);
    assert(a % 0x1_0000_0000 == a && n % 0x1_0000_0000 == n);
    lemma_pushed(home(w), target, a, n, w.cells);
}

/// A new sheet comes last and changes nothing else; a name that is taken is refused.
pub proof fn law_a_new_sheet_comes_last(w: WorkbookView, op: Op)
    requires
        op.text("op"@) == Some("add_sheet"@),
        op.text("name"@) is Some,
    ensures
        match reworked(seq![op], w) {
            Ok(r) => {
                &&& forall|i: int|
                    0 <= i < w.sheets.len() ==> #[trigger] w.sheets[i] != op.text("name"@)->0
                &&& r.sheets == w.sheets + seq![op.text("name"@)->0]
                &&& r.cells == w.cells && r.names == w.names && r.assertions == w.assertions
            },
            Err(_) => exists|i: int|
                0 <= i < w.sheets.len() && #[trigger] w.sheets[i] == op.text("name"@)->0,
        },
{
    lemma_kinds_differ();
    lemma_one_op(op, w);
    if reworked(seq![op], w) is Ok {
        assert(w.sheets.push(op.text("name"@)->0) =~= w.sheets + seq![op.text("name"@)->0]);
    }
}

/// A name that is defined stands for what it was last defined as; the other names stay.
pub proof fn law_defining_a_name_changes_one_name(w: WorkbookView, op: Op)
    requires
        op.text("op"@) == Some("define_name"@),
        op.text("name"@) is Some,
        op.text("ref"@) is Some,
    ensures
        reworked(seq![op], w) matches Ok(r) && {
            &&& r.names == w.names.insert(op.text("name"@)->0, op.text("ref"@)->0)
            &&& r.sheets == w.sheets && r.cells == w.cells && r.assertions == w.assertions
        },
{
    lemma_kinds_differ();
    lemma_one_op(op, w);
}

/// An assertion is kept once: a new one comes last, and one that is there already changes nothing.
pub proof fn law_an_assertion_is_kept_once(w: WorkbookView, op: Op)
    requires
        op.text("op"@) == Some("assert"@),
        op.text("expression"@) is Some,
    ensures
        reworked(seq![op], w) matches Ok(r) && {
            let x = op.text("expression"@)->0;
            &&& r.assertions == if w.assertions.contains(x) {
                w.assertions
            } else {
                w.assertions + seq![x]
            }
            &&& r.sheets == w.sheets && r.cells == w.cells && r.names == w.names
        },
{
    lemma_kinds_differ();
    lemma_one_op(op, w);
    let x = op.text("expression"@)->0;
    assert(w.assertions.push(x) =~= w.assertions + seq![x]);
}

} // verus!
