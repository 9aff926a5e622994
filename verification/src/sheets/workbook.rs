//! The workbook: what is stored, the grid it makes, and the ops that change it.

use crate::adapter::bad_op;
use crate::adapter::AdapterError;
use crate::adapter::Fault;
use crate::adapter::Field;
use crate::adapter::Op;
use crate::maps::NameMap;
use crate::names::lemma_listed;
use crate::names::listed;
use crate::sheets::cell::a1_of;
use crate::sheets::cell::parse_cell;
use crate::sheets::cell::CellRef;
use crate::sheets::cell::CellView;
use crate::sheets::formula::dependencies;
use crate::sheets::formula::name_texts;
use crate::sheets::formula::reads_of;
use crate::sheets::recalc::keys;
use crate::sheets::recalc::law_placing_changes_one_cell;
use crate::sheets::recalc::placed;
use crate::sheets::recalc::Cell;
use crate::sheets::recalc::Grid;
use crate::sheets::recalc::Held;
use crate::text::begins;
use crate::text::copy_strings;
use crate::text::same;
use crate::text::starts_with;
use crate::text::texts;
use vstd::prelude::*;

verus! {

/// A workbook.
pub struct Workbook {
    pub sheets: Vec<String>,
    /// "Sheet1!A1" to a literal or "=formula".
    pub cells: NameMap<String>,
    /// Defined names: "revenue" to "Sheet1!A1:A12".
    pub names: NameMap<String>,
    /// Assertions the planner writes, checked at rung 2.
    pub assertions: Vec<String>,
}

/// What a workbook holds.
#[verifier::ext_equal]
pub struct WorkbookView {
    pub sheets: Seq<Seq<char>>,
    pub cells: Map<Seq<char>, Seq<char>>,
    pub names: Map<Seq<char>, Seq<char>>,
    pub assertions: Seq<Seq<char>>,
}

impl View for Workbook {
    type V = WorkbookView;

    open spec fn view(&self) -> WorkbookView {
        WorkbookView {
            sheets: texts(self.sheets@),
            cells: name_texts(self.cells),
            names: name_texts(self.names),
            assertions: texts(self.assertions@),
        }
    }
}

/// What a stored text puts into its cell: a formula where it opens with `=`, else a literal.
pub open spec fn content(raw: Seq<char>) -> Held {
    if begins(raw, "="@) {
        Held::Formula(raw)
    } else {
        Held::Literal(raw)
    }
}

impl WorkbookView {
    /// The first sheet, or `Sheet1`.
    pub open spec fn default_sheet(self) -> Seq<char> {
        if self.sheets.len() > 0 {
            self.sheets[0]
        } else {
            "Sheet1"@
        }
    }

    /// The entries that some stored cells make; a key that names no cell makes none, and of two
    /// keys for one cell the later counts.
    pub open spec fn filled(self, ks: Seq<Seq<char>>) -> Seq<(CellView, Held)>
        decreases ks.len(),
    {
        if ks.len() == 0 {
            Seq::empty()
        } else {
            let rest = self.filled(ks.drop_last());
            match parse_cell(self.default_sheet(), ks.last()) {
                Some(c) => placed(rest, c, content(self.cells[ks.last()])),
                None => rest,
            }
        }
    }

    /// The grid.
    pub open spec fn grid(self) -> Seq<(CellView, Held)> {
        self.filled(listed(self.cells.dom()))
    }
}

/// The names of a map in order are the list of its domain.
pub proof fn lemma_names_listed(m: NameMap<String>)
    requires
        m.wf(),
    ensures
        listed(name_texts(m).dom()) == m.names(),
{
    assert forall|x: Seq<char>| #[trigger] m.names().contains(x) <==> name_texts(
        m,
    ).dom().contains(x) by {}
    lemma_listed(m.names(), name_texts(m).dom());
}

/// A copy of a map of texts.
pub fn copy_names(m: &NameMap<String>) -> (r: NameMap<String>)
    requires
        m.wf(),
    ensures
        r.wf(),
        r@ == m@,
        name_texts(r) == name_texts(*m),
{
    let mut entries: Vec<(String, String)> = Vec::new();
    let mut i: usize = 0;
    while i < m.entries.len()
        invariant
            i <= m.entries@.len(),
            entries@ == m.entries@.take(i as int),
        decreases m.entries@.len() - i,
    {
        let e = &m.entries[i];
        entries.push((e.0.clone(), e.1.clone()));
        assert(m.entries@.take(i + 1) =~= m.entries@.take(i as int).push(m.entries@[i as int]));
        i += 1;
    }
    assert(m.entries@.take(i as int) =~= m.entries@);
    NameMap { entries }
}

/// Puts a text under a name.
pub fn put_text(m: &mut NameMap<String>, name: String, value: String)
    requires
        old(m).wf(),
    ensures
        final(m).wf(),
        name_texts(*final(m)) == name_texts(*old(m)).insert(name@, value@),
{
    let ghost was = *m;
    let ghost (n, v) = (name@, value@);
    m.insert(name, value);
    assert(name_texts(*m) =~= name_texts(was).insert(n, v));
}

impl Workbook {
    /// Are the cells and the names in order?
    pub open spec fn wf(&self) -> bool {
        self.cells.wf() && self.names.wf()
    }

    /// The first sheet, or `Sheet1`.
    pub fn default_sheet(&self) -> (r: &str)
        ensures
            r@ == self@.default_sheet(),
    {
        if self.sheets.len() > 0 {
            assert(self@.sheets[0] == self.sheets@[0]@);
            self.sheets[0].as_str()
        } else {
            "Sheet1"
        }
    }

    /// A copy.
    pub fn copy(&self) -> (r: Workbook)
        requires
            self.wf(),
        ensures
            r.wf(),
            r@ == self@,
    {
        Workbook {
            sheets: copy_strings(&self.sheets),
            cells: copy_names(&self.cells),
            names: copy_names(&self.names),
            assertions: copy_strings(&self.assertions),
        }
    }

    /// The typed grid that the evaluator works on.
    pub fn grid(&self) -> (r: Grid)
        requires
            self.wf(),
        ensures
            r.wf(),
            r@ == self@.grid(),
    {
        let mut grid = Grid::new();
        let ghost ks = self.cells.names();
        let ghost w = self@;
        let mut i: usize = 0;
        assert(w.filled(ks.take(0)) =~= Seq::<(CellView, Held)>::empty());
        while i < self.cells.entries.len()
            invariant
                i <= self.cells.entries@.len(),
                self.wf(),
                ks == self.cells.names(),
                w == self@,
                grid.wf(),
                grid@ == w.filled(ks.take(i as int)),
            decreases self.cells.entries@.len() - i,
        {
            let e = &self.cells.entries[i];
            proof {
                let nn = ks.take(i + 1);
                assert(nn.drop_last() =~= ks.take(i as int));
                self.cells.lemma_at(i as int);
                assert(nn.last() == e.0@);
                assert(w.cells[e.0@] == e.1@);
            }
            if let Some(at) = CellRef::parse(self.default_sheet(), e.0.as_str()) {
                let raw = e.1.clone();
                let cell = if starts_with(raw.as_str(), "=") {
                    Cell::Formula(raw)
                } else {
                    Cell::Literal(raw)
                };
                grid.insert(at, cell);
            }
            i += 1;
        }
        proof {
            assert(ks.take(i as int) =~= ks);
            lemma_names_listed(self.cells);
        }
        grid
    }

    /// The defined names.
    pub fn name_map(&self) -> (r: NameMap<String>)
        requires
            self.wf(),
        ensures
            r.wf(),
            name_texts(r) == self@.names,
    {
        copy_names(&self.names)
    }
}

/// The cell that a text names, or the fault that it names none.
pub open spec fn cell_named(sheet: Seq<char>, at: Seq<char>) -> Result<CellView, Fault> {
    match parse_cell(sheet, at) {
        Some(c) => Ok(c),
        None => Err(Fault::BadOp(at + " is not a cell reference"@)),
    }
}

fn name_cell(sheet: &str, at: &str) -> (r: Result<CellRef, AdapterError>)
    ensures
        match r {
            Ok(c) => cell_named(sheet@, at@) == Ok::<CellView, Fault>(c@),
            Err(e) => cell_named(sheet@, at@) == Err::<CellView, Fault>(e@),
        },
{
    match CellRef::parse(sheet, at) {
        Some(c) => Ok(c),
        None => {
            let mut m = at.to_owned();
            m.push_str(" is not a cell reference");
            Err(AdapterError::BadOp(m))
        },
    }
}

/// The cells after a table of literals is set.
pub open spec fn values_set(
    sheet: Seq<char>,
    table: Seq<(String, String)>,
    cells: Map<Seq<char>, Seq<char>>,
) -> Result<Map<Seq<char>, Seq<char>>, Fault>
    decreases table.len(),
{
    if table.len() == 0 {
        Ok(cells)
    } else {
        match values_set(sheet, table.drop_last(), cells) {
            Err(e) => Err(e),
            Ok(sofar) => match cell_named(sheet, table.last().0@) {
                Err(e) => Err(e),
                Ok(c) => if begins(table.last().1@, "="@) {
                    Err(
                        Fault::BadOp("set_values takes literals; use set_formula for formulas"@),
                    )
                } else {
                    Ok(sofar.insert(a1_of(c), table.last().1@))
                },
            },
        }
    }
}

proof fn lemma_values_fault(
    sheet: Seq<char>,
    table: Seq<(String, String)>,
    cells: Map<Seq<char>, Seq<char>>,
    n: int,
)
    requires
        0 <= n <= table.len(),
        values_set(sheet, table.take(n), cells) is Err,
    ensures
        values_set(sheet, table, cells) == values_set(sheet, table.take(n), cells),
    decreases table.len(),
{
    if n == table.len() {
        assert(table.take(n) =~= table);
    } else {
        assert(table.drop_last().take(n) =~= table.take(n));
        lemma_values_fault(sheet, table.drop_last(), cells, n);
    }
}

/// A formula with its equals sign.
pub open spec fn with_equals(f: Seq<char>) -> Seq<char> {
    if begins(f, "="@) {
        f
    } else {
        "="@ + f
    }
}

/// A formula with its equals sign.
pub fn put_equals(f: &str) -> (r: String)
    ensures
        r@ == with_equals(f@),
{
    if starts_with(f, "=") {
        f.to_owned()
    } else {
        let mut t = "=".to_owned();
        t.push_str(f);
        t
    }
}

/// Some stored cells after rows come in: a cell of the sheet at or below the place goes down, and
/// any other stays.
pub open spec fn rows_moved(
    sheet: Seq<char>,
    target: Seq<char>,
    at: nat,
    count: nat,
    cells: Map<Seq<char>, Seq<char>>,
    ks: Seq<Seq<char>>,
) -> Map<Seq<char>, Seq<char>>
    decreases ks.len(),
{
    if ks.len() == 0 {
        Map::empty()
    } else {
        let rest = rows_moved(sheet, target, at, count, cells, ks.drop_last());
        rest.insert(row_moved(sheet, target, at, count, ks.last()), cells[ks.last()])
    }
}

/// Where a stored cell goes when rows come in. Rows are kept to 32 bits.
pub open spec fn row_moved(
    sheet: Seq<char>,
    target: Seq<char>,
    at: nat,
    count: nat,
    key: Seq<char>,
) -> Seq<char> {
    match parse_cell(sheet, key) {
        Some(c) => if c.sheet == target && c.row >= at {
            a1_of(CellView { sheet: c.sheet, col: c.col, row: (c.row + count) % 0x1_0000_0000 })
        } else {
            key
        },
        None => key,
    }
}

/// The workbook after a `set_values` op.
pub open spec fn set_values(op: &Op, sheet: Seq<char>, w: WorkbookView) -> Result<
    WorkbookView,
    Fault,
> {
    match op.field("cells"@) {
        Some(Field::Table(t)) => match values_set(sheet, t@, w.cells) {
            Ok(cells) => Ok(WorkbookView { cells, ..w }),
            Err(e) => Err(e),
        },
        _ => Err(Fault::BadOp("set_values needs a cells map"@)),
    }
}

/// The workbook after a `set_formula` op. A formula that does not parse is refused before it
/// reaches the workbook: it would poison every recalculation that reads its cell.
pub open spec fn set_formula(op: &Op, sheet: Seq<char>, w: WorkbookView) -> Result<
    WorkbookView,
    Fault,
> {
    match op.demand("cell"@) {
        Err(e) => Err(e),
        Ok(at) => match op.demand("formula"@) {
            Err(e) => Err(e),
            Ok(f) => match cell_named(sheet, at) {
                Err(e) => Err(e),
                Ok(c) => match reads_of(c.sheet, with_equals(f), w.names) {
                    Err(e) => Err(Fault::BadOp("formula does not parse: "@ + e)),
                    Ok(v) => Ok(
                        WorkbookView { cells: w.cells.insert(a1_of(c), with_equals(f)), ..w },
                    ),
                },
            },
        },
    }
}

/// The workbook after an `insert_rows` op.
pub open spec fn insert_rows(op: &Op, sheet: Seq<char>, w: WorkbookView) -> Result<
    WorkbookView,
    Fault,
> {
    match op.whole("at"@) {
        None => Err(Fault::BadOp("insert_rows needs `at`"@)),
        Some(at) => match op.whole("count"@) {
            None => Err(Fault::BadOp("insert_rows needs `count`"@)),
            Some(count) => {
                let target = match op.text("sheet"@) {
                    Some(s) => s,
                    None => sheet,
                };
                Ok(
                    WorkbookView {
                        cells: rows_moved(
                            sheet,
                            target,
                            at as nat % 0x1_0000_0000,
                            count as nat % 0x1_0000_0000,
                            w.cells,
                            listed(w.cells.dom()),
                        ),
                        ..w
                    },
                )
            },
        },
    }
}

/// The workbook after an `add_sheet` op.
pub open spec fn add_sheet(op: &Op, w: WorkbookView) -> Result<WorkbookView, Fault> {
    match op.demand("name"@) {
        Err(e) => Err(e),
        Ok(name) => if w.sheets.contains(name) {
            Err(Fault::BadOp("sheet "@ + name + " already exists"@))
        } else {
            Ok(WorkbookView { sheets: w.sheets.push(name), ..w })
        },
    }
}

/// The workbook after a `define_name` op.
pub open spec fn define_name(op: &Op, w: WorkbookView) -> Result<WorkbookView, Fault> {
    match op.demand("name"@) {
        Err(e) => Err(e),
        Ok(name) => match op.demand("ref"@) {
            Err(e) => Err(e),
            Ok(target) => Ok(WorkbookView { names: w.names.insert(name, target), ..w }),
        },
    }
}

/// The workbook after an `assert` op.
pub open spec fn add_assertion(op: &Op, w: WorkbookView) -> Result<WorkbookView, Fault> {
    match op.demand("expression"@) {
        Err(e) => Err(e),
        Ok(x) => if w.assertions.contains(x) {
            Ok(w)
        } else {
            Ok(WorkbookView { assertions: w.assertions.push(x), ..w })
        },
    }
}

/// The workbook after one op. References without a sheet are on `sheet`.
pub open spec fn after_op(op: &Op, sheet: Seq<char>, w: WorkbookView) -> Result<
    WorkbookView,
    Fault,
> {
    match op.text("op"@) {
        None => Err(Fault::BadOp("unknown op "@ + "<missing>"@)),
        Some(k) => if k == "set_values"@ {
            set_values(op, sheet, w)
        } else if k == "set_formula"@ {
            set_formula(op, sheet, w)
        } else if k == "insert_rows"@ {
            insert_rows(op, sheet, w)
        } else if k == "add_sheet"@ {
            add_sheet(op, w)
        } else if k == "define_name"@ {
            define_name(op, w)
        } else if k == "assert"@ {
            add_assertion(op, w)
        } else {
            Err(Fault::BadOp("unknown op "@ + k))
        },
    }
}

/// The workbook after a run of ops, or the fault of the first op that is refused.
pub open spec fn after_ops(ops: Seq<Op>, sheet: Seq<char>, w: WorkbookView) -> Result<
    WorkbookView,
    Fault,
>
    decreases ops.len(),
{
    if ops.len() == 0 {
        Ok(w)
    } else {
        match after_ops(ops.drop_last(), sheet, w) {
            Err(e) => Err(e),
            Ok(sofar) => after_op(&ops.last(), sheet, sofar),
        }
    }
}

/// The workbook that a batch of ops makes. References without a sheet are on the sheet that came
/// first before the batch.
pub open spec fn reworked(ops: Seq<Op>, w: WorkbookView) -> Result<WorkbookView, Fault> {
    if ops.len() == 0 {
        Err(Fault::BadOp("empty op batch"@))
    } else {
        after_ops(ops, w.default_sheet(), w)
    }
}

proof fn lemma_first_fault(ops: Seq<Op>, sheet: Seq<char>, w: WorkbookView, n: int)
    requires
        0 <= n <= ops.len(),
        after_ops(ops.take(n), sheet, w) is Err,
    ensures
        after_ops(ops, sheet, w) == after_ops(ops.take(n), sheet, w),
    decreases ops.len(),
{
    if n == ops.len() {
        assert(ops.take(n) =~= ops);
    } else {
        assert(ops.drop_last().take(n) =~= ops.take(n));
        lemma_first_fault(ops.drop_last(), sheet, w, n);
    }
}

fn do_set_values(op: &Op, sheet: &str, wb: Workbook) -> (r: Result<Workbook, AdapterError>)
    requires
        wb.wf(),
    ensures
        match r {
            Ok(n) => n.wf() && set_values(op, sheet@, wb@) == Ok::<WorkbookView, Fault>(n@),
            Err(e) => set_values(op, sheet@, wb@) == Err::<WorkbookView, Fault>(e@),
        },
{
    let ghost w = wb@;
    let mut now = wb;
    match op.get("cells") {
        Some(Field::Table(t)) => {
            let mut i: usize = 0;
            assert(t@.take(0) =~= Seq::<(String, String)>::empty());
            while i < t.len()
                invariant
                    i <= t@.len(),
                    now.wf(),
                    w == wb@,
                    op.field("cells"@) == Some(Field::Table(*t)),
                    values_set(sheet@, t@.take(i as int), w.cells) == Ok::<
                        Map<Seq<char>, Seq<char>>,
                        Fault,
                    >(now@.cells),
                    now@ == (WorkbookView { cells: now@.cells, ..w }),
                decreases t@.len() - i,
            {
                let ghost nn = t@.take(i + 1);
                assert(nn.drop_last() =~= t@.take(i as int));
                assert(nn.last() == t@[i as int]);
                let e = &t[i];
                let c = match name_cell(sheet, e.0.as_str()) {
                    Ok(c) => c,
                    Err(x) => {
                        proof {
                            lemma_values_fault(sheet@, t@, w.cells, i + 1);
                        }
                        return Err(x);
                    },
                };
                if starts_with(e.1.as_str(), "=") {
                    proof {
                        lemma_values_fault(sheet@, t@, w.cells, i + 1);
                    }
                    return Err(bad_op("set_values takes literals; use set_formula for formulas"));
                }
                let ghost mid = now@;
                let key = c.a1();
                put_text(&mut now.cells, key, e.1.clone());
                assert(now@ =~= (WorkbookView { cells: now@.cells, ..mid }));
                i += 1;
            }
            assert(t@.take(i as int) =~= t@);
            Ok(now)
        },
        _ => Err(bad_op("set_values needs a cells map")),
    }
}

fn do_set_formula(op: &Op, sheet: &str, wb: Workbook) -> (r: Result<Workbook, AdapterError>)
    requires
        wb.wf(),
    ensures
        match r {
            Ok(n) => n.wf() && set_formula(op, sheet@, wb@) == Ok::<WorkbookView, Fault>(n@),
            Err(e) => set_formula(op, sheet@, wb@) == Err::<WorkbookView, Fault>(e@),
        },
{
    let mut wb = wb;
    let ghost w = wb@;
    let at = op.str_field("cell")?;
    let f = op.str_field("formula")?;
    let c = name_cell(sheet, at)?;
    let text = put_equals(f);
    match dependencies(c.sheet.as_str(), text.as_str(), &wb.names) {
        Ok(_) => {},
        Err(e) => {
            let mut m = "formula does not parse: ".to_owned();
            m.push_str(e.as_str());
            return Err(AdapterError::BadOp(m));
        },
    }
    let key = c.a1();
    put_text(&mut wb.cells, key, text);
    assert(wb@ =~= (WorkbookView { cells: w.cells.insert(a1_of(c@), with_equals(f@)), ..w }));
    Ok(wb)
}

fn do_insert_rows(op: &Op, sheet: &str, wb: Workbook) -> (r: Result<Workbook, AdapterError>)
    requires
        wb.wf(),
    ensures
        match r {
            Ok(n) => n.wf() && insert_rows(op, sheet@, wb@) == Ok::<WorkbookView, Fault>(n@),
            Err(e) => insert_rows(op, sheet@, wb@) == Err::<WorkbookView, Fault>(e@),
        },
{
    let mut wb = wb;
    let ghost w = wb@;
    let at: u64 = match op.opt_whole("at") {
        Some(n) => n % 0x1_0000_0000u64,
        None => {
            return Err(bad_op("insert_rows needs `at`"));
        },
    };
    let count: u64 = match op.opt_whole("count") {
        Some(n) => n % 0x1_0000_0000u64,
        None => {
            return Err(bad_op("insert_rows needs `count`"));
        },
    };
    let target = match op.opt_str("sheet") {
        Some(s) => s,
        None => sheet,
    };
    let mut moved: NameMap<String> = NameMap::empty();
    let ghost ks = wb.cells.names();
    let mut i: usize = 0;
    assert(name_texts(moved) =~= Map::<Seq<char>, Seq<char>>::empty());
    while i < wb.cells.entries.len()
        invariant
            i <= wb.cells.entries@.len(),
            wb.wf(),
            w == wb@,
            ks == wb.cells.names(),
            at < 0x1_0000_0000,
            count < 0x1_0000_0000,
            moved.wf(),
            name_texts(moved) == rows_moved(
                sheet@,
                target@,
                at as nat,
                count as nat,
                w.cells,
                ks.take(i as int),
            ),
        decreases wb.cells.entries@.len() - i,
    {
        let e = &wb.cells.entries[i];
        proof {
            let nn = ks.take(i + 1);
            assert(nn.drop_last() =~= ks.take(i as int));
            wb.cells.lemma_at(i as int);
            assert(nn.last() == e.0@);
            assert(w.cells[e.0@] == e.1@);
        }
        let key = match CellRef::parse(sheet, e.0.as_str()) {
            Some(c) => {
                if same(c.sheet.as_str(), target) && c.row as u64 >= at {
                    let down: u64 = (c.row as u64 + count) % 0x1_0000_0000u64;
                    let n = CellRef { sheet: c.sheet, col: c.col, row: down as u32 };
                    n.a1()
                } else {
                    e.0.clone()
                }
            },
            None => e.0.clone(),
        };
        assert(key@ == row_moved(sheet@, target@, at as nat, count as nat, e.0@));
        put_text(&mut moved, key, e.1.clone());
        i += 1;
    }
    proof {
        assert(ks.take(i as int) =~= ks);
        lemma_names_listed(wb.cells);
    }
    wb.cells = moved;
    assert(wb@ =~= (WorkbookView { cells: wb@.cells, ..w }));
    Ok(wb)
}

fn do_add_sheet(op: &Op, wb: Workbook) -> (r: Result<Workbook, AdapterError>)
    requires
        wb.wf(),
    ensures
        match r {
            Ok(n) => n.wf() && add_sheet(op, wb@) == Ok::<WorkbookView, Fault>(n@),
            Err(e) => add_sheet(op, wb@) == Err::<WorkbookView, Fault>(e@),
        },
{
    let mut wb = wb;
    let ghost w = wb@;
    let name = op.str_field("name")?;
    if crate::names::mentions(&wb.sheets, name) {
        let mut m = "sheet ".to_owned();
        m.push_str(name);
        m.push_str(" already exists");
        return Err(AdapterError::BadOp(m));
    }
    wb.sheets.push(name.to_owned());
    assert(texts(wb.sheets@) =~= w.sheets.push(name@));
    assert(wb@ =~= (WorkbookView { sheets: w.sheets.push(name@), ..w }));
    Ok(wb)
}

fn do_define_name(op: &Op, wb: Workbook) -> (r: Result<Workbook, AdapterError>)
    requires
        wb.wf(),
    ensures
        match r {
            Ok(n) => n.wf() && define_name(op, wb@) == Ok::<WorkbookView, Fault>(n@),
            Err(e) => define_name(op, wb@) == Err::<WorkbookView, Fault>(e@),
        },
{
    let mut wb = wb;
    let ghost w = wb@;
    let name = op.str_field("name")?;
    let target = op.str_field("ref")?;
    put_text(&mut wb.names, name.to_owned(), target.to_owned());
    assert(wb@ =~= (WorkbookView { names: w.names.insert(name@, target@), ..w }));
    Ok(wb)
}

fn do_assert(op: &Op, wb: Workbook) -> (r: Result<Workbook, AdapterError>)
    requires
        wb.wf(),
    ensures
        match r {
            Ok(n) => n.wf() && add_assertion(op, wb@) == Ok::<WorkbookView, Fault>(n@),
            Err(e) => add_assertion(op, wb@) == Err::<WorkbookView, Fault>(e@),
        },
{
    let mut wb = wb;
    let ghost w = wb@;
    let x = op.str_field("expression")?;
    if !crate::names::mentions(&wb.assertions, x) {
        wb.assertions.push(x.to_owned());
        assert(texts(wb.assertions@) =~= w.assertions.push(x@));
        assert(wb@ =~= (WorkbookView { assertions: w.assertions.push(x@), ..w }));
    }
    Ok(wb)
}

fn do_op(op: &Op, sheet: &str, wb: Workbook) -> (r: Result<Workbook, AdapterError>)
    requires
        wb.wf(),
    ensures
        match r {
            Ok(n) => n.wf() && after_op(op, sheet@, wb@) == Ok::<WorkbookView, Fault>(n@),
            Err(e) => after_op(op, sheet@, wb@) == Err::<WorkbookView, Fault>(e@),
        },
{
    match op.kind() {
        None => {
            let mut m = "unknown op ".to_owned();
            m.push_str("<missing>");
            Err(AdapterError::BadOp(m))
        },
        Some(k) => {
            if same(k, "set_values") {
                do_set_values(op, sheet, wb)
            } else if same(k, "set_formula") {
                do_set_formula(op, sheet, wb)
            } else if same(k, "insert_rows") {
                do_insert_rows(op, sheet, wb)
            } else if same(k, "add_sheet") {
                do_add_sheet(op, wb)
            } else if same(k, "define_name") {
                do_define_name(op, wb)
            } else if same(k, "assert") {
                do_assert(op, wb)
            } else {
                let mut m = "unknown op ".to_owned();
                m.push_str(k);
                Err(AdapterError::BadOp(m))
            }
        },
    }
}

/// Applies a batch of ops to a copy of a workbook. All or nothing.
pub fn rework(ops: &Vec<Op>, wb: &Workbook) -> (r: Result<Workbook, AdapterError>)
    requires
        wb.wf(),
    ensures
        match r {
            Ok(n) => n.wf() && reworked(ops@, wb@) == Ok::<WorkbookView, Fault>(n@),
            Err(e) => reworked(ops@, wb@) == Err::<WorkbookView, Fault>(e@),
        },
{
    if ops.len() == 0 {
        return Err(bad_op("empty op batch"));
    }
    let sheet = wb.default_sheet();
    let mut now = wb.copy();
    let mut i: usize = 0;
    while i < ops.len()
        invariant
            i <= ops@.len(),
            ops@.len() > 0,
            now.wf(),
            sheet@ == wb@.default_sheet(),
            after_ops(ops@.take(i as int), sheet@, wb@) == Ok::<WorkbookView, Fault>(now@),
        decreases ops@.len() - i,
    {
        let ghost nn = ops@.take(i + 1);
        assert(nn.drop_last() =~= ops@.take(i as int));
        assert(nn.last() == ops@[i as int]);
        now = match do_op(&ops[i], sheet, now) {
            Ok(n) => n,
            Err(e) => {
                proof {
                    lemma_first_fault(ops@, sheet@, wb@, i + 1);
                }
                return Err(e);
            },
        };
        i += 1;
    }
    assert(ops@.take(i as int) =~= ops@);
    Ok(now)
}

/// The cells of a grid are in order.
pub proof fn law_a_grid_is_in_order(w: WorkbookView)
    ensures
        crate::sheets::cell::in_order(keys(w.grid())),
{
    lemma_filled_in_order(w, listed(w.cells.dom()));
}

proof fn lemma_filled_in_order(w: WorkbookView, ks: Seq<Seq<char>>)
    ensures
        crate::sheets::cell::in_order(keys(w.filled(ks))),
    decreases ks.len(),
{
    if ks.len() > 0 {
        lemma_filled_in_order(w, ks.drop_last());
        if let Some(c) = parse_cell(w.default_sheet(), ks.last()) {
            law_placing_changes_one_cell(
                w.filled(ks.drop_last()),
                c,
                content(w.cells[ks.last()]),
                c,
            );
        }
    }
}

} // verus!
