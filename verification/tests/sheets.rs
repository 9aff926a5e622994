use flash::adapter::Adapter;
use flash::adapter::Artifact;
use flash::adapter::Delta;
use flash::adapter::Field;
use flash::adapter::Op;
use flash::adapter::PackRequest;
use flash::maps::NameMap;
use flash::sheets::cell::mentions_cell;
use flash::sheets::cell::same_cell;
use flash::sheets::cell::CellRef;
use flash::sheets::formula::compile;
use flash::sheets::formula::dependencies;
use flash::sheets::formula::tokenize;
use flash::sheets::formula::Instr;
use flash::sheets::recalc::Cell;
use flash::sheets::recalc::Engine;
use flash::sheets::recalc::Grid;
use flash::sheets::recalc::Source;
use flash::sheets::workbook::Workbook;
use flash::sheets::DependentRecalc;
use flash::sheets::FormulasParse;
use flash::sheets::FullRecalc;
use flash::sheets::PlannerAssertions;
use flash::sheets::Reading;
use flash::sheets::SheetsAdapter;

// ---- what a formula is worth ---------------------------------------------------------------

#[derive(Clone, Debug, PartialEq)]
enum Worth {
    Number(f64),
    Text(String),
    Truth(bool),
    Error(String),
    Empty,
}

impl Worth {
    fn is_error(&self) -> bool {
        matches!(self, Worth::Error(_))
    }

    fn number(&self) -> f64 {
        match self {
            Worth::Number(n) => *n,
            Worth::Truth(b) => f64::from(u8::from(*b)),
            Worth::Text(t) => t.parse().unwrap_or(0.0),
            _ => 0.0,
        }
    }
}

/// The cells that have a value, and the values.
#[derive(Default)]
struct Values {
    cells: Vec<CellRef>,
    worth: Vec<Worth>,
}

impl Values {
    fn get(&self, at: &CellRef) -> Worth {
        match self.cells.iter().position(|c| same_cell(c, at)) {
            Some(i) => self.worth[i].clone(),
            None => Worth::Empty,
        }
    }

    fn set(&mut self, at: CellRef, w: Worth) {
        self.forget(&at);
        self.cells.push(at);
        self.worth.push(w);
    }

    fn forget(&mut self, at: &CellRef) {
        if let Some(i) = self.cells.iter().position(|c| same_cell(c, at)) {
            self.cells.remove(i);
            self.worth.remove(i);
        }
    }
}

fn literal(raw: &str) -> Worth {
    match raw.parse() {
        Ok(n) => Worth::Number(n),
        Err(_) => Worth::Text(raw.to_string()),
    }
}

fn binary(op: char, a: &Worth, b: &Worth) -> Worth {
    if a.is_error() {
        return a.clone();
    }
    if b.is_error() {
        return b.clone();
    }
    let (x, y) = (a.number(), b.number());
    match op {
        '+' => Worth::Number(x + y),
        '-' => Worth::Number(x - y),
        '*' => Worth::Number(x * y),
        '^' => Worth::Number(x.powf(y)),
        '/' if y == 0.0 => Worth::Error("#DIV/0!".to_string()),
        '/' => Worth::Number(x / y),
        other => panic!("operator {other}"),
    }
}

fn compare(op: &str, a: &Worth, b: &Worth) -> Worth {
    let (x, y) = (a.number(), b.number());
    Worth::Truth(match op {
        "=" => x == y,
        "<>" => x != y,
        "<" => x < y,
        "<=" => x <= y,
        ">" => x > y,
        ">=" => x >= y,
        other => panic!("comparison {other}"),
    })
}

fn call(name: &str, args: &[Worth]) -> Worth {
    match name {
        "SUM" => Worth::Number(args.iter().map(Worth::number).sum()),
        "IF" => {
            if args[0] == Worth::Truth(true) {
                args[1].clone()
            } else {
                args[2].clone()
            }
        }
        other => panic!("function {other}"),
    }
}

/// Runs the program of a formula.
fn run(code: &[Instr], sheet: &str, values: &Values) -> Worth {
    let mut stack: Vec<Worth> = Vec::new();
    let mut marks: Vec<usize> = Vec::new();
    for i in code {
        match i {
            Instr::Number(s) => stack.push(Worth::Number(s.parse().unwrap())),
            Instr::Text(s) => stack.push(Worth::Text(s.clone())),
            Instr::Cell(c) => stack.push(values.get(c)),
            Instr::Cells(a, b) => {
                for row in a.row..=b.row {
                    for col in a.col..=b.col {
                        stack.push(values.get(&CellRef {
                            sheet: a.sheet.clone(),
                            col,
                            row,
                        }));
                    }
                }
            }
            Instr::Fault => stack.push(Worth::Error(format!("#PARSE on {sheet}"))),
            Instr::Negate => {
                let a = stack.pop().unwrap();
                stack.push(Worth::Number(-a.number()));
            }
            Instr::Binary(op) => {
                let b = stack.pop().unwrap();
                let a = stack.pop().unwrap();
                stack.push(binary(*op, &a, &b));
            }
            Instr::Compare(op) => {
                let b = stack.pop().unwrap();
                let a = stack.pop().unwrap();
                stack.push(compare(op, &a, &b));
            }
            Instr::Mark => marks.push(stack.len()),
            Instr::Call(name) => {
                let from = marks.pop().unwrap();
                let args = stack.split_off(from);
                stack.push(call(&name.to_uppercase(), &args));
            }
        }
    }
    stack.pop().unwrap()
}

/// Brings some values up to date with a grid.
fn evaluate(grid: &Grid, names: &NameMap<String>, dirty: &[CellRef], mut known: Values) -> Values {
    let engine = Engine { grid, names };
    let dirty: Vec<CellRef> = dirty.iter().map(|c| c.copy()).collect();
    let plan = engine.plan(&dirty, &known.cells);
    for c in &plan.forget {
        known.forget(c);
    }
    for step in plan.steps {
        let w = match &step.source {
            Source::Empty => Worth::Empty,
            Source::Literal(raw) => literal(raw),
            Source::Cycle => Worth::Error("#CYCLE!".to_string()),
            Source::Unreadable(e) => Worth::Error(e.clone()),
            Source::Computed => match grid.get(&step.at) {
                Some(Cell::Formula(f)) => {
                    let code = compile(&step.at.sheet, f, names).ok().unwrap();
                    run(&code, &step.at.sheet, &known)
                }
                _ => panic!("only a formula is computed"),
            },
        };
        known.set(step.at, w);
    }
    known
}

fn r(a1: &str) -> CellRef {
    CellRef::parse("Sheet1", a1).unwrap()
}

fn num(n: &str) -> Cell {
    Cell::Literal(n.to_string())
}

fn formula(f: &str) -> Cell {
    Cell::Formula(f.to_string())
}

fn grid(pairs: Vec<(&str, Cell)>) -> Grid {
    let mut g = Grid::new();
    for (k, v) in pairs {
        g.insert(r(k), v);
    }
    g
}

fn no_names() -> NameMap<String> {
    NameMap::empty()
}

#[test]
fn cell_refs_round_trip_through_a1() {
    assert_eq!(r("A1").a1(), "Sheet1!A1");
    assert_eq!(r("AA10").a1(), "Sheet1!AA10");
    assert_eq!(r("$B$2").a1(), "Sheet1!B2");
    assert_eq!(
        CellRef::parse("Sheet1", "Other!C3").unwrap().a1(),
        "Other!C3"
    );
}

#[test]
fn arithmetic_and_functions_evaluate() {
    let g = grid(vec![
        ("A1", num("2")),
        ("A2", num("3")),
        ("A3", formula("=A1+A2*2")),
        ("A4", formula("=SUM(A1:A2)")),
        ("A5", formula("=IF(A1>1,\"big\",\"small\")")),
    ]);
    let v = evaluate(&g, &no_names(), &[], Values::default());
    assert_eq!(v.get(&r("A3")), Worth::Number(8.0));
    assert_eq!(v.get(&r("A4")), Worth::Number(5.0));
    assert_eq!(v.get(&r("A5")), Worth::Text("big".into()));
}

#[test]
fn division_by_zero_is_an_error_cell_not_a_panic() {
    let g = grid(vec![
        ("A1", num("1")),
        ("A2", num("0")),
        ("A3", formula("=A1/A2")),
    ]);
    let v = evaluate(&g, &no_names(), &[], Values::default());
    assert_eq!(v.get(&r("A3")), Worth::Error("#DIV/0!".into()));
}

#[test]
fn a_cycle_is_reported_rather_than_hanging() {
    let g = grid(vec![("A1", formula("=A2+1")), ("A2", formula("=A1+1"))]);
    let v = evaluate(&g, &no_names(), &[], Values::default());
    assert!(v.get(&r("A1")).is_error() || v.get(&r("A2")).is_error());
}

#[test]
fn dependencies_include_every_cell_of_a_range() {
    let deps = dependencies("Sheet1", "=SUM(A1:A3)+B1", &no_names()).unwrap();
    assert_eq!(deps.len(), 4);
    assert!(mentions_cell(&deps, &r("A2")));
}

#[test]
fn impact_is_the_dependent_subgraph_and_nothing_else() {
    let g = grid(vec![
        ("A1", num("1")),
        ("A2", formula("=A1*2")),
        ("A3", formula("=A2+1")),
        ("C1", num("99")),
        ("C2", formula("=C1+1")),
    ]);
    let names = no_names();
    let impacted = Engine {
        grid: &g,
        names: &names,
    }
    .impacted(&vec![r("A1")]);
    assert!(
        mentions_cell(&impacted, &r("A3")),
        "transitive dependents are included"
    );
    assert!(
        !mentions_cell(&impacted, &r("C2")),
        "an unrelated column must not recalculate"
    );
}

#[test]
fn a_named_range_resolves() {
    let mut names = no_names();
    names.insert("revenue".to_string(), "A1:A2".to_string());
    let g = grid(vec![
        ("A1", num("10")),
        ("A2", num("5")),
        ("B1", formula("=SUM(revenue)")),
    ]);
    let v = evaluate(&g, &names, &[], Values::default());
    assert_eq!(v.get(&r("B1")), Worth::Number(15.0));
}

#[test]
fn an_incremental_recalc_reaches_the_same_answer_as_a_full_one() {
    // The property that makes partial recalc safe to ship.
    let mut g = grid(vec![
        ("A1", num("1")),
        ("A2", formula("=A1*10")),
        ("A3", formula("=A2+A1")),
        ("B1", num("7")),
    ]);
    let names = no_names();
    let full_before = evaluate(&g, &names, &[], Values::default());

    g.insert(r("A1"), num("2"));
    let incremental = evaluate(&g, &names, &[r("A1")], full_before);
    let full_after = evaluate(&g, &names, &[], Values::default());

    assert_eq!(incremental.get(&r("A3")), full_after.get(&r("A3")));
    assert_eq!(incremental.get(&r("A2")), Worth::Number(20.0));
    assert_eq!(incremental.get(&r("B1")), Worth::Number(7.0));
}

#[test]
fn a_cycle_elsewhere_does_not_spoil_an_incremental_recalc() {
    let mut g = grid(vec![
        ("A1", num("1")),
        ("A2", formula("=A1*10")),
        ("B1", formula("=B2+A1")),
        ("B2", formula("=B1+1")),
    ]);
    let names = no_names();
    let before = evaluate(&g, &names, &[], Values::default());
    g.insert(r("A1"), num("3"));
    let incremental = evaluate(&g, &names, &[r("A1")], before);
    let full = evaluate(&g, &names, &[], Values::default());
    assert_eq!(incremental.get(&r("A2")), Worth::Number(30.0));
    assert_eq!(full.get(&r("A2")), Worth::Number(30.0));
}

#[test]
fn operators_bind_as_they_do_on_paper() {
    let g = grid(vec![
        ("A1", formula("=2+3*4")),
        ("A2", formula("=(2+3)*4")),
        ("A3", formula("=2^3^2")),
        ("A4", formula("=-2+5")),
        ("A5", formula("=10-4-3")),
    ]);
    let v = evaluate(&g, &no_names(), &[], Values::default());
    let shown: Vec<Worth> = ["A1", "A2", "A3", "A4", "A5"]
        .iter()
        .map(|c| v.get(&r(c)))
        .collect();
    assert_eq!(
        shown,
        vec![
            Worth::Number(14.0),
            Worth::Number(20.0),
            Worth::Number(512.0),
            Worth::Number(3.0),
            Worth::Number(3.0),
        ]
    );
}

#[test]
fn a_character_that_no_formula_has_is_quoted_in_the_error() {
    let err = tokenize("Sheet1", "=@", &no_names()).err().unwrap();
    assert!(err.contains("'@'"), "{err}");
    assert!(CellRef::parse("Sheet1", "12").is_none());
}

// ---- workbooks -----------------------------------------------------------------------------

fn book() -> Workbook {
    let mut cells = NameMap::empty();
    for (k, v) in [
        ("Sheet1!A1", "10"),
        ("Sheet1!A2", "20"),
        ("Sheet1!A3", "=SUM(A1:A2)"),
        ("Sheet1!B1", "=A3*2"),
    ] {
        cells.insert(k.to_string(), v.to_string());
    }
    Workbook {
        sheets: vec!["Sheet1".into()],
        cells,
        names: NameMap::empty(),
        assertions: vec![],
    }
}

const PATH: &str = "model.workbook.json";

fn text(s: &str) -> Field {
    Field::Text(s.to_string())
}

fn op(fields: Vec<(&str, Field)>) -> Op {
    Op::new(
        fields
            .into_iter()
            .map(|(k, v)| (k.to_string(), v))
            .collect(),
    )
}

fn held(wb: &Workbook, at: &str) -> Option<String> {
    wb.cells.get(at).cloned()
}

/// The values of a workbook, as the ladder reads them.
fn readings(wb: &Workbook) -> Vec<(CellRef, Reading)> {
    let values = evaluate(&wb.grid(), &wb.name_map(), &[], Values::default());
    values
        .cells
        .into_iter()
        .zip(values.worth)
        .map(|(c, w)| (c, reading(w)))
        .collect()
}

fn reading(w: Worth) -> Reading {
    match w {
        Worth::Error(e) => Reading::Error(e),
        Worth::Truth(b) => Reading::Truth(b),
        Worth::Number(n) => Reading::Other(n.to_string()),
        Worth::Text(t) => Reading::Other(t),
        Worth::Empty => Reading::Other(String::new()),
    }
}

#[test]
fn the_adapter_takes_workbooks_only() {
    let a = SheetsAdapter::new();
    assert!(a.handles("q3.workbook.json"));
    assert!(a.handles("model.xlsx"));
    assert!(!a.handles("src/lib.rs"));
    assert!(!a.handles("notes.md"));
}

#[test]
fn cells_and_their_dependencies_become_entities() {
    let a = SheetsAdapter::new();
    let o = a.outline(PATH, &book());
    let sum = o.get("cell:Sheet1!A3").unwrap();
    assert_eq!(sum.kind, "formula");
    assert!(
        sum.refs.contains(&"cell:Sheet1!A1".to_string()),
        "{:?}",
        sum.refs
    );
}

#[test]
fn setting_a_value_changes_one_cell() {
    let a = SheetsAdapter::new();
    let applied = a
        .apply(
            PATH,
            &book(),
            &vec![op(vec![
                ("op", text("set_values")),
                (
                    "cells",
                    Field::Table(vec![("A1".to_string(), "15".to_string())]),
                ),
            ])],
        )
        .ok()
        .unwrap();
    assert_eq!(applied.delta.changed, vec!["cell:Sheet1!A1"]);
    assert_eq!(
        held(&applied.workbook, "Sheet1!A1"),
        Some("15".to_string())
    );
}

#[test]
fn a_formula_that_does_not_parse_is_refused_before_it_reaches_the_workbook() {
    let a = SheetsAdapter::new();
    let err = a
        .apply(
            PATH,
            &book(),
            &vec![op(vec![
                ("op", text("set_formula")),
                ("cell", text("C1")),
                ("formula", text("=SUM(@@@")),
            ])],
        )
        .err()
        .unwrap();
    assert!(err.message().contains("does not parse"), "{}", err.message());
}

#[test]
fn impact_is_the_dependent_subgraph() {
    let a = SheetsAdapter::new();
    let outline = a.outline(PATH, &book());
    let delta = Delta {
        changed: vec!["cell:Sheet1!A1".into()],
        ..Default::default()
    };
    let impact = a.impact(&outline, &delta);
    assert!(impact.entities.contains(&"cell:Sheet1!A3".to_string()));
    assert!(
        impact.entities.contains(&"cell:Sheet1!B1".to_string()),
        "the transitive dependent must recalc: {impact:?}"
    );
    assert_eq!(impact.entities.len(), 3, "and nothing else: {impact:?}");
}

#[test]
fn rung_one_catches_an_error_cell() {
    let a = SheetsAdapter::new();
    let broken = a
        .apply(
            PATH,
            &book(),
            &vec![op(vec![
                ("op", text("set_formula")),
                ("cell", text("C1")),
                ("formula", text("=A1/0")),
            ])],
        )
        .ok()
        .unwrap();
    let values = readings(&broken.workbook);
    let outcome = DependentRecalc.check(&values);
    assert!(!outcome.passed);
    assert_eq!(outcome.diagnostics[0].code, "error-cell");
    assert!(!FullRecalc.check(&values).passed);
    assert!(DependentRecalc.check(&readings(&book())).passed);
}

#[test]
fn planner_assertions_pass_and_fail_on_the_numbers() {
    let a = SheetsAdapter::new();
    let judged = |expression: &str| {
        let wb = a
            .apply(
                PATH,
                &book(),
                &vec![op(vec![
                    ("op", text("assert")),
                    ("expression", text(expression)),
                ])],
            )
            .ok()
            .unwrap()
            .workbook;
        let results: Vec<Option<Reading>> = (0..wb.assertions.len())
            .map(|i| {
                let (at, grid) = PlannerAssertions.probe(&wb, i);
                let v = evaluate(&grid, &wb.name_map(), &[], Values::default());
                Some(reading(v.get(&at)))
            })
            .collect();
        PlannerAssertions.check(&wb, &results)
    };
    assert!(judged("A3=30").passed);
    let outcome = judged("A3=31");
    assert!(!outcome.passed);
    assert_eq!(outcome.diagnostics[0].code, "assertion-failed");
}

#[test]
fn insert_rows_moves_the_cells_below_it() {
    let a = SheetsAdapter::new();
    let wb = a
        .apply(
            PATH,
            &book(),
            &vec![op(vec![
                ("op", text("insert_rows")),
                ("at", Field::Whole(2)),
                ("count", Field::Whole(1)),
            ])],
        )
        .ok()
        .unwrap()
        .workbook;
    assert!(held(&wb, "Sheet1!A3").is_some());
    assert!(held(&wb, "Sheet1!A4").is_some(), "A2 moved down");
    assert_eq!(
        held(&wb, "Sheet1!A1"),
        Some("10".to_string()),
        "rows above are untouched"
    );
}

#[test]
fn a_pack_carries_the_target_and_its_dependents() {
    let a = SheetsAdapter::new();
    let wb = book();
    let outline = a.outline(PATH, &wb);
    let artifact = Artifact::new(PATH, Vec::new());
    let pack = a
        .pack(
            &wb,
            &PackRequest {
                artifact: &artifact,
                outline: &outline,
                target: "cell:Sheet1!A3",
                budget_chars: 4_000,
            },
        )
        .unwrap();
    let text = pack.render();
    assert!(text.contains("cell:Sheet1!A3"), "{text}");
    assert!(
        text.contains("Sheet1!B1"),
        "dependents are in the pack: {text}"
    );
}

#[test]
fn a_workbook_whose_formulas_parse_passes_the_first_rung() {
    let mut wb = book();
    assert!(FormulasParse.check(&wb).passed);
    wb.cells.insert("Sheet1!D1".to_string(), "=@".to_string());
    let outcome = FormulasParse.check(&wb);
    assert!(!outcome.passed);
}

#[test]
fn the_header_row_is_the_first_row_and_no_other() {
    let a = SheetsAdapter::new();
    let mut wb = book();
    wb.cells.insert("Sheet1!A31".to_string(), "thirty-one".to_string());
    wb.cells.insert("Sheet1!C1".to_string(), "heading".to_string());
    let outline = a.outline(PATH, &wb);
    let artifact = Artifact::new(PATH, Vec::new());
    let pack = a
        .pack(
            &wb,
            &PackRequest {
                artifact: &artifact,
                outline: &outline,
                target: "cell:Sheet1!A3",
                budget_chars: 4_000,
            },
        )
        .unwrap();
    let heads = pack.parts.iter().find(|(n, _)| n == "header row").map(|(_, b)| b.clone());
    assert_eq!(
        heads.as_deref(),
        Some("Sheet1!A1 = 10\nSheet1!B1 = =A3*2\nSheet1!C1 = heading")
    );
}
