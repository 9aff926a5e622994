//! Workbooks as a graph of formulas.
//!
//! A change to a cell recalculates the cells that depend on it and nothing else. That is exact
//! here: what a formula reads is written in it.

pub mod cell;
pub mod changes;
pub mod formula;
pub mod grammar;
pub mod recalc;
pub mod workbook;
pub mod worth;

use cell::a1_of;
use cell::cells;
use cell::parse_cell;
use cell::CellRef;
use cell::CellView;
use crate::adapter::delta_between;
use crate::adapter::delta_of;
use crate::adapter::entity_views;
use crate::adapter::finding;
use crate::adapter::finding_at;
use crate::adapter::findings;
use crate::adapter::fitted;
use crate::adapter::report;
use crate::adapter::seen;
use crate::adapter::unknown;
use crate::adapter::with_part;
use crate::adapter::Adapter;
use crate::adapter::AdapterError;
use crate::adapter::Artifact;
use crate::adapter::Delta;
use crate::adapter::Diagnostic;
use crate::adapter::Entity;
use crate::adapter::EntityView;
use crate::adapter::Fault;
use crate::adapter::Finding;
use crate::adapter::ImpactSet;
use crate::adapter::ImpactView;
use crate::adapter::Op;
use crate::adapter::Outcome;
use crate::adapter::Outline;
use crate::adapter::OutlineView;
use crate::adapter::Pack;
use crate::adapter::PackRequest;
use crate::adapter::Part;
use crate::adapter::RungOutcome;
use crate::impact::reached;
use crate::impact::reached_set;
use crate::names::before;
use crate::names::is_before;
use crate::names::listed;
use crate::text::begins;
use crate::text::ends;
use crate::text::ends_with;
use crate::text::join;
use crate::text::join_of;
use crate::text::starts_with;
use crate::text::texts;
use crate::wording::lower_of;
use crate::wording::replace_all;
use crate::wording::replaced;
use crate::wording::to_lower;
use formula::dependencies;
use formula::reads_of;
use recalc::placed;
use recalc::Cell;
use recalc::Grid;
use recalc::Held;
use vstd::prelude::*;
use workbook::lemma_names_listed;
use workbook::put_equals;
use workbook::rework;
use workbook::reworked;
use workbook::with_equals;
use workbook::Workbook;
use workbook::WorkbookView;

verus! {

/// What the executor model may emit for a workbook.
pub const OP_SCHEMA: &'static str = r#"{
  "$schema": "https://json-schema.org/draft/2020-12/schema",
  "title": "flash sheet ops",
  "type": "array",
  "minItems": 1,
  "maxItems": 64,
  "items": {
    "type": "object",
    "required": [
      "op"
    ],
    "oneOf": [
      {
        "properties": {
          "op": {
            "const": "set_values"
          },
          "cells": {
            "type": "object",
            "description": "cell reference to literal value",
            "additionalProperties": {
              "type": [
                "string",
                "number"
              ]
            }
          }
        },
        "required": [
          "op",
          "cells"
        ],
        "additionalProperties": false
      },
      {
        "properties": {
          "op": {
            "const": "set_formula"
          },
          "cell": {
            "type": "string"
          },
          "formula": {
            "type": "string"
          }
        },
        "required": [
          "op",
          "cell",
          "formula"
        ],
        "additionalProperties": false
      },
      {
        "properties": {
          "op": {
            "const": "insert_rows"
          },
          "sheet": {
            "type": "string"
          },
          "at": {
            "type": "integer",
            "minimum": 1
          },
          "count": {
            "type": "integer",
            "minimum": 1,
            "maximum": 1000
          }
        },
        "required": [
          "op",
          "at",
          "count"
        ],
        "additionalProperties": false
      },
      {
        "properties": {
          "op": {
            "const": "add_sheet"
          },
          "name": {
            "type": "string"
          }
        },
        "required": [
          "op",
          "name"
        ],
        "additionalProperties": false
      },
      {
        "properties": {
          "op": {
            "const": "define_name"
          },
          "name": {
            "type": "string"
          },
          "ref": {
            "type": "string"
          }
        },
        "required": [
          "op",
          "name",
          "ref"
        ],
        "additionalProperties": false
      },
      {
        "properties": {
          "op": {
            "const": "assert"
          },
          "expression": {
            "type": "string",
            "description": "a formula that must evaluate to TRUE"
          }
        },
        "required": [
          "op",
          "expression"
        ],
        "additionalProperties": false
      }
    ]
  }
}"#;

/// A cell as an entity's id.
pub open spec fn cell_id(c: CellView) -> Seq<char> {
    "cell:"@ + a1_of(c)
}

fn id_of_cell(c: &CellRef) -> (r: String)
    ensures
        r@ == cell_id(c@),
{
    let mut id = "cell:".to_owned();
    let a = c.a1();
    id.push_str(a.as_str());
    id
}

/// The ids of the cells that a stored text reads.
pub open spec fn cell_refs(w: WorkbookView, sheet: Seq<char>, raw: Seq<char>) -> Seq<Seq<char>> {
    if begins(raw, "="@) {
        match reads_of(sheet, raw, w.names) {
            Ok(v) => v.map_values(|c: CellView| cell_id(c)),
            Err(e) => Seq::empty(),
        }
    } else {
        Seq::empty()
    }
}

/// A stored cell as an entity.
pub open spec fn cell_entity(w: WorkbookView, c: CellView, raw: Seq<char>) -> EntityView {
    EntityView {
        id: cell_id(c),
        kind: if begins(raw, "="@) {
            "formula"@
        } else {
            "value"@
        },
        start: 0,
        end: 0,
        body: None,
        signature: Some(raw),
        refs: cell_refs(w, c.sheet, raw),
        parent: Some(c.sheet),
    }
}

/// The entities of some stored cells, without those that name no cell.
pub open spec fn cell_entities(w: WorkbookView, ks: Seq<Seq<char>>) -> Seq<EntityView>
    decreases ks.len(),
{
    if ks.len() == 0 {
        Seq::empty()
    } else {
        let rest = cell_entities(w, ks.drop_last());
        match parse_cell(w.default_sheet(), ks.last()) {
            Some(c) => rest.push(cell_entity(w, c, w.cells[ks.last()])),
            None => rest,
        }
    }
}

/// A defined name as an entity.
pub open spec fn name_entity(name: Seq<char>, target: Seq<char>) -> EntityView {
    EntityView {
        id: "name:"@ + name,
        kind: "name"@,
        start: 0,
        end: 0,
        body: None,
        signature: Some(target),
        refs: Seq::empty(),
        parent: None,
    }
}

/// The entities of some defined names.
pub open spec fn name_entities(w: WorkbookView, ks: Seq<Seq<char>>) -> Seq<EntityView>
    decreases ks.len(),
{
    if ks.len() == 0 {
        Seq::empty()
    } else {
        name_entities(w, ks.drop_last()).push(name_entity(ks.last(), w.names[ks.last()]))
    }
}

/// The entities with one more, behind those whose id is not after its own.
pub open spec fn shelved(s: Seq<EntityView>, e: EntityView) -> Seq<EntityView>
    decreases s.len(),
{
    if s.len() == 0 || !before(e.id, s.last().id) {
        s.push(e)
    } else {
        shelved(s.drop_last(), e).push(s.last())
    }
}

/// Entities in the order of their ids; those with the same id in the order they had.
pub open spec fn by_id(s: Seq<EntityView>) -> Seq<EntityView>
    decreases s.len(),
{
    if s.len() == 0 {
        Seq::empty()
    } else {
        shelved(by_id(s.drop_last()), s.last())
    }
}

/// The outline of a workbook: its cells and its names, in the order of their ids.
pub open spec fn outline_of(path: Seq<char>, w: WorkbookView) -> OutlineView {
    OutlineView {
        path,
        entities: by_id(
            cell_entities(w, listed(w.cells.dom())) + name_entities(w, listed(w.names.dom())),
        ),
    }
}

proof fn lemma_shelved(s: Seq<EntityView>, e: EntityView, i: int)
    requires
        0 <= i <= s.len(),
        i > 0 ==> !before(e.id, s[i - 1].id),
        forall|k: int| i <= k < s.len() ==> before(e.id, #[trigger] s[k].id),
    ensures
        shelved(s, e) == s.insert(i, e),
    decreases s.len(),
{
    if i == s.len() {
        assert(s.insert(i, e) =~= s.push(e));
    } else {
        assert(before(e.id, s[s.len() - 1].id));
        lemma_shelved(s.drop_last(), e, i);
        assert(s.drop_last().insert(i, e).push(s.last()) =~= s.insert(i, e));
    }
}

/// Shelves one entity.
fn shelve(v: &mut Vec<Entity>, e: Entity)
    ensures
        entity_views(final(v)@) == shelved(entity_views(old(v)@), e@),
{
    let ghost s = entity_views(v@);
    let ghost ev = e@;
    let mut i: usize = v.len();
    while i > 0 && is_before(e.id.as_str(), v[i - 1].id.as_str())
        invariant
            i <= v@.len(),
            s == entity_views(v@),
            ev == e@,
            forall|k: int| i <= k < s.len() ==> before(ev.id, #[trigger] s[k].id),
        decreases i,
    {
        assert(s[i - 1] == v@[i - 1]@);
        i -= 1;
    }
    proof {
        if i > 0 {
            assert(s[i - 1] == v@[i - 1]@);
        }
        lemma_shelved(s, ev, i as int);
    }
    v.insert(i, e);
    assert(entity_views(v@) =~= s.insert(i as int, ev));
}

/// A workbook after a batch of ops, and what that changed.
pub struct Reworked {
    pub workbook: Workbook,
    pub delta: Delta,
}

/// The id of a unit of recalculation.
pub open spec fn recalc_unit(id: Seq<char>) -> Seq<char> {
    replaced(id, "cell:"@, "recalc:"@)
}

/// What a change to a workbook has to recalculate: what was touched, and all that reads it.
pub open spec fn impact_of(es: Seq<EntityView>, touched: Seq<Seq<char>>) -> ImpactView {
    let hit = listed(reached_set(es, touched));
    ImpactView {
        entities: hit,
        tests: Seq::empty(),
        units: hit.map_values(|id: Seq<char>| recalc_unit(id)),
    }
}

/// An entity and its signature.
pub open spec fn entity_line(e: EntityView) -> Seq<char> {
    e.id + " = "@ + match e.signature {
        Some(s) => s,
        None => Seq::empty(),
    }
}

fn line_of_entity(e: &Entity) -> (r: String)
    ensures
        r@ == entity_line(e@),
{
    let mut t = e.id.clone();
    t.push_str(" = ");
    if let Some(s) = &e.signature {
        t.push_str(s.as_str());
    }
    assert(t@ =~= entity_line(e@));
    t
}

/// Entries of a map as lines.
pub open spec fn entry_lines(m: Map<Seq<char>, Seq<char>>, ks: Seq<Seq<char>>) -> Seq<Seq<char>> {
    ks.map_values(|k: Seq<char>| k + " = "@ + m[k])
}

/// Is a stored cell's key one of a sheet's first row?
pub open spec fn heads_column(key: Seq<char>) -> bool {
    match parse_cell(Seq::empty(), key) {
        Some(c) => c.row == 1,
        None => false,
    }
}

fn is_heading(key: &str) -> (r: bool)
    ensures
        r == heads_column(key@),
{
    proof {
        reveal_strlit("");
        assert(""@ =~= Seq::<char>::empty());
    }
    match CellRef::parse("", key) {
        Some(c) => c.row == 1,
        None => false,
    }
}

/// The parts of a workbook's pack: the target, the defined names, the headers, the formulas that
/// depend on the target and the assertions.
pub open spec fn parts_of(w: WorkbookView, o: OutlineView, target: EntityView) -> Seq<Part> {
    let p1 = with_part(Seq::empty(), "target"@, entity_line(target));
    let p2 = with_part(
        p1,
        "named ranges"@,
        join_of(entry_lines(w.names, listed(w.names.dom())), "\n"@),
    );
    let p3 = with_part(
        p2,
        "header row"@,
        join_of(
            entry_lines(
                w.cells,
                listed(w.cells.dom()).filter(|k: Seq<char>| heads_column(k)),
            ),
            "\n"@,
        ),
    );
    let p4 = with_part(
        p3,
        "formulas that depend on the target"@,
        join_of(
            o.referrers(target.id).map_values(|e: EntityView| entity_line(e)),
            "\n"@,
        ),
    );
    with_part(p4, "assertions"@, join_of(w.assertions, "\n"@))
}

/// The pack of a workbook, cut to its budget: the parts go from the back, never the first.
pub open spec fn pack_of(w: WorkbookView, o: OutlineView, target: EntityView, budget: nat) -> Seq<
    Part,
> {
    fitted(
        parts_of(w, o, target),
        if budget > 500 {
            budget
        } else {
            500
        },
        1,
    )
}

pub struct SheetsAdapter;

impl Default for SheetsAdapter {
    fn default() -> (r: Self)
        ensures
            r == SheetsAdapter,
    {
        SheetsAdapter
    }
}

/// The entries of a map as lines, those whose keys head a column only where `heads`.
fn lines_of_map(m: &crate::maps::NameMap<String>, heads: bool) -> (r: Vec<String>)
    requires
        m.wf(),
    ensures
        texts(r@) == entry_lines(
            formula::name_texts(*m),
            if heads {
                m.names().filter(|k: Seq<char>| heads_column(k))
            } else {
                m.names()
            },
        ),
{
    let ghost ks = m.names();
    let ghost t = formula::name_texts(*m);
    let ghost p = |k: Seq<char>| heads_column(k);
    let mut out: Vec<String> = Vec::new();
    let mut i: usize = 0;
    proof {
        assert(ks.take(0).filter(p) =~= Seq::<Seq<char>>::empty()) by {
            reveal(Seq::filter);
        }
        assert(texts(out@) =~= entry_lines(t, ks.take(0)));
        assert(texts(out@) =~= entry_lines(t, ks.take(0).filter(p)));
    }
    while i < m.entries.len()
        invariant
            i <= m.entries@.len(),
            m.wf(),
            ks == m.names(),
            t == formula::name_texts(*m),
            p == |k: Seq<char>| heads_column(k),
            heads ==> texts(out@) == entry_lines(t, ks.take(i as int).filter(p)),
            !heads ==> texts(out@) == entry_lines(t, ks.take(i as int)),
        decreases m.entries@.len() - i,
    {
        let e = &m.entries[i];
        let ghost was = texts(out@);
        proof {
            m.lemma_at(i as int);
            assert(ks[i as int] == e.0@);
            assert(t[e.0@] == e.1@);
            crate::adapter::lemma_filter_step(ks, i as int, p);
            assert(ks.take(i + 1) =~= ks.take(i as int).push(e.0@));
        }
        let k = e.0.as_str();
        if !heads || is_heading(k) {
            let mut line = e.0.clone();
            line.push_str(" = ");
            line.push_str(e.1.as_str());
            assert(line@ == e.0@ + " = "@ + t[e.0@]);
            out.push(line);
            assert(texts(out@) =~= was.push(line@));
            proof {
                let f = ks.take(i as int).filter(p);
                assert(entry_lines(t, f.push(e.0@)) =~= entry_lines(t, f).push(line@));
                assert(entry_lines(t, ks.take(i + 1)) =~= entry_lines(t, ks.take(i as int)).push(
                    line@,
                ));
            }
        }
        i += 1;
    }
    assert(ks.take(i as int) =~= ks);
    out
}

/// The checks for a workbook, cheapest first, each at the level that counts those before it.
pub open spec fn rungs() -> Seq<SheetRung> {
    seq![
        SheetRung::Parse(FormulasParse),
        SheetRung::Recalc(DependentRecalc),
        SheetRung::Assertions(PlannerAssertions),
        SheetRung::Full(FullRecalc),
    ]
}

impl SheetsAdapter {
    pub fn new() -> (r: Self)
        ensures
            r == SheetsAdapter,
    {
        SheetsAdapter
    }

    /// The ids of the cells that a stored text reads.
    fn refs(&self, sheet: &str, raw: &str, wb: &Workbook) -> (r: Vec<String>)
        requires
            wb.wf(),
        ensures
            texts(r@) == cell_refs(wb@, sheet@, raw@),
    {
        let mut out: Vec<String> = Vec::new();
        assert(texts(out@) =~= Seq::<Seq<char>>::empty());
        if !starts_with(raw, "=") {
            return out;
        }
        match dependencies(sheet, raw, &wb.names) {
            Err(_) => out,
            Ok(v) => {
                let ghost all = cells(v@).map_values(|c: CellView| cell_id(c));
                let mut i: usize = 0;
                assert(all.take(0) =~= Seq::<Seq<char>>::empty());
                while i < v.len()
                    invariant
                        i <= v@.len(),
                        all == cells(v@).map_values(|c: CellView| cell_id(c)),
                        texts(out@) == all.take(i as int),
                    decreases v@.len() - i,
                {
                    let ghost was = texts(out@);
                    let id = id_of_cell(&v[i]);
                    assert(id@ == all[i as int]);
                    out.push(id);
                    assert(texts(out@) =~= was.push(all[i as int]));
                    assert(all.take(i + 1) =~= was.push(all[i as int]));
                    i += 1;
                }
                assert(all.take(i as int) =~= all);
                out
            },
        }
    }

    /// The cells and the names of a workbook, in the order of their ids.
    pub fn outline(&self, path: &str, wb: &Workbook) -> (r: Outline)
        requires
            wb.wf(),
        ensures
            r@ == outline_of(path@, wb@),
    {
        let mut entities: Vec<Entity> = Vec::new();
        let ghost w = wb@;
        let ghost ks = wb.cells.names();
        let ghost ns = wb.names.names();
        let mut i: usize = 0;
        assert(cell_entities(w, ks.take(0)) =~= Seq::<EntityView>::empty());
        assert(entity_views(entities@) =~= Seq::<EntityView>::empty());
        while i < wb.cells.entries.len()
            invariant
                i <= wb.cells.entries@.len(),
                wb.wf(),
                w == wb@,
                ks == wb.cells.names(),
                entity_views(entities@) == by_id(cell_entities(w, ks.take(i as int))),
            decreases wb.cells.entries@.len() - i,
        {
            let e = &wb.cells.entries[i];
            proof {
                let nn = ks.take(i + 1);
                assert(nn.drop_last() =~= ks.take(i as int));
                wb.cells.lemma_at(i as int);
                assert(nn.last() == e.0@);
                assert(w.cells[e.0@] == e.1@);
            }
            if let Some(c) = CellRef::parse(wb.default_sheet(), e.0.as_str()) {
                let raw = e.1.as_str();
                let refs = self.refs(c.sheet.as_str(), raw, wb);
                let kind = if starts_with(raw, "=") { "formula" } else { "value" };
                let entity = Entity {
                    id: id_of_cell(&c),
                    kind: kind.to_owned(),
                    start: 0,
                    end: 0,
                    body: None,
                    signature: Some(e.1.clone()),
                    refs,
                    parent: Some(c.sheet.clone()),
                };
                assert(entity@ =~= cell_entity(w, c@, e.1@));
                proof {
                    let l = cell_entities(w, ks.take(i as int));
                    assert(l.push(entity@).drop_last() =~= l);
                }
                shelve(&mut entities, entity);
            }
            i += 1;
        }
        assert(ks.take(i as int) =~= ks);
        let ghost first = cell_entities(w, ks);
        let mut j: usize = 0;
        assert(first + name_entities(w, ns.take(0)) =~= first);
        while j < wb.names.entries.len()
            invariant
                j <= wb.names.entries@.len(),
                wb.wf(),
                w == wb@,
                ns == wb.names.names(),
                entity_views(entities@) == by_id(first + name_entities(w, ns.take(j as int))),
            decreases wb.names.entries@.len() - j,
        {
            let e = &wb.names.entries[j];
            let mut id = "name:".to_owned();
            id.push_str(e.0.as_str());
            let none: Vec<String> = Vec::new();
            assert(texts(none@) =~= Seq::<Seq<char>>::empty());
            let entity = Entity {
                id,
                kind: "name".to_owned(),
                start: 0,
                end: 0,
                body: None,
                signature: Some(e.1.clone()),
                refs: none,
                parent: None,
            };
            proof {
                let nn = ns.take(j + 1);
                assert(nn.drop_last() =~= ns.take(j as int));
                wb.names.lemma_at(j as int);
                assert(nn.last() == e.0@);
                assert(w.names[e.0@] == e.1@);
                assert(entity@ =~= name_entity(e.0@, e.1@));
                let l = first + name_entities(w, ns.take(j as int));
                assert(first + name_entities(w, nn) =~= l.push(entity@));
                assert(l.push(entity@).drop_last() =~= l);
            }
            shelve(&mut entities, entity);
            j += 1;
        }
        proof {
            assert(ns.take(j as int) =~= ns);
            lemma_names_listed(wb.cells);
            lemma_names_listed(wb.names);
        }
        let r = Outline { path: path.to_owned(), entities };
        assert(r@ =~= outline_of(path@, wb@));
        r
    }

    /// Applies a batch of ops. All or nothing: a rejected op leaves the workbook untouched.
    pub fn apply(&self, path: &str, wb: &Workbook, ops: &Vec<Op>) -> (r: Result<
        Reworked,
        AdapterError,
    >)
        requires
            wb.wf(),
        ensures
            match r {
                Ok(done) => {
                    &&& done.workbook.wf()
                    &&& reworked(ops@, wb@) == Ok::<WorkbookView, Fault>(done.workbook@)
                    &&& done.delta@ == delta_of(
                        outline_of(path@, wb@),
                        outline_of(path@, done.workbook@),
                        Seq::empty(),
                        Seq::empty(),
                    )
                },
                Err(e) => reworked(ops@, wb@) == Err::<WorkbookView, Fault>(e@),
            },
    {
        let workbook = rework(ops, wb)?;
        let after = self.outline(path, &workbook);
        let old = self.outline(path, wb);
        let blank = Artifact::new(path, Vec::new());
        let delta = delta_between(&old, &after, &blank, &blank);
        Ok(Reworked { workbook, delta })
    }

    /// What has to be recalculated after a delta.
    pub fn impact(&self, outline: &Outline, delta: &Delta) -> (r: ImpactSet)
        ensures
            r@ == impact_of(outline@.entities, delta@.touched()),
    {
        let touched = delta.touched();
        let entities = reached(&outline.entities, &touched);
        let ghost hit = texts(entities@);
        let ghost all = hit.map_values(|id: Seq<char>| recalc_unit(id));
        let mut units: Vec<String> = Vec::new();
        let mut i: usize = 0;
        assert(texts(units@) =~= all.take(0));
        while i < entities.len()
            invariant
                i <= entities@.len(),
                hit == texts(entities@),
                all == hit.map_values(|id: Seq<char>| recalc_unit(id)),
                texts(units@) == all.take(i as int),
            decreases entities@.len() - i,
        {
            let ghost was = texts(units@);
            proof {
                reveal_strlit("cell:");
            }
            let u = replace_all(entities[i].as_str(), "cell:", "recalc:");
            assert(u@ == all[i as int]);
            units.push(u);
            assert(texts(units@) =~= was.push(u@));
            assert(all.take(i + 1) =~= was.push(u@));
            i += 1;
        }
        assert(all.take(i as int) =~= all);
        let r = ImpactSet { entities, tests: Vec::new(), units };
        assert(r@ =~= impact_of(outline@.entities, delta@.touched()));
        r
    }

    /// The context for one edit.
    pub fn pack(&self, wb: &Workbook, req: &PackRequest<'_>) -> (r: Result<Pack, AdapterError>)
        requires
            wb.wf(),
        ensures
            match r {
                Ok(p) => req.outline@.entity(req.target@) is Some && p@ == pack_of(
                    wb@,
                    req.outline@,
                    req.outline@.entity(req.target@)->0,
                    req.budget_chars as nat,
                ),
                Err(e) => req.outline@.entity(req.target@) is None && e@ == Fault::UnknownEntity(
                    req.target@,
                ),
            },
    {
        let target = match req.outline.get(req.target) {
            Some(t) => t,
            None => {
                return Err(unknown(req.target));
            },
        };
        proof {
            lemma_names_listed(wb.cells);
            lemma_names_listed(wb.names);
        }
        let mut pack = Pack::default();
        let part = line_of_entity(target);
        pack.push("target", part.as_str());
        let part = join(&lines_of_map(&wb.names, false), "\n");
        pack.push("named ranges", part.as_str());
        let part = join(&lines_of_map(&wb.cells, true), "\n");
        pack.push("header row", part.as_str());
        let users = req.outline.referrers(target.id.as_str());
        let ghost all = seen(users@).map_values(|e: EntityView| entity_line(e));
        let mut lines: Vec<String> = Vec::new();
        let mut i: usize = 0;
        assert(texts(lines@) =~= all.take(0));
        while i < users.len()
            invariant
                i <= users@.len(),
                all == seen(users@).map_values(|e: EntityView| entity_line(e)),
                texts(lines@) == all.take(i as int),
            decreases users@.len() - i,
        {
            let ghost was = texts(lines@);
            let l = line_of_entity(users[i]);
            assert(seen(users@)[i as int] == users@[i as int]@);
            assert(l@ == all[i as int]);
            lines.push(l);
            assert(texts(lines@) =~= was.push(l@));
            assert(all.take(i + 1) =~= was.push(l@));
            i += 1;
        }
        assert(all.take(i as int) =~= all);
        let part = join(&lines, "\n");
        pack.push("formulas that depend on the target", part.as_str());
        let part = join(&wb.assertions, "\n");
        pack.push("assertions", part.as_str());
        assert(pack@ == parts_of(wb@, req.outline@, target@));
        let limit: usize = if req.budget_chars > 500 { req.budget_chars } else { 500 };
        pack.fit(limit, 1);
        Ok(pack)
    }

    /// The checks for a workbook, cheapest first.
    pub fn ladder(&self) -> (r: Vec<SheetRung>)
        ensures
            r@ == rungs(),
    {
        let mut r: Vec<SheetRung> = Vec::new();
        r.push(SheetRung::Parse(FormulasParse));
        r.push(SheetRung::Recalc(DependentRecalc));
        r.push(SheetRung::Assertions(PlannerAssertions));
        r.push(SheetRung::Full(FullRecalc));
        r
    }

    /// The check at a level of the ladder, where there is one.
    pub fn rung_at(&self, level: u8) -> (r: Option<SheetRung>)
        ensures
            r == if level < rungs().len() {
                Some(rungs()[level as int])
            } else {
                None
            },
    {
        let mut all = self.ladder();
        if (level as usize) < all.len() {
            Some(all.remove(level as usize))
        } else {
            None
        }
    }
}

impl Adapter for SheetsAdapter {
    open spec fn covers(&self, path: Seq<char>) -> bool {
        ends(lower_of(path), ".workbook.json"@) || ends(lower_of(path), ".xlsx"@)
    }

    fn name(&self) -> (r: &'static str)
        ensures
            r@ == "sheets"@,
    {
        "sheets"
    }

    fn version(&self) -> (r: &'static str)
        ensures
            r@ == "sheets-v1"@,
    {
        "sheets-v1"
    }

    fn handles(&self, path: &str) -> (r: bool) {
        let lower = to_lower(path);
        ends_with(lower.as_str(), ".workbook.json") || ends_with(lower.as_str(), ".xlsx")
    }

    fn op_schema(&self) -> (r: &'static str)
        ensures
            r@ == OP_SCHEMA@,
    {
        OP_SCHEMA
    }
}

/// What a cell shows once it is evaluated.
pub enum Reading {
    /// An error, by its code.
    Error(String),
    Truth(bool),
    /// Any other value, as it is rendered.
    Other(String),
}

/// What a reading says.
#[verifier::ext_equal]
pub enum ReadingView {
    Error(Seq<char>),
    Truth(bool),
    Other(Seq<char>),
}

impl View for Reading {
    type V = ReadingView;

    open spec fn view(&self) -> ReadingView {
        match *self {
            Reading::Error(s) => ReadingView::Error(s@),
            Reading::Truth(b) => ReadingView::Truth(b),
            Reading::Other(s) => ReadingView::Other(s@),
        }
    }
}

impl ReadingView {
    /// The reading as text.
    pub open spec fn text(self) -> Seq<char> {
        match self {
            ReadingView::Error(s) => s,
            ReadingView::Truth(b) => if b {
                "TRUE"@
            } else {
                "FALSE"@
            },
            ReadingView::Other(s) => s,
        }
    }
}

impl Reading {
    /// The reading as text.
    pub fn render(&self) -> (r: String)
        ensures
            r@ == self@.text(),
    {
        match self {
            Reading::Error(s) => s.clone(),
            Reading::Truth(b) => if *b {
                "TRUE".to_owned()
            } else {
                "FALSE".to_owned()
            },
            Reading::Other(s) => s.clone(),
        }
    }

    /// Is it an error?
    pub fn is_error(&self) -> (r: bool)
        ensures
            r == (self@ is Error),
    {
        match self {
            Reading::Error(_) => true,
            _ => false,
        }
    }
}

/// The cells of an evaluated workbook, with what they show.
pub open spec fn readings(v: Seq<(CellRef, Reading)>) -> Seq<(CellView, ReadingView)> {
    v.map_values(|e: (CellRef, Reading)| (e.0@, e.1@))
}

/// Rung 0: every formula parses.
pub struct FormulasParse;

/// Rung 1: recalculate what the change reaches; no error cells.
pub struct DependentRecalc;

/// Rung 2: the assertions the planner wrote.
pub struct PlannerAssertions;

/// Rung 3: full recalculation, once.
pub struct FullRecalc;

/// One check of the workbook ladder.
pub enum SheetRung {
    Parse(FormulasParse),
    Recalc(DependentRecalc),
    Assertions(PlannerAssertions),
    Full(FullRecalc),
}

impl SheetRung {
    pub open spec fn title(&self) -> Seq<char> {
        match self {
            SheetRung::Parse(_) => "formulas-parse"@,
            SheetRung::Recalc(_) => "dependent-recalc"@,
            SheetRung::Assertions(_) => "assertions"@,
            SheetRung::Full(_) => "full-recalc"@,
        }
    }

    pub fn name(&self) -> (r: &'static str)
        ensures
            r@ == self.title(),
    {
        match self {
            SheetRung::Parse(_) => "formulas-parse",
            SheetRung::Recalc(_) => "dependent-recalc",
            SheetRung::Assertions(_) => "assertions",
            SheetRung::Full(_) => "full-recalc",
        }
    }

    pub fn level(&self) -> (r: u8)
        ensures
            r == match self {
                SheetRung::Parse(_) => 0u8,
                SheetRung::Recalc(_) => 1u8,
                SheetRung::Assertions(_) => 2u8,
                SheetRung::Full(_) => 3u8,
            },
    {
        match self {
            SheetRung::Parse(_) => 0,
            SheetRung::Recalc(_) => 1,
            SheetRung::Assertions(_) => 2,
            SheetRung::Full(_) => 3,
        }
    }

    pub fn expected_ms(&self) -> (r: u64)
        ensures
            r == match self {
                SheetRung::Parse(_) => 1u64,
                SheetRung::Recalc(_) => 200u64,
                SheetRung::Assertions(_) => 100u64,
                SheetRung::Full(_) => 2000u64,
            },
    {
        match self {
            SheetRung::Parse(_) => 1,
            SheetRung::Recalc(_) => 200,
            SheetRung::Assertions(_) => 100,
            SheetRung::Full(_) => 2000,
        }
    }

    pub fn once_per_task(&self) -> (r: bool)
        ensures
            r == (*self is Full),
    {
        match self {
            SheetRung::Full(_) => true,
            _ => false,
        }
    }
}

/// One finding for each stored formula that does not parse.
pub open spec fn parse_faults(w: WorkbookView, ks: Seq<Seq<char>>) -> Seq<Finding>
    decreases ks.len(),
{
    if ks.len() == 0 {
        Seq::empty()
    } else {
        let rest = parse_faults(w, ks.drop_last());
        let raw = w.cells[ks.last()];
        let sheet = match parse_cell(w.default_sheet(), ks.last()) {
            Some(c) => c.sheet,
            None => w.default_sheet(),
        };
        if begins(raw, "="@) {
            match reads_of(sheet, raw, w.names) {
                Ok(v) => rest,
                Err(e) => rest.push(finding_at("formula-parse"@, e, "cell:"@ + ks.last())),
            }
        } else {
            rest
        }
    }
}

impl FormulasParse {
    pub fn check(&self, wb: &Workbook) -> (r: RungOutcome)
        requires
            wb.wf(),
        ensures
            r@ == Outcome::judged(parse_faults(wb@, listed(wb@.cells.dom()))),
    {
        let mut diags: Vec<Diagnostic> = Vec::new();
        let ghost w = wb@;
        let ghost ks = wb.cells.names();
        let mut i: usize = 0;
        assert(findings(diags@) =~= parse_faults(w, ks.take(0)));
        while i < wb.cells.entries.len()
            invariant
                i <= wb.cells.entries@.len(),
                wb.wf(),
                w == wb@,
                ks == wb.cells.names(),
                findings(diags@) == parse_faults(w, ks.take(i as int)),
            decreases wb.cells.entries@.len() - i,
        {
            let e = &wb.cells.entries[i];
            proof {
                let nn = ks.take(i + 1);
                assert(nn.drop_last() =~= ks.take(i as int));
                wb.cells.lemma_at(i as int);
                assert(nn.last() == e.0@);
                assert(w.cells[e.0@] == e.1@);
            }
            if starts_with(e.1.as_str(), "=") {
                let sheet = match CellRef::parse(wb.default_sheet(), e.0.as_str()) {
                    Some(c) => c.sheet,
                    None => wb.default_sheet().to_owned(),
                };
                if let Err(m) = dependencies(sheet.as_str(), e.1.as_str(), &wb.names) {
                    let mut id = "cell:".to_owned();
                    id.push_str(e.0.as_str());
                    report(
                        &mut diags,
                        Diagnostic::new("formula-parse", m.as_str()).at_entity(id.as_str()),
                    );
                }
            }
            i += 1;
        }
        proof {
            assert(ks.take(i as int) =~= ks);
            lemma_names_listed(wb.cells);
        }
        RungOutcome::judge(diags)
    }
}

/// One finding for each cell that shows an error.
pub open spec fn error_cells(v: Seq<(CellView, ReadingView)>) -> Seq<Finding>
    decreases v.len(),
{
    if v.len() == 0 {
        Seq::empty()
    } else {
        let rest = error_cells(v.drop_last());
        match v.last().1 {
            ReadingView::Error(code) => rest.push(
                finding_at(
                    "error-cell"@,
                    a1_of(v.last().0) + " evaluates to "@ + code,
                    cell_id(v.last().0),
                ),
            ),
            _ => rest,
        }
    }
}

impl DependentRecalc {
    /// Judges the values of the workbook, cell by cell in order.
    pub fn check(&self, values: &Vec<(CellRef, Reading)>) -> (r: RungOutcome)
        ensures
            r@ == Outcome::judged(error_cells(readings(values@))),
    {
        let mut diags: Vec<Diagnostic> = Vec::new();
        let ghost all = readings(values@);
        let mut i: usize = 0;
        assert(findings(diags@) =~= error_cells(all.take(0)));
        while i < values.len()
            invariant
                i <= values@.len(),
                all == readings(values@),
                findings(diags@) == error_cells(all.take(i as int)),
            decreases values@.len() - i,
        {
            proof {
                let nn = all.take(i + 1);
                assert(nn.drop_last() =~= all.take(i as int));
                assert(nn.last() == (values@[i as int].0@, values@[i as int].1@));
            }
            if let Reading::Error(code) = &values[i].1 {
                let mut m = values[i].0.a1();
                m.push_str(" evaluates to ");
                m.push_str(code.as_str());
                let id = id_of_cell(&values[i].0);
                report(
                    &mut diags,
                    Diagnostic::new("error-cell", m.as_str()).at_entity(id.as_str()),
                );
            }
            i += 1;
        }
        assert(all.take(i as int) =~= all);
        RungOutcome::judge(diags)
    }
}

impl FullRecalc {
    /// Judges the values of the workbook after a full recalculation.
    pub fn check(&self, values: &Vec<(CellRef, Reading)>) -> (r: RungOutcome)
        ensures
            r@ == Outcome::judged(error_cells(readings(values@))),
    {
        DependentRecalc.check(values)
    }
}

/// The scratch cell in which an assertion is evaluated: on the default sheet, because an assertion
/// written as `A3=30` means A3 on the sheet that the planner was looking at.
pub open spec fn probe_cell(w: WorkbookView, i: nat) -> CellView {
    CellView { sheet: w.default_sheet(), col: 16_000, row: (1_000_000 + i) % 0x1_0000_0000 }
}

/// The row of the scratch cell for an assertion.
fn probe_row(i: usize) -> (r: u32)
    ensures
        r as int == (1_000_000 + i) % 0x1_0000_0000,
{
    let row: u64 = (1_000_000 + (i as u64 % 0x1_0000_0000u64)) % 0x1_0000_0000u64;
    row as u32
}

/// What the planner's assertions find, where these are what their scratch cells show.
pub open spec fn assertion_faults(
    assertions: Seq<Seq<char>>,
    results: Seq<Option<ReadingView>>,
) -> Seq<Finding>
    decreases assertions.len(),
{
    if assertions.len() == 0 {
        Seq::empty()
    } else {
        let i = assertions.len() - 1;
        let rest = assertion_faults(assertions.drop_last(), results);
        let x = assertions.last();
        if i >= results.len() || results[i] is None {
            rest.push(finding("assertion-failed"@, x + " did not evaluate"@))
        } else if results[i] == Some(ReadingView::Truth(true)) {
            rest
        } else {
            rest.push(
                finding("assertion-failed"@, x + " evaluated to "@ + results[i]->0.text()),
            )
        }
    }
}

/// What the scratch cells show.
pub open spec fn shown(v: Seq<Option<Reading>>) -> Seq<Option<ReadingView>> {
    v.map_values(
        |r: Option<Reading>|
            match r {
                Some(x) => Some(x@),
                None => None::<ReadingView>,
            },
    )
}

impl PlannerAssertions {
    /// The scratch cell for an assertion, and the workbook's grid with the assertion in it.
    #[verifier::spinoff_prover]
    pub fn probe(&self, wb: &Workbook, i: usize) -> (r: (CellRef, Grid))
        requires
            wb.wf(),
            i < wb.assertions@.len(),
        ensures
            r.1.wf(),
            r.0@ == probe_cell(wb@, i as nat),
            r.1@ == placed(
                wb@.grid(),
                probe_cell(wb@, i as nat),
                Held::Formula(with_equals(wb@.assertions[i as int])),
            ),
    {
        let mut grid = wb.grid();
        let probe = CellRef {
            sheet: wb.default_sheet().to_owned(),
            col: 16_000,
            row: probe_row(i),
        };
        let text = put_equals(wb.assertions[i].as_str());
        assert(wb@.assertions[i as int] == wb.assertions@[i as int]@);
        assert(probe@ =~= probe_cell(wb@, i as nat));
        grid.insert(probe.copy(), Cell::Formula(text));
        (probe, grid)
    }

    /// Judges the assertions of a workbook by what their scratch cells show, in order.
    pub fn check(&self, wb: &Workbook, results: &Vec<Option<Reading>>) -> (r: RungOutcome)
        ensures
            r@ == Outcome::judged(assertion_faults(wb@.assertions, shown(results@))),
    {
        let mut diags: Vec<Diagnostic> = Vec::new();
        let ghost all = wb@.assertions;
        let ghost res = shown(results@);
        let mut i: usize = 0;
        assert(findings(diags@) =~= assertion_faults(all.take(0), res));
        while i < wb.assertions.len()
            invariant
                i <= wb.assertions@.len(),
                all == wb@.assertions,
                res == shown(results@),
                findings(diags@) == assertion_faults(all.take(i as int), res),
            decreases wb.assertions@.len() - i,
        {
            proof {
                let nn = all.take(i + 1);
                assert(nn.drop_last() =~= all.take(i as int));
                assert(nn.last() == wb.assertions@[i as int]@);
            }
            let mut m = wb.assertions[i].clone();
            let mut failed = true;
            if i < results.len() {
                match &results[i] {
                    Some(Reading::Truth(true)) => {
                        failed = false;
                    },
                    Some(x) => {
                        let t = x.render();
                        m.push_str(" evaluated to ");
                        m.push_str(t.as_str());
                    },
                    None => {
                        m.push_str(" did not evaluate");
                    },
                }
            } else {
                m.push_str(" did not evaluate");
            }
            if failed {
                report(&mut diags, Diagnostic::new("assertion-failed", m.as_str()));
            }
            i += 1;
        }
        assert(all.take(i as int) =~= all);
        RungOutcome::judge(diags)
    }
}

} // verus!
