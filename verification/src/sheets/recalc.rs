//! What a change to a sheet can reach, and the order in which it is recalculated.

use crate::maps::NameMap;
use crate::reach::lemma_reach_least;
use crate::reach::lemma_reach_root;
use crate::reach::lemma_reach_step;
use crate::reach::reachable;
use crate::sheets::cell::cell_before;
use crate::sheets::cell::cells;
use crate::sheets::cell::has_cell;
use crate::sheets::cell::in_order;
use crate::sheets::cell::insert_cell;
use crate::sheets::cell::is_cell_before;
use crate::sheets::cell::lemma_cell_asymmetric;
use crate::sheets::cell::lemma_cell_total;
use crate::sheets::cell::lemma_cell_transitive;
use crate::sheets::cell::lemma_in_order_distinct;
use crate::sheets::cell::lemma_listed_cells;
use crate::sheets::cell::listed_cells;
use crate::sheets::cell::mentions_cell;
use crate::sheets::cell::same_cell;
use crate::sheets::cell::CellRef;
use crate::sheets::cell::CellView;
use crate::sheets::formula::dependencies;
use crate::sheets::formula::name_texts;
use crate::sheets::formula::reads_of;
use crate::text::from_chars;
use crate::text::to_chars;
use vstd::prelude::*;

verus! {

/// What a cell holds: the text of a literal, or a formula.
pub enum Cell {
    Literal(String),
    Formula(String),
}

/// What a cell's contents say.
#[verifier::ext_equal]
pub enum Held {
    Literal(Seq<char>),
    Formula(Seq<char>),
}

impl View for Cell {
    type V = Held;

    open spec fn view(&self) -> Held {
        match *self {
            Cell::Literal(s) => Held::Literal(s@),
            Cell::Formula(s) => Held::Formula(s@),
        }
    }
}

/// The cells of a workbook that hold something, in order.
pub struct Grid {
    pub entries: Vec<(CellRef, Cell)>,
}

impl View for Grid {
    type V = Seq<(CellView, Held)>;

    open spec fn view(&self) -> Seq<(CellView, Held)> {
        self.entries@.map_values(|e: (CellRef, Cell)| (e.0@, e.1@))
    }
}

/// The cells of a run of entries.
pub open spec fn keys(g: Seq<(CellView, Held)>) -> Seq<CellView> {
    g.map_values(|e: (CellView, Held)| e.0)
}

/// What a cell holds, if anything.
pub open spec fn held(g: Seq<(CellView, Held)>, at: CellView) -> Option<Held> {
    if keys(g).contains(at) {
        Some(g[keys(g).index_of(at)].1)
    } else {
        None
    }
}

/// The entries with one more: in the place of the entry for the same cell, or where order puts it.
pub open spec fn placed(g: Seq<(CellView, Held)>, at: CellView, h: Held) -> Seq<(CellView, Held)>
    decreases g.len(),
{
    if g.len() == 0 {
        seq![(at, h)]
    } else if g.last().0 == at {
        g.drop_last().push((at, h))
    } else if cell_before(g.last().0, at) {
        g.push((at, h))
    } else {
        placed(g.drop_last(), at, h).push(g.last())
    }
}

proof fn lemma_placed_update(g: Seq<(CellView, Held)>, at: CellView, h: Held, i: int)
    requires
        in_order(keys(g)),
        0 <= i < g.len(),
        g[i].0 == at,
    ensures
        placed(g, at, h) == g.update(i, (at, h)),
    decreases g.len(),
{
    if i == g.len() - 1 {
        assert(g.drop_last().push((at, h)) =~= g.update(i, (at, h)));
    } else {
        assert(cell_before(keys(g)[i], keys(g)[g.len() - 1]));
        lemma_cell_asymmetric(at, g.last().0);
        assert(keys(g.drop_last()) =~= keys(g).drop_last());
        lemma_placed_update(g.drop_last(), at, h, i);
        assert(g.drop_last().update(i, (at, h)).push(g.last()) =~= g.update(i, (at, h)));
    }
}

proof fn lemma_placed_insert(g: Seq<(CellView, Held)>, at: CellView, h: Held, i: int)
    requires
        0 <= i <= g.len(),
        forall|k: int| 0 <= k < i ==> cell_before(#[trigger] g[k].0, at),
        forall|k: int| i <= k < g.len() ==> cell_before(at, #[trigger] g[k].0),
    ensures
        placed(g, at, h) == g.insert(i, (at, h)),
    decreases g.len(),
{
    if g.len() == 0 {
        assert(g.insert(i, (at, h)) =~= seq![(at, h)]);
    } else {
        lemma_cell_asymmetric(g.last().0, at);
        lemma_cell_asymmetric(at, g.last().0);
        if i == g.len() {
            assert(g.insert(i, (at, h)) =~= g.push((at, h)));
        } else {
            lemma_placed_insert(g.drop_last(), at, h, i);
            assert(g.drop_last().insert(i, (at, h)).push(g.last()) =~= g.insert(i, (at, h)));
        }
    }
}

/// Placing an entry says what that cell holds, and changes no other cell.
pub proof fn law_placing_changes_one_cell(
    g: Seq<(CellView, Held)>,
    at: CellView,
    h: Held,
    c: CellView,
)
    requires
        in_order(keys(g)),
    ensures
        in_order(keys(placed(g, at, h))),
        held(placed(g, at, h), c) == if c == at {
            Some(h)
        } else {
            held(g, c)
        },
    decreases g.len(),
{
    let p = placed(g, at, h);
    lemma_in_order_distinct(keys(g));
    if keys(g).contains(at) {
        let i = choose|i: int| 0 <= i < g.len() && keys(g)[i] == at;
        lemma_placed_update(g, at, h, i);
        assert(keys(p) =~= keys(g));
        if keys(g).contains(c) {
            let k = keys(g).index_of(c);
            assert(keys(g)[k] == c);
        }
    } else {
        let i = first_after(g, at, g.len() as int);
        lemma_first_after(g, at, g.len() as int);
        lemma_placed_insert(g, at, h, i);
        assert(keys(p) =~= keys(g).insert(i, at));
        assert forall|a: int, b: int| 0 <= a < b < keys(p).len() implies cell_before(
            #[trigger] keys(p)[a],
            #[trigger] keys(p)[b],
        ) by {
            let x = if a < i { a } else { a - 1 };
            let y = if b < i { b } else { b - 1 };
            if a == i {
                assert(keys(p)[b] == keys(g)[y] && keys(g)[y] == g[y].0);
            } else if b == i {
                assert(keys(p)[a] == keys(g)[x] && keys(g)[x] == g[x].0);
            } else {
                assert(keys(p)[a] == keys(g)[x] && keys(p)[b] == keys(g)[y]);
            }
        }
        lemma_in_order_distinct(keys(p));
        assert(keys(p)[i] == at && p[i].1 == h);
        if c == at {
            assert(keys(p).contains(c));
            assert(keys(p).index_of(c) == i);
        } else if keys(g).contains(c) {
            let k = keys(g).index_of(c);
            assert(keys(g)[k] == c);
            let m = if k < i { k } else { k + 1 };
            assert(keys(p)[m] == c);
            assert(keys(p).index_of(c) == m);
            assert(p[m] == g[k]);
        } else if keys(p).contains(c) {
            let m = keys(p).index_of(c);
            assert(keys(p)[m] == c);
            if m < i {
                assert(keys(g)[m] == c);
            } else {
                assert(keys(g)[m - 1] == c);
            }
        }
    }
}

/// The place of the first of the first `n` entries that is not before a cell.
spec fn first_after(g: Seq<(CellView, Held)>, at: CellView, n: int) -> int
    decreases n,
{
    if n <= 0 || n > g.len() {
        0
    } else if cell_before(g[n - 1].0, at) {
        n
    } else {
        first_after(g, at, n - 1)
    }
}

proof fn lemma_first_after(g: Seq<(CellView, Held)>, at: CellView, n: int)
    requires
        in_order(keys(g)),
        !keys(g).contains(at),
        0 <= n <= g.len(),
        forall|k: int| n <= k < g.len() ==> cell_before(at, #[trigger] g[k].0),
    ensures
        0 <= first_after(g, at, n) <= g.len(),
        forall|k: int| 0 <= k < first_after(g, at, n) ==> cell_before(#[trigger] g[k].0, at),
        forall|k: int| first_after(g, at, n) <= k < g.len() ==> cell_before(at, #[trigger] g[k].0),
    decreases n,
{
    if n > 0 {
        assert(keys(g)[n - 1] == g[n - 1].0);
        if cell_before(g[n - 1].0, at) {
            assert forall|k: int| 0 <= k < n implies cell_before(#[trigger] g[k].0, at) by {
                if k < n - 1 {
                    assert(cell_before(keys(g)[k], keys(g)[n - 1]));
                    lemma_cell_transitive(g[k].0, g[n - 1].0, at);
                }
            }
        } else {
            lemma_cell_total(g[n - 1].0, at);
            lemma_first_after(g, at, n - 1);
        }
    }
}

impl Grid {
    /// Are the cells in order, with none twice?
    pub open spec fn wf(&self) -> bool {
        in_order(keys(self@))
    }

    /// A grid with nothing in it.
    pub fn new() -> (r: Grid)
        ensures
            r.wf(),
            r@ == Seq::<(CellView, Held)>::empty(),
    {
        let g = Grid { entries: Vec::new() };
        assert(g@ =~= Seq::<(CellView, Held)>::empty());
        g
    }

    /// Where a cell stands or would stand, and whether it is there.
    fn find(&self, at: &CellRef) -> (r: (usize, bool))
        requires
            self.wf(),
        ensures
            r.0 <= self@.len(),
            r.1 == keys(self@).contains(at@),
            r.1 ==> r.0 < self@.len() && self@[r.0 as int].0 == at@,
            forall|k: int| 0 <= k < r.0 ==> cell_before(#[trigger] self@[k].0, at@),
            !r.1 ==> forall|k: int| r.0 <= k < self@.len() ==> cell_before(
                at@,
                #[trigger] self@[k].0,
            ),
    {
        let mut i: usize = 0;
        while i < self.entries.len() && is_cell_before(&self.entries[i].0, at)
            invariant
                i <= self@.len(),
                forall|k: int| 0 <= k < i ==> cell_before(#[trigger] self@[k].0, at@),
            decreases self@.len() - i,
        {
            i += 1;
        }
        let found = i < self.entries.len() && same_cell(&self.entries[i].0, at);
        proof {
            let all = keys(self@);
            if found {
                assert(all[i as int] == at@);
            } else {
                assert forall|k: int| i <= k < all.len() implies cell_before(
                    at@,
                    #[trigger] self@[k].0,
                ) by {
                    lemma_cell_total(all[i as int], at@);
                    if k > i {
                        assert(cell_before(all[i as int], all[k]));
                        lemma_cell_transitive(at@, all[i as int], all[k]);
                    }
                }
                assert forall|k: int| 0 <= k < all.len() implies all[k] != at@ by {
                    assert(all[k] == self@[k].0);
                    lemma_cell_asymmetric(all[k], at@);
                    lemma_cell_asymmetric(at@, all[k]);
                }
            }
        }
        (i, found)
    }

    /// What a cell holds.
    pub fn get(&self, at: &CellRef) -> (r: Option<&Cell>)
        requires
            self.wf(),
        ensures
            match r {
                Some(c) => held(self@, at@) == Some(c@),
                None => held(self@, at@) is None,
            },
    {
        let (i, found) = self.find(at);
        if found {
            proof {
                lemma_in_order_distinct(keys(self@));
                assert(keys(self@)[i as int] == at@);
                assert(keys(self@).index_of(at@) == i);
            }
            Some(&self.entries[i].1)
        } else {
            None
        }
    }

    /// Fills a cell.
    pub fn insert(&mut self, at: CellRef, cell: Cell)
        requires
            old(self).wf(),
        ensures
            final(self).wf(),
            final(self)@ == placed(old(self)@, at@, cell@),
    {
        let (i, found) = self.find(&at);
        let ghost was = self@;
        let ghost (av, cv) = (at@, cell@);
        proof {
            law_placing_changes_one_cell(was, av, cv, av);
        }
        if found {
            self.entries.set(i, (at, cell));
            proof {
                lemma_placed_update(was, av, cv, i as int);
                assert(self@ =~= was.update(i as int, (av, cv)));
            }
        } else {
            self.entries.insert(i, (at, cell));
            proof {
                lemma_placed_insert(was, av, cv, i as int);
                assert(self@ =~= was.insert(i as int, (av, cv)));
            }
        }
    }
}

/// A grid and the names that its formulas may use.
#[verifier::ext_equal]
pub struct Book {
    pub grid: Seq<(CellView, Held)>,
    pub names: Map<Seq<char>, Seq<char>>,
}

/// The cells that what a cell holds reads: none for a literal, or where the formula has no tokens.
pub open spec fn reads(b: Book, at: CellView, h: Held) -> Seq<CellView> {
    match h {
        Held::Literal(s) => Seq::empty(),
        Held::Formula(f) => match reads_of(at.sheet, f, b.names) {
            Ok(v) => v,
            Err(e) => Seq::empty(),
        },
    }
}

/// The cells that a cell reads directly, in order.
pub open spec fn deps_of(b: Book, at: CellView) -> Seq<CellView> {
    match held(b.grid, at) {
        Some(h) => reads(b, at, h),
        None => Seq::empty(),
    }
}

/// From a cell to each cell that reads it.
pub open spec fn feeds(b: Book) -> spec_fn(CellView, CellView) -> bool {
    |a: CellView, c: CellView| deps_of(b, c).contains(a)
}

/// The cells that read `d`, in order.
pub open spec fn readers(b: Book, g: Seq<(CellView, Held)>, d: CellView) -> Seq<CellView>
    decreases g.len(),
{
    if g.len() == 0 {
        Seq::empty()
    } else {
        let rest = readers(b, g.drop_last(), d);
        if reads(b, g.last().0, g.last().1).contains(d) {
            rest.push(g.last().0)
        } else {
            rest
        }
    }
}

/// Where the value of a cell comes from.
pub enum Source {
    /// Nothing is in the cell.
    Empty,
    /// A literal.
    Literal(String),
    /// The cell is being evaluated already: it reads itself.
    Cycle,
    /// A formula without tokens, with the error that its cell shows.
    Unreadable(String),
    /// A formula, from the values of the cells that it reads.
    Computed,
}

/// What a source says.
#[verifier::ext_equal]
pub enum Origin {
    Empty,
    Literal(Seq<char>),
    Cycle,
    Unreadable(Seq<char>),
    Computed,
}

impl View for Source {
    type V = Origin;

    open spec fn view(&self) -> Origin {
        match *self {
            Source::Empty => Origin::Empty,
            Source::Literal(s) => Origin::Literal(s@),
            Source::Cycle => Origin::Cycle,
            Source::Unreadable(s) => Origin::Unreadable(s@),
            Source::Computed => Origin::Computed,
        }
    }
}

/// One step of a recalculation: this cell gets its value, from here.
pub struct Step {
    pub at: CellRef,
    pub source: Source,
}

/// What a step says.
#[verifier::ext_equal]
pub struct StepView {
    pub at: CellView,
    pub origin: Origin,
}

impl View for Step {
    type V = StepView;

    open spec fn view(&self) -> StepView {
        StepView { at: self.at@, origin: self.source@ }
    }
}

/// What a run of steps says.
pub open spec fn steps(v: Seq<Step>) -> Seq<StepView> {
    v.map_values(|s: Step| s@)
}

/// The cells that a run of steps gives values to.
pub open spec fn given(v: Seq<StepView>) -> Set<CellView> {
    Set::new(|c: CellView| exists|i: int| 0 <= i < v.len() && (#[trigger] v[i]).at == c)
}

/// Is a cell on the path of cells that are being evaluated? (A path is never longer than the grid:
/// its cells are in the grid and differ.)
pub open spec fn stuck(b: Book, at: CellView, path: Seq<CellView>) -> bool {
    path.contains(at) || path.len() >= b.grid.len()
}

/// Where the value of a cell comes from, on the way down a path.
pub open spec fn origin(b: Book, at: CellView, path: Seq<CellView>) -> Origin {
    match held(b.grid, at) {
        None => Origin::Empty,
        Some(Held::Literal(s)) => Origin::Literal(s),
        Some(Held::Formula(f)) => if stuck(b, at, path) {
            Origin::Cycle
        } else {
            match reads_of(at.sheet, f, b.names) {
                Ok(v) => Origin::Computed,
                Err(e) => Origin::Unreadable("#VALUE! "@ + e),
            }
        },
    }
}

/// The steps that must come before a cell's own: those of the cells that it reads and that have
/// no value yet.
pub open spec fn prepared(
    b: Book,
    at: CellView,
    path: Seq<CellView>,
    known: Set<CellView>,
) -> Seq<StepView>
    decreases b.grid.len() - path.len(), 0nat,
{
    if origin(b, at, path) is Computed && path.len() < b.grid.len() {
        resolved(b, deps_of(b, at), path.push(at), known)
    } else {
        Seq::empty()
    }
}

/// The steps that give a value to each of these cells that has none, each after the cells that it
/// reads.
pub open spec fn resolved(
    b: Book,
    deps: Seq<CellView>,
    path: Seq<CellView>,
    known: Set<CellView>,
) -> Seq<StepView>
    decreases b.grid.len() - path.len(), deps.len(),
{
    if deps.len() == 0 {
        Seq::empty()
    } else if known.contains(deps[0]) {
        resolved(b, deps.skip(1), path, known)
    } else {
        let d = deps[0];
        let own = prepared(b, d, path, known).push(StepView { at: d, origin: origin(b, d, path) });
        own + resolved(b, deps.skip(1), path, known.union(given(own)))
    }
}

/// The steps for the literals of a run of entries that have no value yet.
pub open spec fn literals(g: Seq<(CellView, Held)>, known: Set<CellView>) -> Seq<StepView>
    decreases g.len(),
{
    if g.len() == 0 {
        Seq::empty()
    } else {
        let rest = literals(g.drop_last(), known);
        match g.last().1 {
            Held::Literal(s) => if known.contains(g.last().0) {
                rest
            } else {
                rest.push(StepView { at: g.last().0, origin: Origin::Literal(s) })
            },
            Held::Formula(f) => rest,
        }
    }
}

/// The formula cells of a run of entries that have no value yet, in order.
pub open spec fn pending(g: Seq<(CellView, Held)>, known: Set<CellView>) -> Seq<CellView>
    decreases g.len(),
{
    if g.len() == 0 {
        Seq::empty()
    } else {
        let rest = pending(g.drop_last(), known);
        if g.last().1 is Formula && !known.contains(g.last().0) {
            rest.push(g.last().0)
        } else {
            rest
        }
    }
}

/// The steps that evaluate each cell of a run, each after the cells that it reads.
pub open spec fn evaluated(b: Book, order: Seq<CellView>, known: Set<CellView>) -> Seq<StepView>
    decreases order.len(),
{
    if order.len() == 0 {
        Seq::empty()
    } else {
        let own = prepared(b, order[0], Seq::empty(), known).push(
            StepView { at: order[0], origin: origin(b, order[0], Seq::empty()) },
        );
        own + evaluated(b, order.skip(1), known.union(given(own)))
    }
}

/// The cells to recalculate after a change: what the changed cells reach, or all cells where no
/// changed cell is named.
pub open spec fn recalc_set(b: Book, dirty: Seq<CellView>) -> Set<CellView> {
    if dirty.len() == 0 {
        keys(b.grid).to_set()
    } else {
        Set::new(|c: CellView| reachable(feeds(b), dirty, c))
    }
}

/// The steps of a recalculation, given which cells still have their value: the literals, then the
/// formulas.
pub open spec fn planned(b: Book, known: Set<CellView>) -> Seq<StepView> {
    let first = literals(b.grid, known);
    first + evaluated(b, pending(b.grid, known), known.union(given(first)))
}

/// A recalculation: the cells whose values are dropped, and the steps that then give values.
pub struct Plan {
    pub forget: Vec<CellRef>,
    pub steps: Vec<Step>,
}

/// Evaluates a workbook, or just the part of it that a change can reach.
pub struct Engine<'a> {
    pub grid: &'a Grid,
    pub names: &'a NameMap<String>,
}

impl<'a> View for Engine<'a> {
    type V = Book;

    open spec fn view(&self) -> Book {
        Book { grid: self.grid@, names: name_texts(*self.names) }
    }
}

proof fn lemma_given_push(v: Seq<StepView>, s: StepView)
    ensures
        given(v.push(s)) == given(v).insert(s.at),
{
    assert forall|c: CellView| given(v.push(s)).contains(c) == given(v).insert(s.at).contains(c) by {
        let w = v.push(s);
        if given(w).contains(c) {
            let i = choose|i: int| 0 <= i < w.len() && (#[trigger] w[i]).at == c;
            if i < v.len() {
                assert(v[i].at == c);
            }
        }
        if given(v).contains(c) {
            let i = choose|i: int| 0 <= i < v.len() && (#[trigger] v[i]).at == c;
            assert(w[i].at == c);
        }
        if c == s.at {
            assert(w[v.len() as int].at == c);
        }
    }
    assert(given(v.push(s)) =~= given(v).insert(s.at));
}

proof fn lemma_given_add(v: Seq<StepView>, w: Seq<StepView>)
    ensures
        given(v + w) == given(v).union(given(w)),
    decreases w.len(),
{
    if w.len() == 0 {
        assert(v + w =~= v);
        assert(given(w) =~= Set::<CellView>::empty());
        assert(given(v).union(given(w)) =~= given(v));
    } else {
        lemma_given_add(v, w.drop_last());
        assert(v + w =~= (v + w.drop_last()).push(w.last()));
        assert(w =~= w.drop_last().push(w.last()));
        lemma_given_push(v + w.drop_last(), w.last());
        lemma_given_push(w.drop_last(), w.last());
        assert(given(v + w) =~= given(v).union(given(w)));
    }
}

/// The set of the cells of a run.
pub open spec fn all_of(v: Seq<CellRef>) -> Set<CellView> {
    cells(v).to_set()
}

/// The cells that a run of links is about.
pub open spec fn heads(v: Seq<(CellRef, Vec<CellRef>)>) -> Seq<CellView> {
    v.map_values(|e: (CellRef, Vec<CellRef>)| e.0@)
}

impl<'a> Engine<'a> {
    /// Are the grid and the names in order?
    pub open spec fn wf(&self) -> bool {
        self.grid.wf() && self.names.wf()
    }

    /// The cells that an entry of the grid reads.
    fn reads_at(&self, i: usize) -> (r: Vec<CellRef>)
        requires
            self.wf(),
            i < self.grid@.len(),
        ensures
            cells(r@) == reads(self@, self.grid@[i as int].0, self.grid@[i as int].1),
    {
        let e = &self.grid.entries[i];
        match &e.1 {
            Cell::Formula(f) => match dependencies(e.0.sheet.as_str(), f.as_str(), self.names) {
                Ok(v) => v,
                Err(_) => {
                    let none: Vec<CellRef> = Vec::new();
                    assert(cells(none@) =~= Seq::<CellView>::empty());
                    none
                },
            },
            Cell::Literal(_) => {
                let none: Vec<CellRef> = Vec::new();
                assert(cells(none@) =~= Seq::<CellView>::empty());
                none
            },
        }
    }

    /// The cells that each entry of the grid reads.
    fn all_reads(&self) -> (r: Vec<Vec<CellRef>>)
        requires
            self.wf(),
        ensures
            r@.len() == self.grid@.len(),
            forall|k: int|
                0 <= k < r@.len() ==> cells((#[trigger] r@[k])@) == reads(
                    self@,
                    self.grid@[k].0,
                    self.grid@[k].1,
                ),
    {
        let mut out: Vec<Vec<CellRef>> = Vec::new();
        let mut i: usize = 0;
        while i < self.grid.entries.len()
            invariant
                self.wf(),
                i <= self.grid@.len(),
                out@.len() == i,
                forall|k: int|
                    0 <= k < i ==> cells((#[trigger] out@[k])@) == reads(
                        self@,
                        self.grid@[k].0,
                        self.grid@[k].1,
                    ),
            decreases self.grid@.len() - i,
        {
            let v = self.reads_at(i);
            out.push(v);
            i += 1;
        }
        out
    }

    /// For each cell that some formula reads, in order, the cells whose formulas read it.
    pub fn dependents(&self) -> (r: Vec<(CellRef, Vec<CellRef>)>)
        requires
            self.wf(),
        ensures
            in_order(heads(r@)),
            forall|k: int|
                0 <= k < r@.len() ==> cells((#[trigger] r@[k]).1@) == readers(
                    self@,
                    self.grid@,
                    r@[k].0@,
                ),
            forall|d: CellView| #[trigger]
                heads(r@).contains(d) <==> readers(
                    self@,
                    self.grid@,
                    d,
                ).len() > 0,
    {
        let all = self.all_reads();
        let mut tops: Vec<CellRef> = Vec::new();
        let mut i: usize = 0;
        let ghost g = self.grid@;
        let ghost b = self@;
        while i < all.len()
            invariant
                i <= all@.len(),
                g.len() == all@.len(),
                in_order(cells(tops@)),
                forall|k: int|
                    0 <= k < all@.len() ==> cells((#[trigger] all@[k])@) == reads(
                        b,
                        g[k].0,
                        g[k].1,
                    ),
                forall|d: CellView| #[trigger]
                    cells(tops@).contains(d) <==> readers(b, g.take(i as int), d).len() > 0,
            decreases all@.len() - i,
        {
            let mut j: usize = 0;
            let ghost was = cells(tops@);
            while j < all[i].len()
                invariant
                    i < all@.len(),
                    j <= all@[i as int]@.len(),
                    in_order(cells(tops@)),
                    forall|d: CellView| #[trigger]
                        cells(tops@).contains(d) <==> was.contains(d) || exists|m: int|
                            0 <= m < j && #[trigger] cells(all@[i as int]@)[m] == d,
                decreases all@[i as int]@.len() - j,
            {
                let c = all[i][j].copy();
                let ghost cv = c@;
                let ghost mid = cells(tops@);
                insert_cell(&mut tops, c);
                assert(cells(all@[i as int]@)[j as int] == cv);
                assert forall|d: CellView| #[trigger]
                    cells(tops@).contains(d) <==> was.contains(d) || exists|m: int|
                        0 <= m < j + 1 && #[trigger] cells(all@[i as int]@)[m] == d by {
                    assert(cells(tops@).contains(d) <==> mid.contains(d) || d == cv);
                }
                j += 1;
            }
            proof {
                let nn = g.take(i + 1);
                assert(nn.drop_last() =~= g.take(i as int));
                assert(nn.last() == g[i as int]);
                assert(cells(all@[i as int]@) == reads(b, g[i as int].0, g[i as int].1));
                assert forall|d: CellView| #[trigger]
                    cells(tops@).contains(d) <==> readers(b, nn, d).len() > 0 by {
                    let rd = cells(all@[i as int]@);
                    if rd.contains(d) {
                        let m = choose|m: int| 0 <= m < rd.len() && rd[m] == d;
                        assert(rd[m] == d);
                    }
                }
            }
            i += 1;
        }
        assert(g.take(i as int) =~= g);
        let mut out: Vec<(CellRef, Vec<CellRef>)> = Vec::new();
        let mut h: usize = 0;
        while h < tops.len()
            invariant
                self.wf(),
                g == self.grid@,
                b == self@,
                g.len() == all@.len(),
                h <= tops@.len(),
                out@.len() == h,
                forall|k: int|
                    0 <= k < all@.len() ==> cells((#[trigger] all@[k])@) == reads(
                        b,
                        g[k].0,
                        g[k].1,
                    ),
                forall|k: int| 0 <= k < h ==> (#[trigger] out@[k]).0@ == tops@[k]@,
                forall|k: int|
                    0 <= k < h ==> cells((#[trigger] out@[k]).1@) == readers(b, g, out@[k].0@),
            decreases tops@.len() - h,
        {
            let mut users: Vec<CellRef> = Vec::new();
            let mut k: usize = 0;
            assert(cells(users@) =~= Seq::<CellView>::empty());
            while k < all.len()
                invariant
                    h < tops@.len(),
                    g == self.grid@,
                    g.len() == all@.len(),
                    k <= all@.len(),
                    forall|k: int|
                        0 <= k < all@.len() ==> cells((#[trigger] all@[k])@) == reads(
                            b,
                            g[k].0,
                            g[k].1,
                        ),
                    cells(users@) == readers(b, g.take(k as int), tops@[h as int]@),
                decreases all@.len() - k,
            {
                proof {
                    let nn = g.take(k + 1);
                    assert(nn.drop_last() =~= g.take(k as int));
                    assert(nn.last() == g[k as int]);
                    assert(cells(all@[k as int]@) == reads(b, g[k as int].0, g[k as int].1));
                }
                let ghost was = cells(users@);
                if mentions_cell(&all[k], &tops[h]) {
                    users.push(self.grid.entries[k].0.copy());
                    assert(cells(users@) =~= was.push(g[k as int].0));
                }
                k += 1;
            }
            assert(g.take(k as int) =~= g);
            out.push((tops[h].copy(), users));
            h += 1;
        }
        assert(heads(out@) =~= cells(tops@));
        out
    }

    /// Everything that a change to these cells reaches, the cells themselves among it, in order.
    pub fn impacted(&self, dirty: &Vec<CellRef>) -> (r: Vec<CellRef>)
        requires
            self.wf(),
        ensures
            in_order(cells(r@)),
            forall|c: CellView| #[trigger]
                cells(r@).contains(c) <==> reachable(feeds(self@), cells(dirty@), c),
    {
        let all = self.all_reads();
        let ghost g = self.grid@;
        let ghost e = feeds(self@);
        let ghost roots = cells(dirty@);
        let mut seen: Vec<CellRef> = Vec::new();
        let mut i: usize = 0;
        while i < dirty.len()
            invariant
                i <= dirty@.len(),
                roots == cells(dirty@),
                in_order(cells(seen@)),
                seen@.len() <= i,
                forall|c: CellView| #[trigger]
                    cells(seen@).contains(c) ==> reachable(e, roots, c),
                forall|k: int| 0 <= k < i ==> cells(seen@).contains(#[trigger] roots[k]),
            decreases dirty@.len() - i,
        {
            let ghost was = cells(seen@);
            insert_cell(&mut seen, dirty[i].copy());
            proof {
                assert(roots[i as int] == dirty@[i as int]@);
                lemma_reach_root(e, roots, i as int);
                assert forall|k: int| 0 <= k < i + 1 implies cells(seen@).contains(
                    #[trigger] roots[k],
                ) by {
                    if k < i {
                        assert(was.contains(roots[k]));
                    }
                }
            }
            i += 1;
        }
        // Which entries of the grid are in so far because of what they read.
        let mut grown = true;
        let mut marked: Vec<bool> = Vec::new();
        let mut m: usize = 0;
        while m < all.len()
            invariant
                m <= all@.len(),
                marked@.len() == m,
                forall|k: int| 0 <= k < m ==> !#[trigger] marked@[k],
            decreases all@.len() - m,
        {
            marked.push(false);
            m += 1;
        }
        proof {
            lemma_in_order_distinct(keys(g));
        }
        while grown
            invariant
                self.wf(),
                g == self.grid@,
                e == feeds(self@),
                roots == cells(dirty@),
                keys(g).no_duplicates(),
                g.len() == all@.len(),
                marked@.len() == all@.len(),
                forall|k: int|
                    0 <= k < all@.len() ==> cells((#[trigger] all@[k])@) == reads(
                        self@,
                        g[k].0,
                        g[k].1,
                    ),
                in_order(cells(seen@)),
                forall|c: CellView| #[trigger]
                    cells(seen@).contains(c) ==> reachable(e, roots, c),
                forall|k: int| 0 <= k < roots.len() ==> cells(seen@).contains(#[trigger] roots[k]),
                !grown ==> forall|k: int|
                    0 <= k < all@.len() ==> (#[trigger] marked@[k] || !touches(
                        cells(all@[k]@),
                        cells(seen@),
                    )),
                forall|k: int|
                    0 <= k < all@.len() && #[trigger] marked@[k] ==> cells(seen@).contains(g[k].0),
            decreases unmarked(marked@), (if grown { 1nat } else { 0nat }),
        {
            grown = false;
            let ghost before = unmarked(marked@);
            let mut k: usize = 0;
            while k < all.len()
                invariant
                    self.wf(),
                    g == self.grid@,
                    e == feeds(self@),
                    roots == cells(dirty@),
                    keys(g).no_duplicates(),
                    g.len() == all@.len(),
                    marked@.len() == all@.len(),
                    k <= all@.len(),
                    forall|k: int|
                        0 <= k < all@.len() ==> cells((#[trigger] all@[k])@) == reads(
                            self@,
                            g[k].0,
                            g[k].1,
                        ),
                    in_order(cells(seen@)),
                    forall|c: CellView| #[trigger]
                        cells(seen@).contains(c) ==> reachable(e, roots, c),
                    forall|k: int|
                        0 <= k < roots.len() ==> cells(seen@).contains(#[trigger] roots[k]),
                    !grown ==> forall|j: int|
                        0 <= j < k ==> (#[trigger] marked@[j] || !touches(
                            cells(all@[j]@),
                            cells(seen@),
                        )),
                    forall|k: int|
                        0 <= k < all@.len() && #[trigger] marked@[k] ==> cells(seen@).contains(
                            g[k].0,
                        ),
                    grown ==> unmarked(marked@) < before,
                    !grown ==> unmarked(marked@) == before,
                decreases all@.len() - k,
            {
                if !marked[k] && any_in(&all[k], &seen) {
                    let ghost was = cells(seen@);
                    let ghost flags = marked@;
                    proof {
                        let d = choose|d: CellView| #[trigger]
                            cells(all@[k as int]@).contains(d) && was.contains(d);
                        assert(keys(g)[k as int] == g[k as int].0);
                        assert(keys(g).contains(g[k as int].0));
                        assert(keys(g).index_of(g[k as int].0) == k);
                        assert(deps_of(self@, g[k as int].0) == cells(all@[k as int]@));
                        assert(e(d, g[k as int].0));
                        lemma_reach_step(e, roots, d, g[k as int].0);
                    }
                    insert_cell(&mut seen, self.grid.entries[k].0.copy());
                    marked.set(k, true);
                    grown = true;
                    proof {
                        lemma_unmarked(flags, k as int);
                        assert forall|x: int| 0 <= x < roots.len() implies cells(seen@).contains(
                            #[trigger] roots[x],
                        ) by {
                            assert(was.contains(roots[x]));
                        }
                        assert forall|x: int|
                            0 <= x < all@.len() && #[trigger] marked@[x] implies cells(
                            seen@,
                        ).contains(g[x].0) by {
                            if x != k {
                                assert(flags[x]);
                                assert(was.contains(g[x].0));
                            }
                        }
                    }
                }
                k += 1;
            }
        }
        proof {
            let set = cells(seen@);
            assert forall|x: CellView, y: CellView| set.contains(x) && #[trigger] e(
                x,
                y,
            ) implies set.contains(y) by {
                assert(keys(g).contains(y));
                let k = keys(g).index_of(y);
                assert(keys(g)[k] == g[k].0);
                assert(deps_of(self@, y) == cells(all@[k]@));
                assert(cells(all@[k]@).contains(x));
                assert(marked@[k] || !touches(cells(all@[k]@), set));
            }
            assert forall|c: CellView| reachable(e, roots, c) implies #[trigger] set.contains(c) by {
                lemma_reach_least(e, roots, set, c);
            }
        }
        seen
    }

    /// The cells to recalculate after a change, in order.
    pub fn recalc(&self, dirty: &Vec<CellRef>) -> (r: Vec<CellRef>)
        requires
            self.wf(),
        ensures
            in_order(cells(r@)),
            all_of(r@) == recalc_set(self@, cells(dirty@)),
            cells(r@) == listed_cells(recalc_set(self@, cells(dirty@))),
    {
        let r;
        if dirty.len() == 0 {
            let mut out: Vec<CellRef> = Vec::new();
            let mut i: usize = 0;
            while i < self.grid.entries.len()
                invariant
                    i <= self.grid@.len(),
                    cells(out@) == keys(self.grid@).take(i as int),
                decreases self.grid@.len() - i,
            {
                let ghost was = cells(out@);
                out.push(self.grid.entries[i].0.copy());
                assert(cells(out@) =~= was.push(self.grid@[i as int].0));
                assert(keys(self.grid@).take(i + 1) =~= was.push(self.grid@[i as int].0));
                i += 1;
            }
            assert(keys(self.grid@).take(i as int) =~= keys(self.grid@));
            r = out;
        } else {
            r = self.impacted(dirty);
        }
        proof {
            let s = recalc_set(self@, cells(dirty@));
            assert(all_of(r@) =~= s);
            assert forall|x: CellView| #[trigger] cells(r@).contains(x) <==> s.contains(x) by {
                assert(all_of(r@).contains(x) <==> cells(r@).contains(x));
            }
            lemma_listed_cells(cells(r@), s);
        }
        r
    }

    /// Where the value of a cell comes from, on the way down a path; for a formula with tokens,
    /// with the cells that it reads.
    fn source(&self, at: &CellRef, path: &Vec<CellRef>) -> (r: (Source, Vec<CellRef>))
        requires
            self.wf(),
        ensures
            r.0@ == origin(self@, at@, cells(path@)),
            r.0 is Computed ==> cells(r.1@) == deps_of(self@, at@),
    {
        let none: Vec<CellRef> = Vec::new();
        match self.grid.get(at) {
            None => (Source::Empty, none),
            Some(Cell::Literal(s)) => (
                Source::Literal(from_chars(to_chars(s.as_str()).as_slice())),
                none,
            ),
            Some(Cell::Formula(f)) => {
                if mentions_cell(path, at) || path.len() >= self.grid.entries.len() {
                    (Source::Cycle, none)
                } else {
                    match dependencies(at.sheet.as_str(), f.as_str(), self.names) {
                        Ok(v) => (Source::Computed, v),
                        Err(e) => {
                            let mut m = String::new();
                            m.push_str("#VALUE! ");
                            m.push_str(e.as_str());
                            assert(m@ =~= "#VALUE! "@ + e@);
                            (Source::Unreadable(m), none)
                        },
                    }
                }
            },
        }
    }

    /// Adds the steps that evaluate one cell: those of what it reads, then its own.
    fn evaluate_cell(
        &self,
        at: &CellRef,
        path: &Vec<CellRef>,
        known: &mut Vec<CellRef>,
        out: &mut Vec<Step>,
    )
        requires
            self.wf(),
            in_order(cells(old(known)@)),
        ensures
            in_order(cells(final(known)@)),
            ({
                let own = prepared(self@, at@, cells(path@), all_of(old(known)@)).push(
                    StepView { at: at@, origin: origin(self@, at@, cells(path@)) },
                );
                &&& steps(final(out)@) == steps(old(out)@) + own
                &&& all_of(final(known)@) == all_of(old(known)@).union(given(own))
            }),
        decreases self.grid@.len() - path@.len(), 0nat,
    {
        let ghost known0 = all_of(known@);
        let ghost out0 = steps(out@);
        let ghost prep = prepared(self@, at@, cells(path@), known0);
        let (source, deps) = self.source(at, path);
        let n = self.grid.entries.len();
        assert(self.grid@.len() == n);
        if let Source::Computed = source {
            if path.len() < n {
                let mut longer = crate::sheets::cell::copy_cells(path);
                longer.push(at.copy());
                assert(cells(longer@) =~= cells(path@).push(at@));
                self.resolve(&deps, &longer, known, out);
            } else {
                proof {
                    assert(given(prep) =~= Set::<CellView>::empty());
                    assert(out0 + prep =~= out0);
                    assert(all_of(known@) =~= known0.union(given(prep)));
                }
            }
        } else {
            proof {
                assert(given(prep) =~= Set::<CellView>::empty());
                assert(out0 + prep =~= out0);
                assert(all_of(known@) =~= known0.union(given(prep)));
            }
        }
        assert(steps(out@) == out0 + prep);
        assert(all_of(known@) == known0.union(given(prep)));
        let ghost mid = cells(known@);
        let ghost last = StepView { at: at@, origin: source@ };
        insert_cell(known, at.copy());
        out.push(Step { at: at.copy(), source });
        proof {
            assert(steps(out@) =~= (out0 + prep).push(last));
            assert(steps(out@) =~= out0 + prep.push(last));
            lemma_given_push(prep, last);
            assert forall|c: CellView| all_of(known@).contains(c) == known0.union(
                given(prep.push(last)),
            ).contains(c) by {
                assert(cells(known@).contains(c) <==> mid.contains(c) || c == at@);
                assert(mid.to_set().contains(c) <==> mid.contains(c));
                assert(known0.union(given(prep)).contains(c) <==> mid.contains(c));
            }
            assert(all_of(known@) =~= known0.union(given(prep.push(last))));
        }
    }

    /// Adds the steps that give a value to each of these cells that has none.
    fn resolve(
        &self,
        deps: &Vec<CellRef>,
        path: &Vec<CellRef>,
        known: &mut Vec<CellRef>,
        out: &mut Vec<Step>,
    )
        requires
            self.wf(),
            path@.len() <= self.grid@.len(),
            in_order(cells(old(known)@)),
        ensures
            in_order(cells(final(known)@)),
            ({
                let all = resolved(self@, cells(deps@), cells(path@), all_of(old(known)@));
                &&& steps(final(out)@) == steps(old(out)@) + all
                &&& all_of(final(known)@) == all_of(old(known)@).union(given(all))
            }),
        decreases self.grid@.len() - path@.len(), 1nat,
    {
        let ghost known0 = all_of(known@);
        let ghost out0 = steps(out@);
        let ghost all = resolved(self@, cells(deps@), cells(path@), known0);
        let ghost mut done: Seq<StepView> = Seq::empty();
        let mut i: usize = 0;
        proof {
            assert(cells(deps@).skip(0) =~= cells(deps@));
            assert(out0 + done =~= out0);
            assert(given(done) =~= Set::<CellView>::empty());
            assert(known0.union(given(done)) =~= known0);
            assert(done + all =~= all);
        }
        while i < deps.len()
            invariant
                self.wf(),
                path@.len() <= self.grid@.len(),
                i <= deps@.len(),
                in_order(cells(known@)),
                steps(out@) == out0 + done,
                all_of(known@) == known0.union(given(done)),
                all == done + resolved(
                    self@,
                    cells(deps@).skip(i as int),
                    cells(path@),
                    all_of(known@),
                ),
            decreases deps@.len() - i,
        {
            let ghost rest = cells(deps@).skip(i as int);
            let ghost k0 = all_of(known@);
            assert(rest[0] == deps@[i as int]@);
            assert(rest.skip(1) =~= cells(deps@).skip(i + 1));
            assert(k0.contains(rest[0]) <==> cells(known@).contains(rest[0]));
            if !has_cell(known, &deps[i]) {
                let ghost own = prepared(self@, rest[0], cells(path@), k0).push(
                    StepView { at: rest[0], origin: origin(self@, rest[0], cells(path@)) },
                );
                self.evaluate_cell(&deps[i], path, known, out);
                proof {
                    let more = resolved(self@, rest.skip(1), cells(path@), all_of(known@));
                    assert(done + (own + more) =~= (done + own) + more);
                    assert((out0 + done) + own =~= out0 + (done + own));
                    lemma_given_add(done, own);
                    assert(known0.union(given(done)).union(given(own)) =~= known0.union(
                        given(done + own),
                    ));
                    done = done + own;
                }
            }
            i += 1;
        }
        proof {
            assert(resolved(
                self@,
                cells(deps@).skip(i as int),
                cells(path@),
                all_of(known@),
            ) =~= Seq::<StepView>::empty());
            assert(all =~= done);
        }
    }

    /// Plans a recalculation. The values of the cells that the changed cells reach are dropped, or
    /// of all cells where no changed cell is named; of those, and of the cells that had no value
    /// in `known` to begin with, the steps give the literals first and then the formulas, each
    /// after what it reads.
    pub fn plan(&self, dirty: &Vec<CellRef>, known: &Vec<CellRef>) -> (r: Plan)
        requires
            self.wf(),
        ensures
            cells(r.forget@) == listed_cells(recalc_set(self@, cells(dirty@))),
            in_order(cells(r.forget@)),
            all_of(r.forget@) == recalc_set(self@, cells(dirty@)),
            steps(r.steps@) == planned(
                self@,
                all_of(known@).difference(recalc_set(self@, cells(dirty@))),
            ),
    {
        let forget = self.recalc(dirty);
        let ghost b = self@;
        let ghost k0 = all_of(known@).difference(recalc_set(b, cells(dirty@)));
        let mut kept: Vec<CellRef> = Vec::new();
        let mut i: usize = 0;
        while i < known.len()
            invariant
                i <= known@.len(),
                in_order(cells(forget@)),
                in_order(cells(kept@)),
                forall|c: CellView| #[trigger]
                    cells(kept@).contains(c) <==> cells(known@).take(i as int).contains(c)
                        && !cells(forget@).contains(c),
            decreases known@.len() - i,
        {
            let ghost was = cells(kept@);
            if !has_cell(&forget, &known[i]) {
                insert_cell(&mut kept, known[i].copy());
            }
            proof {
                let nn = cells(known@).take(i + 1);
                assert(nn =~= cells(known@).take(i as int).push(known@[i as int]@));
                assert forall|c: CellView| #[trigger]
                    cells(kept@).contains(c) <==> nn.contains(c) && !cells(forget@).contains(
                        c,
                    ) by {
                    let pre = cells(known@).take(i as int);
                    assert(nn.contains(c) <==> pre.contains(c) || c == known@[i as int]@) by {
                        if pre.contains(c) {
                            let k = choose|k: int| 0 <= k < pre.len() && pre[k] == c;
                            assert(nn[k] == c);
                        }
                        assert(nn[i as int] == known@[i as int]@);
                    }
                    assert(was.contains(c) <==> pre.contains(c) && !cells(forget@).contains(c));
                }
            }
            i += 1;
        }
        proof {
            assert(cells(known@).take(i as int) =~= cells(known@));
            assert forall|c: CellView| all_of(kept@).contains(c) == k0.contains(c) by {
                assert(cells(kept@).contains(c) <==> cells(known@).contains(c) && !cells(
                    forget@,
                ).contains(c));
                assert(all_of(forget@).contains(c) <==> cells(forget@).contains(c));
            }
            assert(all_of(kept@) =~= k0);
        }
        let mut out: Vec<Step> = Vec::new();
        let mut order: Vec<CellRef> = Vec::new();
        let ghost g = self.grid@;
        let mut j: usize = 0;
        assert(steps(out@) =~= literals(g.take(0), k0));
        assert(cells(order@) =~= pending(g.take(0), k0));
        let mut seen = crate::sheets::cell::copy_cells(&kept);
        assert(given(steps(out@)) =~= Set::<CellView>::empty());
        assert(all_of(seen@) =~= k0.union(given(steps(out@))));
        while j < self.grid.entries.len()
            invariant
                self.wf(),
                g == self.grid@,
                j <= g.len(),
                in_order(cells(kept@)),
                in_order(cells(seen@)),
                all_of(kept@) == k0,
                steps(out@) == literals(g.take(j as int), k0),
                cells(order@) == pending(g.take(j as int), k0),
                all_of(seen@) == k0.union(given(steps(out@))),
            decreases g.len() - j,
        {
            let e = &self.grid.entries[j];
            let ghost nn = g.take(j + 1);
            let ghost (was, ord, sn) = (steps(out@), cells(order@), cells(seen@));
            proof {
                assert(nn.drop_last() =~= g.take(j as int));
                assert(nn.last() == (e.0@, e.1@));
                assert(all_of(kept@).contains(e.0@) <==> cells(kept@).contains(e.0@));
            }
            let fresh = !has_cell(&kept, &e.0);
            match &e.1 {
                Cell::Literal(s) => {
                    if fresh {
                        let text = from_chars(to_chars(s.as_str()).as_slice());
                        let step = Step { at: e.0.copy(), source: Source::Literal(text) };
                        let ghost sv = step@;
                        out.push(step);
                        insert_cell(&mut seen, e.0.copy());
                        proof {
                            assert(steps(out@) =~= was.push(sv));
                            lemma_given_push(was, sv);
                            assert forall|c: CellView|
                                all_of(seen@).contains(c) == k0.union(given(steps(out@))).contains(
                                    c,
                                ) by {
                                assert(cells(seen@).contains(c) <==> sn.contains(c) || c == sv.at);
                                assert(sn.to_set().contains(c) <==> sn.contains(c));
                                assert(k0.union(given(was)).contains(c) <==> sn.contains(c));
                            }
                            assert(all_of(seen@) =~= k0.union(given(steps(out@))));
                        }
                    }
                },
                Cell::Formula(_) => {
                    if fresh {
                        order.push(e.0.copy());
                        assert(cells(order@) =~= ord.push(e.0@));
                    }
                },
            }
            j += 1;
        }
        assert(g.take(j as int) =~= g);
        let ghost first = literals(g, k0);
        let ghost all = evaluated(b, cells(order@), all_of(seen@));
        let ghost mut done: Seq<StepView> = Seq::empty();
        let path: Vec<CellRef> = Vec::new();
        let mut k: usize = 0;
        proof {
            assert(cells(path@) =~= Seq::<CellView>::empty());
            assert(cells(order@).skip(0) =~= cells(order@));
            assert(first + done =~= first);
            assert(done + all =~= all);
        }
        while k < order.len()
            invariant
                self.wf(),
                b == self@,
                k <= order@.len(),
                in_order(cells(seen@)),
                cells(path@) == Seq::<CellView>::empty(),
                steps(out@) == first + done,
                all == done + evaluated(b, cells(order@).skip(k as int), all_of(seen@)),
            decreases order@.len() - k,
        {
            let ghost rest = cells(order@).skip(k as int);
            let ghost s0 = all_of(seen@);
            assert(rest[0] == order@[k as int]@);
            assert(rest.skip(1) =~= cells(order@).skip(k + 1));
            let ghost own = prepared(b, rest[0], Seq::empty(), s0).push(
                StepView { at: rest[0], origin: origin(b, rest[0], Seq::empty()) },
            );
            self.evaluate_cell(&order[k], &path, &mut seen, &mut out);
            proof {
                let more = evaluated(b, rest.skip(1), all_of(seen@));
                assert(done + (own + more) =~= (done + own) + more);
                assert((first + done) + own =~= first + (done + own));
                done = done + own;
            }
            k += 1;
        }
        assert(all =~= done);
        Plan { forget, steps: out }
    }
}

/// Do two runs of cells have one in common?
pub open spec fn touches(a: Seq<CellView>, b: Seq<CellView>) -> bool {
    exists|d: CellView| #[trigger] a.contains(d) && b.contains(d)
}

/// Is one of these cells in a run in order?
fn any_in(v: &Vec<CellRef>, set: &Vec<CellRef>) -> (r: bool)
    requires
        in_order(cells(set@)),
    ensures
        r == touches(cells(v@), cells(set@)),
{
    let mut i: usize = 0;
    while i < v.len()
        invariant
            i <= v@.len(),
            in_order(cells(set@)),
            forall|k: int| 0 <= k < i ==> !cells(set@).contains(#[trigger] cells(v@)[k]),
        decreases v@.len() - i,
    {
        if has_cell(set, &v[i]) {
            assert(cells(v@)[i as int] == v@[i as int]@);
            assert(cells(v@).contains(v@[i as int]@));
            return true;
        }
        i += 1;
    }
    proof {
        assert forall|d: CellView| #[trigger] cells(v@).contains(d) implies !cells(set@).contains(
            d,
        ) by {
            let k = choose|k: int| 0 <= k < cells(v@).len() && cells(v@)[k] == d;
            assert(cells(v@)[k] == d);
        }
    }
    false
}

/// How many flags are down.
spec fn unmarked(v: Seq<bool>) -> nat
    decreases v.len(),
{
    if v.len() == 0 {
        0
    } else {
        unmarked(v.drop_last()) + (if v.last() { 0nat } else { 1nat })
    }
}

proof fn lemma_unmarked(v: Seq<bool>, i: int)
    requires
        0 <= i < v.len(),
        !v[i],
    ensures
        unmarked(v.update(i, true)) + 1 == unmarked(v),
    decreases v.len(),
{
    if i == v.len() - 1 {
        assert(v.update(i, true).drop_last() =~= v.drop_last());
    } else {
        lemma_unmarked(v.drop_last(), i);
        assert(v.update(i, true).drop_last() =~= v.drop_last().update(i, true));
    }
}

} // verus!
