//! Cell references: how they are written, how they are ordered, and ordered runs of them.

use crate::names::before;
use crate::names::is_before;
use crate::names::lemma_before_asymmetric;
use crate::names::lemma_before_total;
use crate::names::lemma_before_transitive;
use crate::text::decimal;
use crate::text::from_chars;
use crate::text::same;
use crate::text::show;
use crate::text::to_chars;
use crate::wording::drop_char;
use crate::wording::find_char;
use crate::wording::index_of;
use crate::wording::is_letter;
use crate::wording::lemma_decimal;
use crate::wording::letter;
use crate::wording::number_of;
use crate::wording::parse_number;
use crate::wording::raised;
use crate::wording::skip_char;
use crate::wording::strip_leading;
use crate::wording::strip_trailing;
use crate::wording::unsigned;
use crate::wording::upper_char;
use vstd::prelude::*;

verus! {

/// One cell: `Sheet1!B4`, normalised. Column A is 1.
pub struct CellRef {
    pub sheet: String,
    pub col: u32,
    pub row: u32,
}

/// What a cell reference says.
#[verifier::ext_equal]
pub struct CellView {
    pub sheet: Seq<char>,
    pub col: nat,
    pub row: nat,
}

impl View for CellRef {
    type V = CellView;

    open spec fn view(&self) -> CellView {
        CellView { sheet: self.sheet@, col: self.col as nat, row: self.row as nat }
    }
}

/// The references of a run.
pub open spec fn cells(v: Seq<CellRef>) -> Seq<CellView> {
    v.map_values(|c: CellRef| c@)
}

/// A text without the occurrences of a character.
pub open spec fn without(s: Seq<char>, c: char) -> Seq<char>
    decreases s.len(),
{
    if s.len() == 0 {
        Seq::empty()
    } else if s.last() == c {
        without(s.drop_last(), c)
    } else {
        without(s.drop_last(), c).push(s.last())
    }
}

/// Drops every occurrence of a character.
fn remove_char(s: &str, c: char) -> (r: String)
    ensures
        r@ == without(s@, c),
{
    let v = to_chars(s);
    let mut out: Vec<char> = Vec::new();
    let mut i: usize = 0;
    while i < v.len()
        invariant
            i <= v@.len(),
            v@ == s@,
            out@ == without(s@.take(i as int), c),
        decreases v@.len() - i,
    {
        proof {
            let nn = s@.take(i + 1);
            assert(nn.drop_last() =~= s@.take(i as int));
            assert(nn.last() == v@[i as int]);
        }
        if v[i] != c {
            out.push(v[i]);
        }
        i += 1;
    }
    assert(s@.take(i as int) =~= s@);
    from_chars(&out)
}

/// How many letters a text opens with.
pub open spec fn letters_in(s: Seq<char>) -> int
    decreases s.len(),
{
    if s.len() == 0 || !is_letter(s[0]) {
        0
    } else {
        1 + letters_in(s.skip(1))
    }
}

/// Counts the letters that a text opens with.
fn count_letters(v: &Vec<char>) -> (n: usize)
    ensures
        n == letters_in(v@),
        n <= v@.len(),
        forall|k: int| 0 <= k < n ==> is_letter(#[trigger] v@[k]),
{
    let mut n: usize = 0;
    assert(v@.skip(0) =~= v@);
    while n < v.len() && letter(v[n])
        invariant
            n <= v@.len(),
            letters_in(v@) == n + letters_in(v@.skip(n as int)),
            forall|k: int| 0 <= k < n ==> is_letter(#[trigger] v@[k]),
        decreases v@.len() - n,
    {
        assert(v@.skip(n as int).skip(1) =~= v@.skip(n + 1));
        n += 1;
    }
    n
}

/// The place of a letter in the alphabet, from 1.
pub open spec fn ordinal(c: char) -> nat {
    (upper_char(c) as int - 'A' as int + 1) as nat
}

/// The column that a run of letters names, in base 26 with digits 1 to 26, kept to 32 bits.
pub open spec fn column_of(letters: Seq<char>) -> nat
    decreases letters.len(),
{
    if letters.len() == 0 {
        0
    } else {
        (column_of(letters.drop_last()) * 26 + ordinal(letters.last())) % 0x1_0000_0000
    }
}

/// The column that a run of letters names.
fn column(letters: &[char]) -> (r: u32)
    requires
        forall|k: int| 0 <= k < letters@.len() ==> is_letter(#[trigger] letters@[k]),
    ensures
        r == column_of(letters@),
{
    let mut col: u32 = 0;
    let mut i: usize = 0;
    while i < letters.len()
        invariant
            i <= letters@.len(),
            forall|k: int| 0 <= k < letters@.len() ==> is_letter(#[trigger] letters@[k]),
            col == column_of(letters@.take(i as int)),
        decreases letters@.len() - i,
    {
        proof {
            let nn = letters@.take(i + 1);
            assert(nn.drop_last() =~= letters@.take(i as int));
            assert(nn.last() == letters@[i as int]);
            assert(is_letter(letters@[i as int]));
        }
        let up = raised(letters[i]);
        let place: u32 = up as u32 - 'A' as u32 + 1;
        let wide: u64 = col as u64 * 26 + place as u64;
        col = (wide % 0x1_0000_0000u64) as u32;
        i += 1;
    }
    assert(letters@.take(i as int) =~= letters@);
    col
}

/// The letters of a column; none for column 0.
pub open spec fn letters_of(col: nat) -> Seq<char>
    decreases col,
{
    if col == 0 {
        Seq::empty()
    } else {
        letters_of(((col - 1) / 26) as nat).push(('A' as int + (col - 1) % 26) as char)
    }
}

/// The letters of a column.
fn letters(col: u32) -> (r: String)
    ensures
        r@ == letters_of(col as nat),
    decreases col,
{
    if col == 0 {
        String::new()
    } else {
        let mut r = letters((col - 1) / 26);
        let rem: u8 = ((col - 1) % 26) as u8;
        r.push((65u8 + rem) as char);
        r
    }
}

/// The sheet and the rest of a reference: what stands before its first `!`, without quotes at
/// either end, and what follows. Without a `!`, the default sheet and the whole text.
pub open spec fn split_sheet(default: Seq<char>, text: Seq<char>) -> (Seq<char>, Seq<char>) {
    let i = index_of(text, '!');
    if i < text.len() {
        (drop_char(skip_char(text.take(i), '\''), '\''), text.skip(i + 1))
    } else {
        (default, text)
    }
}

/// The cell that a text names: letters, then a row number, with `$` ignored, after an optional
/// sheet.
pub open spec fn parse_cell(default: Seq<char>, text: Seq<char>) -> Option<CellView> {
    let (sheet, rest) = split_sheet(default, text);
    let bare = without(rest, '$');
    let n = letters_in(bare);
    if n == 0 || n == bare.len() {
        None
    } else {
        match number_of(bare.skip(n), u32::MAX as nat) {
            Some(row) => Some(CellView { sheet, col: column_of(bare.take(n)), row }),
            None => None,
        }
    }
}

/// How a cell is written in full.
pub open spec fn a1_of(c: CellView) -> Seq<char> {
    c.sheet + "!"@ + letters_of(c.col) + decimal(c.row)
}

impl CellRef {
    /// Reads a reference. `None` where the text does not name a cell. Letters past the range of
    /// 32-bit columns wrap round.
    pub fn parse(sheet_default: &str, text: &str) -> (r: Option<CellRef>)
        ensures
            match r {
                Some(c) => parse_cell(sheet_default@, text@) == Some(c@),
                None => parse_cell(sheet_default@, text@) is None,
            },
    {
        let v = to_chars(text);
        let i = find_char(v.as_slice(), '!');
        let sheet: String;
        let rest: String;
        if i < v.len() {
            let quoted = from_chars(vstd::slice::slice_subrange(v.as_slice(), 0, i));
            assert(v@.subrange(0, i as int) =~= text@.take(i as int));
            let opened = strip_leading(quoted.as_str(), '\'');
            sheet = strip_trailing(opened.as_str(), '\'');
            rest = from_chars(vstd::slice::slice_subrange(v.as_slice(), i + 1, v.len()));
            assert(v@.subrange(i + 1, v@.len() as int) =~= text@.skip(i + 1));
        } else {
            sheet = crate::text::from_chars(to_chars(sheet_default).as_slice());
            rest = crate::text::from_chars(v.as_slice());
        }
        let bare = remove_char(rest.as_str(), '$');
        let b = to_chars(bare.as_str());
        let n = count_letters(&b);
        if n == 0 || n == b.len() {
            return None;
        }
        let letters = vstd::slice::slice_subrange(b.as_slice(), 0, n);
        assert(b@.subrange(0, n as int) =~= bare@.take(n as int));
        let digits = from_chars(vstd::slice::slice_subrange(b.as_slice(), n, b.len()));
        assert(b@.subrange(n as int, b@.len() as int) =~= bare@.skip(n as int));
        match parse_number(digits.as_str(), u32::MAX as u64) {
            Some(row) => {
                let col = column(letters);
                Some(CellRef { sheet, col, row: row as u32 })
            },
            None => None,
        }
    }

    /// The reference in full: sheet, `!`, column letters and row.
    pub fn a1(&self) -> (r: String)
        ensures
            r@ == a1_of(self@),
    {
        let mut r = crate::text::from_chars(to_chars(self.sheet.as_str()).as_slice());
        r.push_str("!");
        let l = letters(self.col);
        r.push_str(l.as_str());
        let d = show(self.row as u64);
        r.push_str(d.as_str());
        r
    }

    /// A copy.
    pub fn copy(&self) -> (r: CellRef)
        ensures
            r@ == self@,
    {
        CellRef {
            sheet: from_chars(to_chars(self.sheet.as_str()).as_slice()),
            col: self.col,
            row: self.row,
        }
    }
}

/// A copy of a run of references.
pub fn copy_cells(v: &Vec<CellRef>) -> (r: Vec<CellRef>)
    ensures
        cells(r@) == cells(v@),
{
    let mut out: Vec<CellRef> = Vec::new();
    let mut i: usize = 0;
    while i < v.len()
        invariant
            i <= v@.len(),
            cells(out@) == cells(v@).take(i as int),
        decreases v@.len() - i,
    {
        let ghost was = cells(out@);
        out.push(v[i].copy());
        assert(cells(out@) =~= was.push(v@[i as int]@));
        assert(cells(v@).take(i + 1) =~= was.push(v@[i as int]@));
        i += 1;
    }
    assert(cells(v@).take(i as int) =~= cells(v@));
    out
}

proof fn lemma_letters_are_letters(col: nat)
    ensures
        forall|k: int| 0 <= k < letters_of(col).len() ==> 'A' <= #[trigger] letters_of(col)[k] <= 'Z',
        col > 0 ==> letters_of(col).len() > 0,
    decreases col,
{
    if col > 0 {
        let q = ((col - 1) / 26) as nat;
        lemma_letters_are_letters(q);
        assert forall|k: int| 0 <= k < letters_of(col).len() implies 'A' <= #[trigger] letters_of(
            col,
        )[k] <= 'Z' by {
            if k < letters_of(q).len() {
                assert(letters_of(col)[k] == letters_of(q)[k]);
            }
        }
    }
}

/// The letters of a column name that column.
pub proof fn law_column_letters_round_trip(col: nat)
    requires
        col <= u32::MAX,
    ensures
        column_of(letters_of(col)) == col,
    decreases col,
{
    if col > 0 {
        let q = ((col - 1) / 26) as nat;
        law_column_letters_round_trip(q);
        let c = ('A' as int + (col - 1) % 26) as char;
        assert(letters_of(col).drop_last() =~= letters_of(q));
        assert(letters_of(col).last() == c);
        assert(ordinal(c) == (col - 1) % 26 + 1);
        assert(q * 26 + (col - 1) % 26 + 1 == col);
    }
}

proof fn lemma_without_none(s: Seq<char>, c: char)
    requires
        forall|k: int| 0 <= k < s.len() ==> #[trigger] s[k] != c,
    ensures
        without(s, c) == s,
    decreases s.len(),
{
    if s.len() > 0 {
        lemma_without_none(s.drop_last(), c);
        assert(s.drop_last().push(s.last()) =~= s);
    }
}

proof fn lemma_letters_in(s: Seq<char>, n: int)
    requires
        0 <= n < s.len(),
        forall|k: int| 0 <= k < n ==> is_letter(#[trigger] s[k]),
        !is_letter(s[n]),
    ensures
        letters_in(s) == n,
    decreases n,
{
    if n > 0 {
        assert forall|k: int| 0 <= k < n - 1 implies is_letter(#[trigger] s.skip(1)[k]) by {
            assert(s.skip(1)[k] == s[k + 1]);
        }
        lemma_letters_in(s.skip(1), n - 1);
    }
}

proof fn lemma_index_of(s: Seq<char>, c: char, n: int)
    requires
        0 <= n < s.len(),
        s[n] == c,
        forall|k: int| 0 <= k < n ==> #[trigger] s[k] != c,
    ensures
        index_of(s, c) == n,
    decreases n,
{
    if n > 0 {
        assert forall|k: int| 0 <= k < n - 1 implies #[trigger] s.skip(1)[k] != c by {
            assert(s.skip(1)[k] == s[k + 1]);
        }
        lemma_index_of(s.skip(1), c, n - 1);
    }
}

/// A cell written in full reads back as itself, whatever the default sheet is: the column has
/// letters, and the sheet's name has no `!` in it and no quote at either end.
pub proof fn law_a1_round_trips(c: CellView, default: Seq<char>)
    requires
        0 < c.col <= u32::MAX,
        c.row <= u32::MAX,
        !c.sheet.contains('!'),
        c.sheet.len() > 0 ==> c.sheet[0] != '\'' && c.sheet.last() != '\'',
    ensures
        parse_cell(default, a1_of(c)) == Some(c),
{
    reveal_strlit("!");
    let text = a1_of(c);
    let l = letters_of(c.col);
    let d = decimal(c.row);
    let n = c.sheet.len() as int;
    lemma_letters_are_letters(c.col);
    lemma_decimal(c.row);
    law_column_letters_round_trip(c.col);
    assert(text[n] == '!');
    assert forall|k: int| 0 <= k < n implies #[trigger] text[k] != '!' by {
        assert(text[k] == c.sheet[k]);
    }
    lemma_index_of(text, '!', n);
    assert(text.take(n) =~= c.sheet);
    assert(text.skip(n + 1) =~= l + d);
    assert forall|k: int| 0 <= k < (l + d).len() implies #[trigger] (l + d)[k] != '$' by {
        if k < l.len() {
            assert((l + d)[k] == l[k]);
        } else {
            assert((l + d)[k] == d[k - l.len()]);
            assert(crate::wording::is_digit(d[k - l.len()]));
        }
    }
    lemma_without_none(l + d, '$');
    assert forall|k: int| 0 <= k < l.len() implies is_letter(#[trigger] (l + d)[k]) by {
        assert((l + d)[k] == l[k]);
    }
    assert((l + d)[l.len() as int] == d[0]);
    assert(crate::wording::is_digit(d[0]));
    lemma_letters_in(l + d, l.len() as int);
    assert((l + d).skip(l.len() as int) =~= d);
    assert((l + d).take(l.len() as int) =~= l);
    assert(unsigned(d) == d);
}

/// Does `a` come before `b`: by sheet, then by column, then by row?
pub open spec fn cell_before(a: CellView, b: CellView) -> bool {
    ||| before(a.sheet, b.sheet)
    ||| a.sheet == b.sheet && a.col < b.col
    ||| a.sheet == b.sheet && a.col == b.col && a.row < b.row
}

/// Does `a` come before `b`?
pub fn is_cell_before(a: &CellRef, b: &CellRef) -> (r: bool)
    ensures
        r == cell_before(a@, b@),
{
    if is_before(a.sheet.as_str(), b.sheet.as_str()) {
        true
    } else if same(a.sheet.as_str(), b.sheet.as_str()) {
        a.col < b.col || (a.col == b.col && a.row < b.row)
    } else {
        false
    }
}

/// Are these the same cell?
pub fn same_cell(a: &CellRef, b: &CellRef) -> (r: bool)
    ensures
        r == (a@ == b@),
{
    let r = a.col == b.col && a.row == b.row && same(a.sheet.as_str(), b.sheet.as_str());
    assert(r ==> a@ =~= b@);
    r
}

pub proof fn lemma_cell_total(a: CellView, b: CellView)
    ensures
        a == b || cell_before(a, b) || cell_before(b, a),
{
    lemma_before_total(a.sheet, b.sheet);
    if !(cell_before(a, b) || cell_before(b, a)) {
        assert(a =~= b);
    }
}

pub proof fn lemma_cell_asymmetric(a: CellView, b: CellView)
    ensures
        cell_before(a, b) ==> !cell_before(b, a) && a != b,
{
    lemma_before_asymmetric(a.sheet, b.sheet);
    lemma_before_asymmetric(b.sheet, a.sheet);
    lemma_before_asymmetric(a.sheet, a.sheet);
}

pub proof fn lemma_cell_transitive(a: CellView, b: CellView, c: CellView)
    requires
        cell_before(a, b),
        cell_before(b, c),
    ensures
        cell_before(a, c),
{
    if before(a.sheet, b.sheet) && before(b.sheet, c.sheet) {
        lemma_before_transitive(a.sheet, b.sheet, c.sheet);
    }
}

/// Does each cell come before the next?
pub open spec fn in_order(v: Seq<CellView>) -> bool {
    forall|i: int, j: int| 0 <= i < j < v.len() ==> cell_before(#[trigger] v[i], #[trigger] v[j])
}

/// A run in order holds no cell twice.
pub proof fn lemma_in_order_distinct(v: Seq<CellView>)
    requires
        in_order(v),
    ensures
        v.no_duplicates(),
{
    assert forall|i: int, j: int| 0 <= i < v.len() && 0 <= j < v.len() && i != j implies v[i]
        != v[j] by {
        if i < j {
            lemma_cell_asymmetric(v[i], v[j]);
        } else {
            lemma_cell_asymmetric(v[j], v[i]);
        }
    }
}

/// Two runs in order with the same members are the same run.
pub proof fn lemma_in_order_unique(a: Seq<CellView>, b: Seq<CellView>)
    requires
        in_order(a),
        in_order(b),
        forall|x: CellView| a.contains(x) <==> b.contains(x),
    ensures
        a == b,
    decreases a.len(),
{
    if a.len() == 0 {
        if b.len() > 0 {
            assert(b.contains(b[0]));
        }
        assert(a =~= b);
    } else if b.len() == 0 {
        assert(a.contains(a[0]));
    } else {
        let (i, j) = (a.len() - 1, b.len() - 1);
        if a[i] != b[j] {
            lemma_cell_total(a[i], b[j]);
            assert(b.contains(a[i]) && a.contains(b[j]));
            let p = choose|p: int| 0 <= p < b.len() && b[p] == a[i];
            let q = choose|q: int| 0 <= q < a.len() && a[q] == b[j];
            if p < j {
                assert(cell_before(b[p], b[j]));
            }
            if q < i {
                assert(cell_before(a[q], a[i]));
            }
            lemma_cell_asymmetric(a[i], b[j]);
        }
        let (x, y) = (a.drop_last(), b.drop_last());
        assert forall|c: CellView| x.contains(c) <==> y.contains(c) by {
            if x.contains(c) {
                let k = choose|k: int| 0 <= k < x.len() && x[k] == c;
                assert(a[k] == c);
                assert(cell_before(a[k], a[i]));
                lemma_cell_asymmetric(a[k], a[i]);
                assert(b.contains(c));
                let m = choose|m: int| 0 <= m < b.len() && b[m] == c;
                assert(y[m] == c);
            }
            if y.contains(c) {
                let k = choose|k: int| 0 <= k < y.len() && y[k] == c;
                assert(b[k] == c);
                assert(cell_before(b[k], b[j]));
                lemma_cell_asymmetric(b[k], b[j]);
                assert(a.contains(c));
                let m = choose|m: int| 0 <= m < a.len() && a[m] == c;
                assert(x[m] == c);
            }
        }
        lemma_in_order_unique(x, y);
        assert(a =~= x.push(a[i]));
        assert(b =~= y.push(b[j]));
    }
}

/// The members of a set of cells, in order.
pub open spec fn listed_cells(s: Set<CellView>) -> Seq<CellView> {
    choose|v: Seq<CellView>|
        in_order(v) && forall|x: CellView| #[trigger] v.contains(x) <==> s.contains(x)
}

/// A run in order of exactly the members of a set is the set's list.
pub proof fn lemma_listed_cells(v: Seq<CellView>, s: Set<CellView>)
    requires
        in_order(v),
        forall|x: CellView| #[trigger] v.contains(x) <==> s.contains(x),
    ensures
        listed_cells(s) == v,
{
    let w = listed_cells(s);
    assert(in_order(w) && forall|x: CellView| #[trigger] w.contains(x) <==> s.contains(x));
    assert forall|x: CellView| v.contains(x) <==> w.contains(x) by {}
    lemma_in_order_unique(v, w);
}

/// The first place at or after which `c` can stand in a run in order, and whether it stands there.
pub fn cell_position(v: &Vec<CellRef>, c: &CellRef) -> (r: (usize, bool))
    requires
        in_order(cells(v@)),
    ensures
        r.0 <= v@.len(),
        r.1 == cells(v@).contains(c@),
        r.1 ==> r.0 < v@.len() && v@[r.0 as int]@ == c@,
        forall|k: int| 0 <= k < r.0 ==> cell_before(#[trigger] cells(v@)[k], c@),
        !r.1 ==> forall|k: int| r.0 <= k < v@.len() ==> cell_before(c@, #[trigger] cells(v@)[k]),
{
    let mut i: usize = 0;
    while i < v.len() && is_cell_before(&v[i], c)
        invariant
            i <= v@.len(),
            forall|k: int| 0 <= k < i ==> cell_before(#[trigger] cells(v@)[k], c@),
        decreases v@.len() - i,
    {
        i += 1;
    }
    let found = i < v.len() && same_cell(&v[i], c);
    proof {
        let all = cells(v@);
        if found {
            assert(all[i as int] == c@);
        } else {
            assert forall|k: int| i <= k < all.len() implies cell_before(c@, #[trigger] all[k]) by {
                lemma_cell_total(all[i as int], c@);
                if k > i {
                    lemma_cell_transitive(c@, all[i as int], all[k]);
                }
            }
            assert forall|k: int| 0 <= k < all.len() implies all[k] != c@ by {
                lemma_cell_asymmetric(all[k], c@);
                lemma_cell_asymmetric(c@, all[k]);
            }
        }
    }
    (i, found)
}

/// Is `c` in a run in order?
pub fn has_cell(v: &Vec<CellRef>, c: &CellRef) -> (r: bool)
    requires
        in_order(cells(v@)),
    ensures
        r == cells(v@).contains(c@),
{
    cell_position(v, c).1
}

/// Is `c` anywhere in a run?
pub fn mentions_cell(v: &Vec<CellRef>, c: &CellRef) -> (r: bool)
    ensures
        r == cells(v@).contains(c@),
{
    let mut i: usize = 0;
    while i < v.len()
        invariant
            i <= v@.len(),
            forall|k: int| 0 <= k < i ==> #[trigger] cells(v@)[k] != c@,
        decreases v@.len() - i,
    {
        if same_cell(&v[i], c) {
            assert(cells(v@)[i as int] == c@);
            return true;
        }
        i += 1;
    }
    false
}

/// Puts `c` into a run in order, unless it is there.
pub fn insert_cell(v: &mut Vec<CellRef>, c: CellRef) -> (fresh: bool)
    requires
        in_order(cells(old(v)@)),
    ensures
        in_order(cells(final(v)@)),
        fresh == !cells(old(v)@).contains(c@),
        !fresh ==> final(v)@ == old(v)@,
        final(v)@.len() == old(v)@.len() + if fresh { 1int } else { 0int },
        forall|x: CellView| #[trigger]
            cells(final(v)@).contains(x) <==> cells(old(v)@).contains(x) || x == c@,
{
    let (i, found) = cell_position(v, &c);
    if found {
        return false;
    }
    let ghost was = cells(v@);
    let ghost cv = c@;
    v.insert(i, c);
    proof {
        let all = cells(v@);
        assert(all =~= was.insert(i as int, cv));
        assert forall|x: CellView| #[trigger] all.contains(x) <==> was.contains(x) || x == cv by {
            if all.contains(x) {
                let k = choose|k: int| 0 <= k < all.len() && all[k] == x;
                if k < i {
                    assert(was[k] == x);
                } else if k > i {
                    assert(was[k - 1] == x);
                }
            }
            if was.contains(x) {
                let k = choose|k: int| 0 <= k < was.len() && was[k] == x;
                if k < i {
                    assert(all[k] == x);
                } else {
                    assert(all[k + 1] == x);
                }
            }
            assert(all[i as int] == cv);
        }
        assert forall|a: int, b: int| 0 <= a < b < all.len() implies cell_before(
            #[trigger] all[a],
            #[trigger] all[b],
        ) by {
            let p = if a < i { a } else { a - 1 };
            let q = if b < i { b } else { b - 1 };
            if a == i {
                assert(all[b] == was[q]);
            } else if b == i {
                assert(all[a] == was[p]);
            } else {
                assert(all[a] == was[p] && all[b] == was[q]);
            }
        }
    }
    true
}

} // verus!
