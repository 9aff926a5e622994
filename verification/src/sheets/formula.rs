//! A small formula language: its tokens, the cells that a formula reads, and the program that
//! evaluates it.

use crate::maps::NameMap;
use crate::sheets::cell::cells;
use crate::sheets::cell::in_order;
use crate::sheets::cell::insert_cell;
use crate::sheets::cell::lemma_listed_cells;
use crate::sheets::cell::listed_cells;
use crate::sheets::cell::parse_cell;
use crate::sheets::cell::CellRef;
use crate::sheets::cell::CellView;
use crate::text::from_chars;
use crate::text::to_chars;
use crate::wording::alnum;
use crate::wording::digit;
use crate::wording::find_char;
use crate::wording::index_of;
use crate::wording::is_alnum;
use crate::wording::is_digit;
use crate::wording::is_letter;
use crate::wording::letter;
use crate::wording::skip_char;
use crate::wording::strip_leading;
use crate::wording::to_upper;
use crate::wording::upper_of;
use vstd::prelude::*;

verus! {

/// The tokens of a formula.
pub enum Tok {
    Num(String),
    Str(String),
    Ident(String),
    Ref(CellRef),
    Range(CellRef, CellRef),
    Op(char),
    Compare(String),
    LParen,
    RParen,
    Comma,
}

/// What a token says.
#[verifier::ext_equal]
pub enum TokView {
    Num(Seq<char>),
    Str(Seq<char>),
    Ident(Seq<char>),
    Ref(CellView),
    Range(CellView, CellView),
    Op(char),
    Compare(Seq<char>),
    LParen,
    RParen,
    Comma,
}

impl View for Tok {
    type V = TokView;

    open spec fn view(&self) -> TokView {
        match *self {
            Tok::Num(s) => TokView::Num(s@),
            Tok::Str(s) => TokView::Str(s@),
            Tok::Ident(s) => TokView::Ident(s@),
            Tok::Ref(c) => TokView::Ref(c@),
            Tok::Range(a, b) => TokView::Range(a@, b@),
            Tok::Op(c) => TokView::Op(c),
            Tok::Compare(s) => TokView::Compare(s@),
            Tok::LParen => TokView::LParen,
            Tok::RParen => TokView::RParen,
            Tok::Comma => TokView::Comma,
        }
    }
}

/// What a run of tokens says.
pub open spec fn toks(v: Seq<Tok>) -> Seq<TokView> {
    v.map_values(|t: Tok| t@)
}

/// What the defined names of a workbook stand for.
pub open spec fn name_texts(m: NameMap<String>) -> Map<Seq<char>, Seq<char>> {
    m@.map_values(|s: String| s@)
}

/// The classes of characters that runs of a formula are made of.
#[derive(Clone, Copy)]
pub enum Class {
    /// Digits and points.
    Number,
    /// What a name or a reference is made of.
    Word,
    /// What the far corner of a range is made of.
    Corner,
    /// Anything but a double quote.
    Quoted,
}

pub open spec fn in_class(k: Class, c: char) -> bool {
    match k {
        Class::Number => is_digit(c) || c == '.',
        Class::Word => is_alnum(c) || c == '_' || c == '$' || c == '!' || c == '\'',
        Class::Corner => is_alnum(c) || c == '$' || c == '!',
        Class::Quoted => c != '"',
    }
}

fn belongs(k: Class, c: char) -> (r: bool)
    ensures
        r == in_class(k, c),
{
    match k {
        Class::Number => digit(c) || c == '.',
        Class::Word => alnum(c) || c == '_' || c == '$' || c == '!' || c == '\'',
        Class::Corner => alnum(c) || c == '$' || c == '!',
        Class::Quoted => c != '"',
    }
}

/// Where the run of a class that starts at `i` ends.
pub open spec fn run_end(k: Class, s: Seq<char>, i: int) -> int
    decreases s.len() - i,
{
    if i < 0 || i >= s.len() || !in_class(k, s[i]) {
        i
    } else {
        run_end(k, s, i + 1)
    }
}

proof fn lemma_run_end(k: Class, s: Seq<char>, i: int)
    requires
        0 <= i <= s.len(),
    ensures
        i <= run_end(k, s, i) <= s.len(),
    decreases s.len() - i,
{
    if i < s.len() && in_class(k, s[i]) {
        lemma_run_end(k, s, i + 1);
    }
}

fn find_run_end(k: Class, v: &Vec<char>, i: usize) -> (e: usize)
    requires
        i <= v@.len(),
    ensures
        e == run_end(k, v@, i as int),
        i <= e <= v@.len(),
{
    let mut e = i;
    while e < v.len() && belongs(k, v[e])
        invariant
            i <= e <= v@.len(),
            run_end(k, v@, i as int) == run_end(k, v@, e as int),
        decreases v@.len() - e,
    {
        e += 1;
    }
    e
}

/// The text from `i` to `e`.
fn slice_text(v: &Vec<char>, i: usize, e: usize) -> (r: String)
    requires
        i <= e <= v@.len(),
    ensures
        r@ == v@.subrange(i as int, e as int),
{
    from_chars(vstd::slice::slice_subrange(v.as_slice(), i, e))
}

/// How many times a character occurs.
pub open spec fn tally(s: Seq<char>, c: char) -> nat
    decreases s.len(),
{
    if s.len() == 0 {
        0
    } else {
        tally(s.drop_last(), c) + (if s.last() == c { 1nat } else { 0nat })
    }
}

/// Is a run of digits and points a number? It has at most one point, and a digit.
pub open spec fn is_number(s: Seq<char>) -> bool {
    tally(s, '.') <= 1 && s.len() > tally(s, '.')
}

fn number_shaped(s: &str) -> (r: bool)
    ensures
        r == is_number(s@),
{
    let v = to_chars(s);
    let mut points: usize = 0;
    let mut i: usize = 0;
    while i < v.len()
        invariant
            i <= v@.len(),
            v@ == s@,
            points <= i,
            points == tally(s@.take(i as int), '.'),
        decreases v@.len() - i,
    {
        proof {
            let nn = s@.take(i + 1);
            assert(nn.drop_last() =~= s@.take(i as int));
            assert(nn.last() == v@[i as int]);
        }
        if v[i] == '.' {
            points += 1;
        }
        i += 1;
    }
    assert(s@.take(i as int) =~= s@);
    points <= 1 && v.len() > points
}

/// How a character is quoted in a message.
pub uninterp spec fn quoted_char(c: char) -> Seq<char>;

/// Quotes a character as the `Debug` form of `char` in std does. Which characters are escaped
/// there, and how, goes by tables of Unicode and is not said here; the result is named
/// `quoted_char` of the character.
#[verifier::external_body]
fn quote_char(c: char) -> (r: String)
    ensures
        r@ == quoted_char(c),
{
    format!("{c:?}")
}

/// What a defined name puts into a formula: a range where it names one, else a cell where it
/// names one.
pub open spec fn resolved(sheet: Seq<char>, target: Seq<char>) -> Option<TokView> {
    let i = index_of(target, ':');
    let a = parse_cell(sheet, target.take(i));
    let b = parse_cell(sheet, target.skip(i + 1));
    if i < target.len() && a is Some && b is Some {
        Some(TokView::Range(a->0, b->0))
    } else {
        match parse_cell(sheet, target) {
            Some(c) => Some(TokView::Ref(c)),
            None => None,
        }
    }
}

fn resolve_name(sheet: &str, target: &str) -> (r: Option<Tok>)
    ensures
        match r {
            Some(t) => resolved(sheet@, target@) == Some(t@),
            None => resolved(sheet@, target@) is None,
        },
{
    let v = to_chars(target);
    let i = find_char(v.as_slice(), ':');
    if i < v.len() {
        let first = slice_text(&v, 0, i);
        let second = slice_text(&v, i + 1, v.len());
        assert(v@.subrange(0, i as int) =~= target@.take(i as int));
        assert(v@.subrange(i + 1, v@.len() as int) =~= target@.skip(i + 1));
        let a = CellRef::parse(sheet, first.as_str());
        let b = CellRef::parse(sheet, second.as_str());
        if let Some(x) = a {
            if let Some(y) = b {
                return Some(Tok::Range(x, y));
            }
        }
    }
    match CellRef::parse(sheet, target) {
        Some(c) => Some(Tok::Ref(c)),
        None => None,
    }
}

/// Can a word start with this character?
pub open spec fn opens_word(c: char) -> bool {
    is_letter(c) || c == '_' || c == '$' || c == '\''
}

/// The token of the word that starts at `i`, and where it ends. A word and a colon and another
/// corner make a range; a defined name stands for what it points at; a word that is followed by
/// a parenthesis is a function, though it be shaped like a cell.
pub open spec fn word_step(
    s: Seq<char>,
    i: int,
    sheet: Seq<char>,
    names: Map<Seq<char>, Seq<char>>,
) -> (TokView, int) {
    let e = run_end(Class::Word, s, i);
    let word = s.subrange(i, e);
    let j = run_end(Class::Corner, s, e + 1);
    let a = parse_cell(sheet, word);
    let b = parse_cell(sheet, s.subrange(e + 1, j));
    if e < s.len() && s[e] == ':' && a is Some && b is Some {
        (TokView::Range(a->0, b->0), j)
    } else if names.contains_key(word) && resolved(sheet, names[word]) is Some {
        (resolved(sheet, names[word])->0, e)
    } else if a is Some && !(e < s.len() && s[e] == '(') {
        (TokView::Ref(a->0), e)
    } else {
        (TokView::Ident(upper_of(word)), e)
    }
}

/// What stands at `i`: a token or nothing, and where the next thing starts; or why there is
/// neither.
pub open spec fn step(
    s: Seq<char>,
    i: int,
    sheet: Seq<char>,
    names: Map<Seq<char>, Seq<char>>,
) -> Result<(Option<TokView>, int), Seq<char>> {
    let c = s[i];
    if c == ' ' || c == '\t' {
        Ok((None, i + 1))
    } else if c == '(' {
        Ok((Some(TokView::LParen), i + 1))
    } else if c == ')' {
        Ok((Some(TokView::RParen), i + 1))
    } else if c == ',' {
        Ok((Some(TokView::Comma), i + 1))
    } else if c == '+' || c == '-' || c == '*' || c == '/' || c == '^' || c == '&' {
        Ok((Some(TokView::Op(c)), i + 1))
    } else if c == '<' || c == '>' || c == '=' {
        if i + 1 < s.len() && (s[i + 1] == '=' || s[i + 1] == '>') {
            Ok((Some(TokView::Compare(s.subrange(i, i + 2))), i + 2))
        } else {
            Ok((Some(TokView::Compare(s.subrange(i, i + 1))), i + 1))
        }
    } else if c == '"' {
        let e = run_end(Class::Quoted, s, i + 1);
        Ok((Some(TokView::Str(s.subrange(i + 1, e))), if e < s.len() { e + 1 } else { e }))
    } else if is_digit(c) || c == '.' {
        let e = run_end(Class::Number, s, i);
        let text = s.subrange(i, e);
        if is_number(text) {
            Ok((Some(TokView::Num(text)), e))
        } else {
            Err("bad number "@ + text)
        }
    } else if opens_word(c) {
        let (t, e) = word_step(s, i, sheet, names);
        Ok((Some(t), e))
    } else {
        Err("unexpected character "@ + quoted_char(c))
    }
}

proof fn lemma_step(s: Seq<char>, i: int, sheet: Seq<char>, names: Map<Seq<char>, Seq<char>>)
    requires
        0 <= i < s.len(),
    ensures
        match step(s, i, sheet, names) {
            Ok((t, j)) => i < j <= s.len(),
            Err(e) => true,
        },
{
    lemma_run_end(Class::Quoted, s, i + 1);
    lemma_run_end(Class::Number, s, i + 1);
    lemma_run_end(Class::Word, s, i + 1);
    let e = run_end(Class::Word, s, i);
    if e < s.len() {
        lemma_run_end(Class::Corner, s, e + 1);
    }
}

/// The tokens from `i` on.
pub open spec fn tokens_from(
    s: Seq<char>,
    i: int,
    sheet: Seq<char>,
    names: Map<Seq<char>, Seq<char>>,
) -> Result<Seq<TokView>, Seq<char>>
    decreases s.len() - i,
    via tokens_from_decreases
{
    if i < 0 || i >= s.len() {
        Ok(Seq::empty())
    } else {
        match step(s, i, sheet, names) {
            Err(e) => Err(e),
            Ok((t, j)) => match tokens_from(s, j, sheet, names) {
                Err(e) => Err(e),
                Ok(rest) => match t {
                    Some(t) => Ok(seq![t] + rest),
                    None => Ok(rest),
                },
            },
        }
    }
}

#[via_fn]
proof fn tokens_from_decreases(
    s: Seq<char>,
    i: int,
    sheet: Seq<char>,
    names: Map<Seq<char>, Seq<char>>,
) {
    if 0 <= i < s.len() {
        lemma_step(s, i, sheet, names);
    }
}

/// The tokens of a formula's text.
pub open spec fn tokens_of(
    sheet: Seq<char>,
    src: Seq<char>,
    names: Map<Seq<char>, Seq<char>>,
) -> Result<Seq<TokView>, Seq<char>> {
    tokens_from(src, 0, sheet, names)
}

/// A run of tokens in front of what follows.
pub open spec fn led_by(
    front: Seq<TokView>,
    rest: Result<Seq<TokView>, Seq<char>>,
) -> Result<Seq<TokView>, Seq<char>> {
    match rest {
        Ok(x) => Ok(front + x),
        Err(e) => Err(e),
    }
}

fn next_word(v: &Vec<char>, i: usize, sheet: &str, names: &NameMap<String>) -> (r: (Tok, usize))
    requires
        i < v@.len(),
        opens_word(v@[i as int]),
        names.wf(),
    ensures
        (r.0@, r.1 as int) == word_step(v@, i as int, sheet@, name_texts(*names)),
        i < r.1 <= v@.len(),
{
    assert(in_class(Class::Word, v@[i as int]));
    let e = find_run_end(Class::Word, v, i);
    proof {
        lemma_run_end(Class::Word, v@, i + 1);
    }
    let word = slice_text(v, i, e);
    let first = CellRef::parse(sheet, word.as_str());
    if e < v.len() && v[e] == ':' {
        let j = find_run_end(Class::Corner, v, e + 1);
        let second = slice_text(v, e + 1, j);
        if let Some(b) = CellRef::parse(sheet, second.as_str()) {
            if let Some(a) = first {
                return (Tok::Range(a, b), j);
            }
        }
    }
    if let Some(target) = names.get(word.as_str()) {
        assert(name_texts(*names)[word@] == target@);
        if let Some(t) = resolve_name(sheet, target.as_str()) {
            return (t, e);
        }
    }
    let called = e < v.len() && v[e] == '(';
    match first {
        Some(c) => {
            if called {
                (Tok::Ident(to_upper(word.as_str())), e)
            } else {
                (Tok::Ref(c), e)
            }
        },
        None => (Tok::Ident(to_upper(word.as_str())), e),
    }
}

fn next_step(
    v: &Vec<char>,
    i: usize,
    sheet: &str,
    names: &NameMap<String>,
) -> (r: Result<(Option<Tok>, usize), String>)
    requires
        i < v@.len(),
        names.wf(),
    ensures
        match r {
            Ok((Some(t), j)) => step(v@, i as int, sheet@, name_texts(*names)) == Ok::<
                (Option<TokView>, int),
                Seq<char>,
            >((Some(t@), j as int)) && i < j <= v@.len(),
            Ok((None, j)) => step(v@, i as int, sheet@, name_texts(*names)) == Ok::<
                (Option<TokView>, int),
                Seq<char>,
            >((None, j as int)) && i < j <= v@.len(),
            Err(e) => step(v@, i as int, sheet@, name_texts(*names)) == Err::<
                (Option<TokView>, int),
                Seq<char>,
            >(e@),
        },
{
    let c = v[i];
    let n = v.len();
    assert(i < n);
    if c == ' ' || c == '\t' {
        Ok((None, i + 1))
    } else if c == '(' {
        Ok((Some(Tok::LParen), i + 1))
    } else if c == ')' {
        Ok((Some(Tok::RParen), i + 1))
    } else if c == ',' {
        Ok((Some(Tok::Comma), i + 1))
    } else if c == '+' || c == '-' || c == '*' || c == '/' || c == '^' || c == '&' {
        Ok((Some(Tok::Op(c)), i + 1))
    } else if c == '<' || c == '>' || c == '=' {
        if i + 1 < v.len() && (v[i + 1] == '=' || v[i + 1] == '>') {
            Ok((Some(Tok::Compare(slice_text(v, i, i + 2))), i + 2))
        } else {
            Ok((Some(Tok::Compare(slice_text(v, i, i + 1))), i + 1))
        }
    } else if c == '"' {
        let e = find_run_end(Class::Quoted, v, i + 1);
        let text = slice_text(v, i + 1, e);
        Ok((Some(Tok::Str(text)), if e < v.len() { e + 1 } else { e }))
    } else if digit(c) || c == '.' {
        proof {
            lemma_run_end(Class::Number, v@, i + 1);
        }
        let e = find_run_end(Class::Number, v, i);
        let text = slice_text(v, i, e);
        if number_shaped(text.as_str()) {
            Ok((Some(Tok::Num(text)), e))
        } else {
            let mut m = String::new();
            m.push_str("bad number ");
            m.push_str(text.as_str());
            assert(m@ =~= "bad number "@ + text@);
            Err(m)
        }
    } else if letter(c) || c == '_' || c == '$' || c == '\'' {
        let (t, e) = next_word(v, i, sheet, names);
        Ok((Some(t), e))
    } else {
        let mut m = String::new();
        m.push_str("unexpected character ");
        let q = quote_char(c);
        m.push_str(q.as_str());
        assert(m@ =~= "unexpected character "@ + quoted_char(c));
        Err(m)
    }
}

/// Cuts a formula into tokens.
pub fn tokenize(sheet: &str, src: &str, names: &NameMap<String>) -> (r: Result<Vec<Tok>, String>)
    requires
        names.wf(),
    ensures
        match r {
            Ok(v) => tokens_of(sheet@, src@, name_texts(*names)) == Ok::<Seq<TokView>, Seq<char>>(
                toks(v@),
            ),
            Err(e) => tokens_of(sheet@, src@, name_texts(*names)) == Err::<
                Seq<TokView>,
                Seq<char>,
            >(e@),
        },
{
    let v = to_chars(src);
    let mut out: Vec<Tok> = Vec::new();
    let mut i: usize = 0;
    let ghost all = tokens_of(sheet@, src@, name_texts(*names));
    proof {
        let rest = tokens_from(v@, 0, sheet@, name_texts(*names));
        if let Ok(x) = rest {
            assert(toks(out@) + x =~= x);
        }
    }
    while i < v.len()
        invariant
            i <= v@.len(),
            v@ == src@,
            names.wf(),
            all == tokens_of(sheet@, src@, name_texts(*names)),
            all == led_by(
                toks(out@),
                tokens_from(v@, i as int, sheet@, name_texts(*names)),
            ),
        decreases v@.len() - i,
    {
        let ghost rest = tokens_from(v@, i as int, sheet@, name_texts(*names));
        let (t, j) = next_step(&v, i, sheet, names)?;
        if let Some(t) = t {
            let ghost was = toks(out@);
            let ghost tv = t@;
            out.push(t);
            proof {
                assert(toks(out@) =~= was.push(tv));
                if let Ok(x) = tokens_from(v@, j as int, sheet@, name_texts(*names)) {
                    assert(was + (seq![tv] + x) =~= toks(out@) + x);
                }
            }
        }
        i = j;
    }
    assert(toks(out@) + Seq::<TokView>::empty() =~= toks(out@));
    Ok(out)
}

/// Is `c` in the block between two corners? The block is on the sheet of the first.
pub open spec fn covers(a: CellView, b: CellView, c: CellView) -> bool {
    &&& c.sheet == a.sheet
    &&& least(a.row, b.row) <= c.row <= most(a.row, b.row)
    &&& least(a.col, b.col) <= c.col <= most(a.col, b.col)
}

pub open spec fn least(a: nat, b: nat) -> nat {
    if a <= b {
        a
    } else {
        b
    }
}

pub open spec fn most(a: nat, b: nat) -> nat {
    if a <= b {
        b
    } else {
        a
    }
}

/// Does a token read a cell?
pub open spec fn tok_reads(t: TokView, c: CellView) -> bool {
    match t {
        TokView::Ref(r) => r == c,
        TokView::Range(a, b) => covers(a, b, c),
        _ => false,
    }
}

/// The cells that a run of tokens reads.
pub open spec fn read_by(t: Seq<TokView>) -> Set<CellView> {
    Set::new(|c: CellView| exists|i: int| 0 <= i < t.len() && tok_reads(#[trigger] t[i], c))
}

/// The text of a formula without the equals signs in front.
pub open spec fn body_of(formula: Seq<char>) -> Seq<char> {
    skip_char(formula, '=')
}

/// The cells that a formula reads directly, in order; or why it has no tokens.
pub open spec fn reads_of(
    sheet: Seq<char>,
    formula: Seq<char>,
    names: Map<Seq<char>, Seq<char>>,
) -> Result<Seq<CellView>, Seq<char>> {
    match tokens_of(sheet, body_of(formula), names) {
        Ok(t) => Ok(listed_cells(read_by(t))),
        Err(e) => Err(e),
    }
}

/// Adds the cells of a block to a run in order.
fn add_block(out: &mut Vec<CellRef>, a: &CellRef, b: &CellRef)
    requires
        in_order(cells(old(out)@)),
    ensures
        in_order(cells(final(out)@)),
        forall|x: CellView| #[trigger]
            cells(final(out)@).contains(x) <==> cells(old(out)@).contains(x) || covers(a@, b@, x),
{
    let (r0, r1) = if a.row <= b.row { (a.row as u64, b.row as u64) } else {
        (b.row as u64, a.row as u64)
    };
    let (c0, c1) = if a.col <= b.col { (a.col as u64, b.col as u64) } else {
        (b.col as u64, a.col as u64)
    };
    let ghost was = cells(out@);
    let mut row: u64 = r0;
    while row <= r1
        invariant
            in_order(cells(out@)),
            r0 == least(a@.row, b@.row),
            r1 == most(a@.row, b@.row),
            c0 == least(a@.col, b@.col),
            c1 == most(a@.col, b@.col),
            r0 <= row <= r1 + 1,
            r1 <= u32::MAX,
            c1 <= u32::MAX,
            forall|x: CellView| #[trigger]
                cells(out@).contains(x) <==> was.contains(x) || (covers(a@, b@, x) && x.row < row),
        decreases r1 + 1 - row,
    {
        let mut col: u64 = c0;
        while col <= c1
            invariant
                in_order(cells(out@)),
                r0 == least(a@.row, b@.row),
                r1 == most(a@.row, b@.row),
                c0 == least(a@.col, b@.col),
                c1 == most(a@.col, b@.col),
                r0 <= row <= r1,
                r1 <= u32::MAX,
                c1 <= u32::MAX,
                c0 <= col <= c1 + 1,
                forall|x: CellView| #[trigger]
                    cells(out@).contains(x) <==> was.contains(x) || (covers(a@, b@, x) && (x.row
                        < row || (x.row == row && x.col < col))),
            decreases c1 + 1 - col,
        {
            let c = CellRef {
                sheet: from_chars(to_chars(a.sheet.as_str()).as_slice()),
                col: col as u32,
                row: row as u32,
            };
            let ghost cv = c@;
            insert_cell(out, c);
            assert forall|x: CellView| #[trigger]
                cells(out@).contains(x) <==> was.contains(x) || (covers(a@, b@, x) && (x.row < row
                    || (x.row == row && x.col < col + 1))) by {
                if x.sheet == a@.sheet && x.row == row && x.col == col {
                    assert(x =~= cv);
                }
            }
            col += 1;
        }
        row += 1;
    }
}

/// Every cell that a formula reads directly, in order.
pub fn dependencies(
    sheet: &str,
    formula: &str,
    names: &NameMap<String>,
) -> (r: Result<Vec<CellRef>, String>)
    requires
        names.wf(),
    ensures
        match r {
            Ok(v) => reads_of(sheet@, formula@, name_texts(*names)) == Ok::<
                Seq<CellView>,
                Seq<char>,
            >(cells(v@)) && in_order(cells(v@)),
            Err(e) => reads_of(sheet@, formula@, name_texts(*names)) == Err::<
                Seq<CellView>,
                Seq<char>,
            >(e@),
        },
{
    let body = strip_leading(formula, '=');
    let t = tokenize(sheet, body.as_str(), names)?;
    let mut out: Vec<CellRef> = Vec::new();
    let ghost all = toks(t@);
    let mut i: usize = 0;
    while i < t.len()
        invariant
            i <= t@.len(),
            all == toks(t@),
            in_order(cells(out@)),
            forall|x: CellView| #[trigger]
                cells(out@).contains(x) <==> exists|k: int|
                    0 <= k < i && tok_reads(#[trigger] all[k], x),
        decreases t@.len() - i,
    {
        let ghost was = cells(out@);
        match &t[i] {
            Tok::Ref(c) => {
                insert_cell(&mut out, c.copy());
            },
            Tok::Range(a, b) => {
                add_block(&mut out, a, b);
            },
            _ => {},
        }
        proof {
            assert(all[i as int] == t@[i as int]@);
            assert forall|x: CellView| #[trigger]
                cells(out@).contains(x) <==> exists|k: int|
                    0 <= k < i + 1 && tok_reads(#[trigger] all[k], x) by {
                assert(cells(out@).contains(x) <==> was.contains(x) || tok_reads(
                    all[i as int],
                    x,
                ));
            }
        }
        i += 1;
    }
    proof {
        assert forall|x: CellView| #[trigger] cells(out@).contains(x) <==> read_by(all).contains(
            x,
        ) by {}
        lemma_listed_cells(cells(out@), read_by(all));
    }
    Ok(out)
}

/// The instructions that evaluate a formula, on a stack of values.
pub enum Instr {
    /// Push the number that the text writes.
    Number(String),
    /// Push a text.
    Text(String),
    /// Push the value of a cell.
    Cell(CellRef),
    /// Push the values of a block of cells, row by row.
    Cells(CellRef, CellRef),
    /// Push the error for a formula that stops short.
    Fault,
    /// Replace the top value by its negative.
    Negate,
    /// Replace the top two values by what the operator makes of them.
    Binary(char),
    /// Replace the top two values by whether they compare so.
    Compare(String),
    /// Remember where the arguments of a call start.
    Mark,
    /// Replace the values since the last mark by what the function makes of them.
    Call(String),
}

/// What an instruction says.
#[verifier::ext_equal]
pub enum InstrView {
    Number(Seq<char>),
    Text(Seq<char>),
    Cell(CellView),
    Cells(CellView, CellView),
    Fault,
    Negate,
    Binary(char),
    Compare(Seq<char>),
    Mark,
    Call(Seq<char>),
}

impl View for Instr {
    type V = InstrView;

    open spec fn view(&self) -> InstrView {
        match *self {
            Instr::Number(s) => InstrView::Number(s@),
            Instr::Text(s) => InstrView::Text(s@),
            Instr::Cell(c) => InstrView::Cell(c@),
            Instr::Cells(a, b) => InstrView::Cells(a@, b@),
            Instr::Fault => InstrView::Fault,
            Instr::Negate => InstrView::Negate,
            Instr::Binary(c) => InstrView::Binary(c),
            Instr::Compare(s) => InstrView::Compare(s@),
            Instr::Mark => InstrView::Mark,
            Instr::Call(s) => InstrView::Call(s@),
        }
    }
}

/// What a run of instructions says.
pub open spec fn code(v: Seq<Instr>) -> Seq<InstrView> {
    v.map_values(|x: Instr| x@)
}

/// How many tokens are left from `p` on.
pub open spec fn left(t: Seq<TokView>, p: int) -> nat {
    if p < t.len() {
        (t.len() - p) as nat
    } else {
        0
    }
}

/// A place that is not before `p`.
pub open spec fn onward(q: int, p: int) -> int {
    if q >= p {
        q
    } else {
        p
    }
}

/// The corner of a block with the least column and row.
pub open spec fn corner(a: CellView, b: CellView) -> CellView {
    CellView { sheet: a.sheet, col: least(a.col, b.col), row: least(a.row, b.row) }
}

/// Is this operator one that adds?
pub open spec fn adds(t: TokView) -> bool {
    t == TokView::Op('+') || t == TokView::Op('-') || t == TokView::Op('&')
}

/// Is this operator one that multiplies?
pub open spec fn scales(t: TokView) -> bool {
    t == TokView::Op('*') || t == TokView::Op('/')
}

/// The instruction for an operator between two values.
pub open spec fn joining(t: TokView) -> InstrView {
    match t {
        TokView::Op(c) => InstrView::Binary(c),
        TokView::Compare(s) => InstrView::Compare(s),
        _ => InstrView::Fault,
    }
}

/// An expression: terms joined by `+`, `-`, `&` and comparisons, from the left. The instructions,
/// and where the expression ends.
pub open spec fn expr(t: Seq<TokView>, p: int) -> (Seq<InstrView>, int)
    decreases left(t, p), 8nat,
{
    let (l, q) = term(t, p);
    expr_more(t, l, onward(q, p))
}

pub open spec fn expr_more(t: Seq<TokView>, l: Seq<InstrView>, p: int) -> (Seq<InstrView>, int)
    decreases left(t, p), 7nat,
{
    if 0 <= p < t.len() && (adds(t[p]) || t[p] is Compare) {
        let (r, q) = term(t, p + 1);
        expr_more(t, (l + r).push(joining(t[p])), onward(q, p + 1))
    } else {
        (l, p)
    }
}

/// A term: powers joined by `*` and `/`, from the left.
pub open spec fn term(t: Seq<TokView>, p: int) -> (Seq<InstrView>, int)
    decreases left(t, p), 6nat,
{
    let (l, q) = power(t, p);
    term_more(t, l, onward(q, p))
}

pub open spec fn term_more(t: Seq<TokView>, l: Seq<InstrView>, p: int) -> (Seq<InstrView>, int)
    decreases left(t, p), 5nat,
{
    if 0 <= p < t.len() && scales(t[p]) {
        let (r, q) = power(t, p + 1);
        term_more(t, (l + r).push(joining(t[p])), onward(q, p + 1))
    } else {
        (l, p)
    }
}

/// A power: signed values joined by `^`, from the right.
pub open spec fn power(t: Seq<TokView>, p: int) -> (Seq<InstrView>, int)
    decreases left(t, p), 4nat,
{
    let (b, q0) = unary(t, p);
    let q = onward(q0, p);
    if 0 <= q < t.len() && t[q] == TokView::Op('^') {
        let (e, r) = power(t, q + 1);
        ((b + e).push(InstrView::Binary('^')), r)
    } else {
        (b, q)
    }
}

/// A value behind any number of minus signs.
pub open spec fn unary(t: Seq<TokView>, p: int) -> (Seq<InstrView>, int)
    decreases left(t, p), 3nat,
{
    if 0 <= p < t.len() && t[p] == TokView::Op('-') {
        let (e, q) = unary(t, p + 1);
        (e.push(InstrView::Negate), q)
    } else {
        atom(t, p)
    }
}

/// One value: a number, a text, a cell, the first cell of a block, an expression in parentheses or
/// a call. Anything else is a fault and stays where it is.
pub open spec fn atom(t: Seq<TokView>, p: int) -> (Seq<InstrView>, int)
    decreases left(t, p), 2nat,
{
    if !(0 <= p < t.len()) {
        (seq![InstrView::Fault], p)
    } else {
        match t[p] {
            TokView::Num(s) => (seq![InstrView::Number(s)], p + 1),
            TokView::Str(s) => (seq![InstrView::Text(s)], p + 1),
            TokView::Ref(c) => (seq![InstrView::Cell(c)], p + 1),
            TokView::Range(a, b) => (seq![InstrView::Cell(corner(a, b))], p + 1),
            TokView::LParen => {
                let (e, q) = expr(t, p + 1);
                (e, if 0 <= q < t.len() && t[q] is RParen { q + 1 } else { q })
            },
            TokView::Ident(n) => {
                let q = if p + 1 < t.len() && t[p + 1] is LParen { p + 2 } else { p + 1 };
                let (a, r) = args(t, q);
                ((seq![InstrView::Mark] + a).push(InstrView::Call(n)), r)
            },
            _ => (seq![InstrView::Fault], p),
        }
    }
}

/// The arguments of a call, up to its closing parenthesis or the end. A block is all its cells.
pub open spec fn args(t: Seq<TokView>, p: int) -> (Seq<InstrView>, int)
    decreases left(t, p), 9nat,
{
    if !(0 <= p < t.len()) {
        (Seq::empty(), p)
    } else {
        match t[p] {
            TokView::RParen => (Seq::empty(), p + 1),
            TokView::Comma => args(t, p + 1),
            TokView::Range(a, b) => {
                let (rest, q) = args(t, p + 1);
                (seq![InstrView::Cells(a, b)] + rest, q)
            },
            _ => {
                let (e, q) = expr(t, p);
                let (rest, r) = args(t, onward(q, p + 1));
                (e + rest, r)
            },
        }
    }
}

/// The program of a formula's tokens: their first expression.
pub open spec fn program_of(t: Seq<TokView>) -> Seq<InstrView> {
    expr(t, 0).0
}

/// Puts one run of instructions behind another.
fn append(a: &mut Vec<Instr>, b: Vec<Instr>)
    ensures
        code(final(a)@) == code(old(a)@) + code(b@),
{
    let mut b = b;
    let ghost was = a@;
    let ghost more = b@;
    a.append(&mut b);
    assert(code(a@) =~= code(was) + code(more));
}

/// One instruction as a run.
fn single(x: Instr) -> (r: Vec<Instr>)
    ensures
        code(r@) == seq![x@],
{
    let mut v: Vec<Instr> = Vec::new();
    v.push(x);
    assert(code(v@) =~= seq![x@]);
    v
}

/// Puts one instruction behind a run.
fn put(a: &mut Vec<Instr>, x: Instr)
    ensures
        code(final(a)@) == code(old(a)@).push(x@),
{
    let ghost was = a@;
    a.push(x);
    assert(code(a@) =~= code(was).push(x@));
}

fn copy_text(s: &String) -> (r: String)
    ensures
        r@ == s@,
{
    from_chars(to_chars(s.as_str()).as_slice())
}

/// Is this token this operator?
fn is_op(t: &Tok, c: char) -> (r: bool)
    ensures
        r == (t@ == TokView::Op(c)),
{
    match t {
        Tok::Op(x) => *x == c,
        _ => false,
    }
}

/// Where a parse may end, given where it began.
pub open spec fn ahead(t: Seq<TokView>, p: int, q: int) -> bool {
    p <= q <= t.len()
}

fn parse_expr(v: &Vec<Tok>, p: usize) -> (r: (Vec<Instr>, usize))
    requires
        p <= v@.len(),
    ensures
        (code(r.0@), r.1 as int) == expr(toks(v@), p as int),
        ahead(toks(v@), p as int, r.1 as int),
    decreases v@.len() - p, 8nat,
{
    let (l, q) = parse_term(v, p);
    parse_expr_more(v, l, q)
}

fn parse_expr_more(v: &Vec<Tok>, l: Vec<Instr>, p: usize) -> (r: (Vec<Instr>, usize))
    requires
        p <= v@.len(),
    ensures
        (code(r.0@), r.1 as int) == expr_more(toks(v@), code(l@), p as int),
        ahead(toks(v@), p as int, r.1 as int),
    decreases v@.len() - p, 7nat,
{
    if p >= v.len() {
        return (l, p);
    }
    assert(toks(v@)[p as int] == v@[p as int]@);
    let join = match &v[p] {
        Tok::Op(c) => if *c == '+' || *c == '-' || *c == '&' {
            Some(Instr::Binary(*c))
        } else {
            None
        },
        Tok::Compare(s) => Some(Instr::Compare(copy_text(s))),
        _ => None,
    };
    match join {
        Some(j) => {
            let (rest, q) = parse_term(v, p + 1);
            let mut l = l;
            append(&mut l, rest);
            put(&mut l, j);
            parse_expr_more(v, l, q)
        },
        None => (l, p),
    }
}

fn parse_term(v: &Vec<Tok>, p: usize) -> (r: (Vec<Instr>, usize))
    requires
        p <= v@.len(),
    ensures
        (code(r.0@), r.1 as int) == term(toks(v@), p as int),
        ahead(toks(v@), p as int, r.1 as int),
    decreases v@.len() - p, 6nat,
{
    let (l, q) = parse_power(v, p);
    parse_term_more(v, l, q)
}

fn parse_term_more(v: &Vec<Tok>, l: Vec<Instr>, p: usize) -> (r: (Vec<Instr>, usize))
    requires
        p <= v@.len(),
    ensures
        (code(r.0@), r.1 as int) == term_more(toks(v@), code(l@), p as int),
        ahead(toks(v@), p as int, r.1 as int),
    decreases v@.len() - p, 5nat,
{
    if p >= v.len() {
        return (l, p);
    }
    assert(toks(v@)[p as int] == v@[p as int]@);
    if is_op(&v[p], '*') || is_op(&v[p], '/') {
        let j = if is_op(&v[p], '*') { '*' } else { '/' };
        let (rest, q) = parse_power(v, p + 1);
        let mut l = l;
        append(&mut l, rest);
        put(&mut l, Instr::Binary(j));
        parse_term_more(v, l, q)
    } else {
        (l, p)
    }
}

fn parse_power(v: &Vec<Tok>, p: usize) -> (r: (Vec<Instr>, usize))
    requires
        p <= v@.len(),
    ensures
        (code(r.0@), r.1 as int) == power(toks(v@), p as int),
        ahead(toks(v@), p as int, r.1 as int),
    decreases v@.len() - p, 4nat,
{
    let (b, q) = parse_unary(v, p);
    if q < v.len() && is_op(&v[q], '^') {
        assert(toks(v@)[q as int] == v@[q as int]@);
        let (e, r) = parse_power(v, q + 1);
        let mut b = b;
        append(&mut b, e);
        put(&mut b, Instr::Binary('^'));
        (b, r)
    } else {
        proof {
            if q < v@.len() {
                assert(toks(v@)[q as int] == v@[q as int]@);
            }
        }
        (b, q)
    }
}

fn parse_unary(v: &Vec<Tok>, p: usize) -> (r: (Vec<Instr>, usize))
    requires
        p <= v@.len(),
    ensures
        (code(r.0@), r.1 as int) == unary(toks(v@), p as int),
        ahead(toks(v@), p as int, r.1 as int),
    decreases v@.len() - p, 3nat,
{
    if p < v.len() && is_op(&v[p], '-') {
        assert(toks(v@)[p as int] == v@[p as int]@);
        let (e, q) = parse_unary(v, p + 1);
        let mut e = e;
        put(&mut e, Instr::Negate);
        (e, q)
    } else {
        proof {
            if p < v@.len() {
                assert(toks(v@)[p as int] == v@[p as int]@);
            }
        }
        parse_atom(v, p)
    }
}

fn parse_atom(v: &Vec<Tok>, p: usize) -> (r: (Vec<Instr>, usize))
    requires
        p <= v@.len(),
    ensures
        (code(r.0@), r.1 as int) == atom(toks(v@), p as int),
        ahead(toks(v@), p as int, r.1 as int),
    decreases v@.len() - p, 2nat,
{
    if p >= v.len() {
        return (single(Instr::Fault), p);
    }
    assert(toks(v@)[p as int] == v@[p as int]@);
    match &v[p] {
        Tok::Num(s) => (single(Instr::Number(copy_text(s))), p + 1),
        Tok::Str(s) => (single(Instr::Text(copy_text(s))), p + 1),
        Tok::Ref(c) => (single(Instr::Cell(c.copy())), p + 1),
        Tok::Range(a, b) => {
            let c = CellRef {
                sheet: copy_text(&a.sheet),
                col: if a.col <= b.col { a.col } else { b.col },
                row: if a.row <= b.row { a.row } else { b.row },
            };
            assert(c@ =~= corner(a@, b@));
            (single(Instr::Cell(c)), p + 1)
        },
        Tok::LParen => parse_group(v, p),
        Tok::Ident(n) => {
            let name = copy_text(n);
            parse_call(v, name, p)
        },
        _ => (single(Instr::Fault), p),
    }
}

/// An expression in parentheses.
#[verifier::spinoff_prover]
#[verifier::rlimit(40)]
fn parse_group(v: &Vec<Tok>, p: usize) -> (r: (Vec<Instr>, usize))
    requires
        p < v@.len(),
        v@[p as int] is LParen,
    ensures
        (code(r.0@), r.1 as int) == atom(toks(v@), p as int),
        ahead(toks(v@), p as int, r.1 as int),
    decreases v@.len() - p, 1nat,
{
    assert(toks(v@)[p as int] == v@[p as int]@);
    let n = v.len();
    let (e, q) = parse_expr(v, p + 1);
    if q < n {
        assert(toks(v@)[q as int] == v@[q as int]@);
        if let Tok::RParen = &v[q] {
            return (e, q + 1);
        }
    }
    (e, q)
}

/// A call of a function.
#[verifier::spinoff_prover]
#[verifier::rlimit(40)]
fn parse_call(v: &Vec<Tok>, name: String, p: usize) -> (r: (Vec<Instr>, usize))
    requires
        p < v@.len(),
        v@[p as int]@ == TokView::Ident(name@),
    ensures
        (code(r.0@), r.1 as int) == atom(toks(v@), p as int),
        ahead(toks(v@), p as int, r.1 as int),
    decreases v@.len() - p, 1nat,
{
    assert(toks(v@)[p as int] == v@[p as int]@);
    let n = v.len();
    let mut q: usize = p + 1;
    if p + 1 < n {
        assert(toks(v@)[p + 1] == v@[p + 1]@);
        if let Tok::LParen = &v[p + 1] {
            q = p + 2;
        }
    }
    let (a, r) = parse_args(v, q);
    let mut out = single(Instr::Mark);
    append(&mut out, a);
    put(&mut out, Instr::Call(name));
    (out, r)
}

fn parse_args(v: &Vec<Tok>, p: usize) -> (r: (Vec<Instr>, usize))
    requires
        p <= v@.len(),
    ensures
        (code(r.0@), r.1 as int) == args(toks(v@), p as int),
        ahead(toks(v@), p as int, r.1 as int),
    decreases v@.len() - p, 9nat,
{
    if p >= v.len() {
        let none: Vec<Instr> = Vec::new();
        assert(code(none@) =~= Seq::<InstrView>::empty());
        return (none, p);
    }
    assert(toks(v@)[p as int] == v@[p as int]@);
    match &v[p] {
        Tok::RParen => {
            let none: Vec<Instr> = Vec::new();
            assert(code(none@) =~= Seq::<InstrView>::empty());
            (none, p + 1)
        },
        Tok::Comma => parse_args(v, p + 1),
        Tok::Range(a, b) => {
            let mut out = single(Instr::Cells(a.copy(), b.copy()));
            let (rest, q) = parse_args(v, p + 1);
            append(&mut out, rest);
            (out, q)
        },
        _ => {
            let (e, q) = parse_expr(v, p);
            let next = if q > p { q } else { p + 1 };
            let (rest, r) = parse_args(v, next);
            let mut e = e;
            append(&mut e, rest);
            (e, r)
        },
    }
}

/// The program that evaluates a formula's tokens.
pub fn program(v: &Vec<Tok>) -> (r: Vec<Instr>)
    ensures
        code(r@) == program_of(toks(v@)),
{
    parse_expr(v, 0).0
}

/// The program of a formula, or why it has no tokens.
pub open spec fn compiled(
    sheet: Seq<char>,
    formula: Seq<char>,
    names: Map<Seq<char>, Seq<char>>,
) -> Result<Seq<InstrView>, Seq<char>> {
    match tokens_of(sheet, body_of(formula), names) {
        Ok(t) => Ok(program_of(t)),
        Err(e) => Err(e),
    }
}

/// The program of a formula, with or without the equals signs in front.
pub fn compile(sheet: &str, formula: &str, names: &NameMap<String>) -> (r: Result<
    Vec<Instr>,
    String,
>)
    requires
        names.wf(),
    ensures
        match r {
            Ok(v) => compiled(sheet@, formula@, name_texts(*names)) == Ok::<
                Seq<InstrView>,
                Seq<char>,
            >(code(v@)),
            Err(e) => compiled(sheet@, formula@, name_texts(*names)) == Err::<
                Seq<InstrView>,
                Seq<char>,
            >(e@),
        },
{
    let body = strip_leading(formula, '=');
    let t = tokenize(sheet, body.as_str(), names)?;
    Ok(program(&t))
}

} // verus!
