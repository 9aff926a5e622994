//! How a formula binds: which operator takes which operands.

use crate::sheets::cell::CellView;
use crate::sheets::formula::args;
use crate::sheets::formula::atom;
use crate::sheets::formula::expr;
use crate::sheets::formula::expr_more;
use crate::sheets::formula::power;
use crate::sheets::formula::program_of;
use crate::sheets::formula::scales;
use crate::sheets::formula::term;
use crate::sheets::formula::term_more;
use crate::sheets::formula::unary;
use crate::sheets::formula::InstrView;
use crate::sheets::formula::TokView;
use vstd::prelude::*;

verus! {

/// A formula as a tree: each operator with the operands that it takes.
pub enum Form {
    Number(Seq<char>),
    Text(Seq<char>),
    Cell(CellView),
    Block(CellView, CellView),
    Group(Box<Form>),
    Call(Seq<char>, Box<Forms>),
    Negated(Box<Form>),
    Power(Box<Form>, Box<Form>),
    Scaled(Box<Form>, char, Box<Form>),
    Sum(Box<Form>, char, Box<Form>),
    Compared(Box<Form>, Seq<char>, Box<Form>),
}

/// The arguments of a call, the first in front.
pub enum Forms {
    End,
    Value(Box<Form>, Box<Forms>),
    Cells(CellView, CellView, Box<Forms>),
}

/// How tightly the outermost operator binds.
pub open spec fn rank(f: Form) -> int {
    match f {
        Form::Sum(_, _, _) => 0,
        Form::Compared(_, _, _) => 0,
        Form::Scaled(_, _, _) => 1,
        Form::Power(_, _) => 2,
        Form::Negated(_) => 3,
        _ => 4,
    }
}

/// Can a tree be written without more parentheses than it has? An operand binds at least as tightly
/// as the operator that takes it, and more tightly on the side on which a chain does not go on: on
/// the right, but for powers on the left. An argument does not begin with a block of cells.
pub open spec fn is_plain(f: Form) -> bool
    decreases f,
{
    match f {
        Form::Group(x) => is_plain(*x),
        Form::Call(_, xs) => are_plain(*xs),
        Form::Negated(x) => is_plain(*x) && rank(*x) >= 3,
        Form::Power(l, r) => is_plain(*l) && is_plain(*r) && rank(*l) >= 3 && rank(*r) >= 2,
        Form::Scaled(l, c, r) => is_plain(*l) && is_plain(*r) && rank(*l) >= 1 && rank(*r) >= 2 && (
        c == '*' || c == '/'),
        Form::Sum(l, c, r) => is_plain(*l) && is_plain(*r) && rank(*r) >= 1 && (c == '+' || c == '-'
            || c == '&'),
        Form::Compared(l, _, r) => is_plain(*l) && is_plain(*r) && rank(*r) >= 1,
        _ => true,
    }
}

pub open spec fn are_plain(fs: Forms) -> bool
    decreases fs,
{
    match fs {
        Forms::End => true,
        Forms::Value(f, rest) => is_plain(*f) && are_plain(*rest) && !(written(*f)[0] is Range),
        Forms::Cells(_, _, rest) => are_plain(*rest),
    }
}

/// The tokens that a tree is written with, from left to right.
pub open spec fn written(f: Form) -> Seq<TokView>
    decreases f,
{
    match f {
        Form::Number(s) => seq![TokView::Num(s)],
        Form::Text(s) => seq![TokView::Str(s)],
        Form::Cell(c) => seq![TokView::Ref(c)],
        Form::Block(a, b) => seq![TokView::Range(a, b)],
        Form::Group(x) => seq![TokView::LParen] + written(*x) + seq![TokView::RParen],
        Form::Call(n, xs) => seq![TokView::Ident(n), TokView::LParen] + all_written(*xs)
            + seq![TokView::RParen],
        Form::Negated(x) => seq![TokView::Op('-')] + written(*x),
        Form::Power(l, r) => written(*l) + seq![TokView::Op('^')] + written(*r),
        Form::Scaled(l, c, r) => written(*l) + seq![TokView::Op(c)] + written(*r),
        Form::Sum(l, c, r) => written(*l) + seq![TokView::Op(c)] + written(*r),
        Form::Compared(l, s, r) => written(*l) + seq![TokView::Compare(s)] + written(*r),
    }
}

/// Arguments are parted by commas.
pub open spec fn all_written(fs: Forms) -> Seq<TokView>
    decreases fs,
{
    match fs {
        Forms::End => Seq::empty(),
        Forms::Value(f, rest) => written(*f) + (if *rest is End {
            Seq::empty()
        } else {
            seq![TokView::Comma] + all_written(*rest)
        }),
        Forms::Cells(a, b, rest) => seq![TokView::Range(a, b)] + (if *rest is End {
            Seq::empty()
        } else {
            seq![TokView::Comma] + all_written(*rest)
        }),
    }
}

/// The instructions that work a tree out: operands before their operator, the left one first.
pub open spec fn worked(f: Form) -> Seq<InstrView>
    decreases f,
{
    match f {
        Form::Number(s) => seq![InstrView::Number(s)],
        Form::Text(s) => seq![InstrView::Text(s)],
        Form::Cell(c) => seq![InstrView::Cell(c)],
        Form::Block(a, b) => seq![
            InstrView::Cell(
                CellView {
                    sheet: a.sheet,
                    col: if a.col <= b.col {
                        a.col
                    } else {
                        b.col
                    },
                    row: if a.row <= b.row {
                        a.row
                    } else {
                        b.row
                    },
                },
            ),
        ],
        Form::Group(x) => worked(*x),
        Form::Call(n, xs) => seq![InstrView::Mark] + all_worked(*xs) + seq![InstrView::Call(n)],
        Form::Negated(x) => worked(*x) + seq![InstrView::Negate],
        Form::Power(l, r) => worked(*l) + worked(*r) + seq![InstrView::Binary('^')],
        Form::Scaled(l, c, r) => worked(*l) + worked(*r) + seq![InstrView::Binary(c)],
        Form::Sum(l, c, r) => worked(*l) + worked(*r) + seq![InstrView::Binary(c)],
        Form::Compared(l, s, r) => worked(*l) + worked(*r) + seq![InstrView::Compare(s)],
    }
}

/// A block that is an argument is all its cells.
pub open spec fn all_worked(fs: Forms) -> Seq<InstrView>
    decreases fs,
{
    match fs {
        Forms::End => Seq::empty(),
        Forms::Value(f, rest) => worked(*f) + all_worked(*rest),
        Forms::Cells(a, b, rest) => seq![InstrView::Cells(a, b)] + all_worked(*rest),
    }
}

/// Do these tokens stand at a place?
spec fn stand_at(t: Seq<TokView>, p: int, s: Seq<TokView>) -> bool {
    0 <= p && p + s.len() <= t.len() && t.subrange(p, p + s.len()) == s
}

/// Is the token at a place, if any, no `^`?
spec fn no_power(t: Seq<TokView>, p: int) -> bool {
    p < t.len() ==> t[p] != TokView::Op('^')
}

/// Does the token at a place, if any, go on neither a power nor a product?
spec fn no_scale(t: Seq<TokView>, p: int) -> bool {
    no_power(t, p) && (p < t.len() ==> !scales(t[p]))
}

proof fn lemma_parts(t: Seq<TokView>, p: int, a: Seq<TokView>, b: Seq<TokView>)
    requires
        stand_at(t, p, a + b),
    ensures
        stand_at(t, p, a),
        stand_at(t, p + a.len(), b),
{
    let s = t.subrange(p, p + (a + b).len());
    assert forall|i: int| 0 <= i < a.len() implies t[p + i] == a[i] by {
        assert(s[i] == (a + b)[i]);
    }
    assert forall|i: int| 0 <= i < b.len() implies t[p + a.len() + i] == b[i] by {
        assert(s[a.len() + i] == (a + b)[a.len() + i]);
    }
    assert(t.subrange(p, p + a.len()) =~= a);
    assert(t.subrange(p + a.len(), p + a.len() + b.len()) =~= b);
}

proof fn lemma_one(t: Seq<TokView>, p: int, x: TokView)
    requires
        stand_at(t, p, seq![x]),
    ensures
        t[p] == x,
        p < t.len(),
{
    assert(t.subrange(p, p + 1)[0] == t[p]);
}

proof fn lemma_around(t: Seq<TokView>, p: int, a: Seq<TokView>, x: TokView, b: Seq<TokView>)
    requires
        stand_at(t, p, a + seq![x] + b),
    ensures
        stand_at(t, p, a),
        p + a.len() < t.len(),
        t[p + a.len()] == x,
        stand_at(t, p + a.len() + 1, b),
{
    lemma_parts(t, p, a + seq![x], b);
    lemma_parts(t, p, a, seq![x]);
    lemma_one(t, p + a.len(), x);
}

/// A tree's first token starts a value.
proof fn lemma_first(f: Form)
    ensures
        written(f).len() > 0,
        !(written(f)[0] is RParen),
        !(written(f)[0] is Comma),
        rank(f) == 4 ==> written(f)[0] != TokView::Op('-'),
    decreases f,
{
    match f {
        Form::Power(l, _) => lemma_first(*l),
        Form::Scaled(l, _, _) => lemma_first(*l),
        Form::Sum(l, _, _) => lemma_first(*l),
        Form::Compared(l, _, _) => lemma_first(*l),
        _ => {},
    }
}

proof fn lemma_atom(t: Seq<TokView>, p: int, f: Form)
    requires
        is_plain(f),
        rank(f) == 4,
        stand_at(t, p, written(f)),
    ensures
        atom(t, p) == (worked(f), p + written(f).len()),
    decreases f, 0int,
{
    match f {
        Form::Number(s) => lemma_one(t, p, TokView::Num(s)),
        Form::Text(s) => lemma_one(t, p, TokView::Str(s)),
        Form::Cell(c) => lemma_one(t, p, TokView::Ref(c)),
        Form::Block(a, b) => lemma_one(t, p, TokView::Range(a, b)),
        Form::Group(x) => {
            let w = written(*x);
            lemma_parts(t, p, seq![TokView::LParen] + w, seq![TokView::RParen]);
            lemma_parts(t, p, seq![TokView::LParen], w);
            lemma_one(t, p, TokView::LParen);
            lemma_one(t, p + 1 + w.len(), TokView::RParen);
            lemma_expr(t, p + 1, *x);
            assert(expr_more(t, worked(*x), p + 1 + w.len()) == (worked(*x), p + 1 + w.len()));
        },
        Form::Call(n, xs) => {
            let w = all_written(*xs);
            let head = seq![TokView::Ident(n), TokView::LParen];
            lemma_parts(t, p, head + w, seq![TokView::RParen]);
            lemma_parts(t, p, head, w);
            assert(head =~= seq![TokView::Ident(n)] + seq![TokView::LParen]);
            lemma_parts(t, p, seq![TokView::Ident(n)], seq![TokView::LParen]);
            lemma_one(t, p, TokView::Ident(n));
            lemma_one(t, p + 1, TokView::LParen);
            lemma_one(t, p + 2 + w.len(), TokView::RParen);
            lemma_args(t, p + 2, *xs);
            assert((seq![InstrView::Mark] + all_worked(*xs)).push(InstrView::Call(n)) =~= worked(f));
        },
        _ => {},
    }
}

proof fn lemma_unary(t: Seq<TokView>, p: int, f: Form)
    requires
        is_plain(f),
        rank(f) >= 3,
        stand_at(t, p, written(f)),
    ensures
        unary(t, p) == (worked(f), p + written(f).len()),
    decreases f, 1int,
{
    match f {
        Form::Negated(x) => {
            lemma_parts(t, p, seq![TokView::Op('-')], written(*x));
            lemma_one(t, p, TokView::Op('-'));
            lemma_unary(t, p + 1, *x);
            assert(worked(*x).push(InstrView::Negate) =~= worked(f));
        },
        _ => {
            lemma_first(f);
            assert(t.subrange(p, p + written(f).len())[0] == t[p]);
            lemma_atom(t, p, f);
        },
    }
}

proof fn lemma_power(t: Seq<TokView>, p: int, f: Form)
    requires
        is_plain(f),
        rank(f) >= 2,
        stand_at(t, p, written(f)),
        no_power(t, p + written(f).len()),
    ensures
        power(t, p) == (worked(f), p + written(f).len()),
    decreases f, 2int,
{
    match f {
        Form::Power(l, r) => {
            lemma_around(t, p, written(*l), TokView::Op('^'), written(*r));
            lemma_unary(t, p, *l);
            lemma_power(t, p + written(*l).len() + 1, *r);
            assert((worked(*l) + worked(*r)).push(InstrView::Binary('^')) =~= worked(f));
        },
        _ => lemma_unary(t, p, f),
    }
}

proof fn lemma_term(t: Seq<TokView>, p: int, f: Form)
    requires
        is_plain(f),
        rank(f) >= 1,
        stand_at(t, p, written(f)),
        no_power(t, p + written(f).len()),
    ensures
        term(t, p) == term_more(t, worked(f), p + written(f).len()),
    decreases f, 3int,
{
    match f {
        Form::Scaled(l, c, r) => {
            let q = p + written(*l).len();
            lemma_around(t, p, written(*l), TokView::Op(c), written(*r));
            lemma_term(t, p, *l);
            lemma_power(t, q + 1, *r);
            assert((worked(*l) + worked(*r)).push(InstrView::Binary(c)) =~= worked(f));
            assert(term_more(t, worked(*l), q) == term_more(
                t,
                worked(f),
                p + written(f).len(),
            ));
        },
        _ => lemma_power(t, p, f),
    }
}

proof fn lemma_expr(t: Seq<TokView>, p: int, f: Form)
    requires
        is_plain(f),
        stand_at(t, p, written(f)),
        no_scale(t, p + written(f).len()),
    ensures
        expr(t, p) == expr_more(t, worked(f), p + written(f).len()),
    decreases f, 4int,
{
    match f {
        Form::Sum(l, c, r) => {
            lemma_around(t, p, written(*l), TokView::Op(c), written(*r));
            let q = p + written(*l).len() + 1;
            lemma_expr(t, p, *l);
            lemma_term(t, q, *r);
            assert(term_more(t, worked(*r), q + written(*r).len()) == (
                worked(*r),
                q + written(*r).len(),
            ));
            assert((worked(*l) + worked(*r)).push(InstrView::Binary(c)) =~= worked(f));
            assert(expr_more(t, worked(*l), p + written(*l).len()) == expr_more(
                t,
                worked(f),
                p + written(f).len(),
            ));
        },
        Form::Compared(l, s, r) => {
            lemma_around(t, p, written(*l), TokView::Compare(s), written(*r));
            let q = p + written(*l).len() + 1;
            lemma_expr(t, p, *l);
            lemma_term(t, q, *r);
            assert(term_more(t, worked(*r), q + written(*r).len()) == (
                worked(*r),
                q + written(*r).len(),
            ));
            assert((worked(*l) + worked(*r)).push(InstrView::Compare(s)) =~= worked(f));
            assert(expr_more(t, worked(*l), p + written(*l).len()) == expr_more(
                t,
                worked(f),
                p + written(f).len(),
            ));
        },
        _ => {
            lemma_term(t, p, f);
            let q = p + written(f).len();
            assert(term_more(t, worked(f), q) == (worked(f), q));
        },
    }
}

proof fn lemma_args(t: Seq<TokView>, p: int, fs: Forms)
    requires
        are_plain(fs),
        stand_at(t, p, all_written(fs)),
        p + all_written(fs).len() < t.len(),
        t[p + all_written(fs).len()] is RParen,
    ensures
        args(t, p) == (all_worked(fs), p + all_written(fs).len() + 1),
    decreases fs, 0int,
{
    match fs {
        Forms::End => {},
        Forms::Value(f, rest) => {
            let w = written(*f);
            let tail = if *rest is End {
                Seq::empty()
            } else {
                seq![TokView::Comma] + all_written(*rest)
            };
            lemma_parts(t, p, w, tail);
            lemma_first(*f);
            assert(t.subrange(p, p + w.len())[0] == t[p]);
            let q = p + w.len();
            if *rest is End {
                lemma_args(t, q, *rest);
            } else {
                lemma_parts(t, q, seq![TokView::Comma], all_written(*rest));
                lemma_one(t, q, TokView::Comma);
                lemma_args(t, q + 1, *rest);
                assert(args(t, q) == args(t, q + 1));
            }
            lemma_expr(t, p, *f);
            assert(expr_more(t, worked(*f), q) == (worked(*f), q));
        },
        Forms::Cells(a, b, rest) => {
            let tail = if *rest is End {
                Seq::empty()
            } else {
                seq![TokView::Comma] + all_written(*rest)
            };
            lemma_parts(t, p, seq![TokView::Range(a, b)], tail);
            lemma_one(t, p, TokView::Range(a, b));
            let q = p + 1;
            if *rest is End {
                lemma_args(t, q, *rest);
            } else {
                lemma_parts(t, q, seq![TokView::Comma], all_written(*rest));
                lemma_one(t, q, TokView::Comma);
                lemma_args(t, q + 1, *rest);
                assert(args(t, q) == args(t, q + 1));
            }
        },
    }
}

/// A formula binds as it is written: `^` before `*` and `/`, those before `+`, `-`, `&` and the
/// comparisons; `^` from the right, the others from the left; a minus sign in front before all of
/// them; parentheses as they stand. The program works out exactly that tree, operands first.
pub proof fn law_a_formula_binds_as_written(f: Form)
    requires
        is_plain(f),
    ensures
        program_of(written(f)) == worked(f),
{
    let t = written(f);
    assert(t.subrange(0, t.len() as int) =~= t);
    lemma_expr(t, 0, f);
}

/// Products and quotients are taken from the left: `a * b / c` is worked out as a, b, `*`, c, `/`.
pub proof fn law_products_are_taken_from_the_left(a: Form, b: Form, c: Form, x: char, y: char)
    requires
        is_plain(a) && is_plain(b) && is_plain(c),
        rank(a) >= 2 && rank(b) >= 2 && rank(c) >= 2,
        x == '*' || x == '/',
        y == '*' || y == '/',
    ensures
        ({
            let (v, w) = (seq![TokView::Op(x)], seq![TokView::Op(y)]);
            program_of(written(a) + v + written(b) + w + written(c)) == program_of(written(a))
                + program_of(written(b)) + seq![InstrView::Binary(x)] + program_of(written(c))
                + seq![InstrView::Binary(y)]
        }),
{
    let inner = Form::Scaled(Box::new(a), x, Box::new(b));
    let bare = Form::Scaled(Box::new(inner), y, Box::new(c));
    assert(is_plain(inner));
    law_a_formula_binds_as_written(a);
    law_a_formula_binds_as_written(b);
    law_a_formula_binds_as_written(c);
    law_a_formula_binds_as_written(bare);
    assert(worked(inner) == worked(a) + worked(b) + seq![InstrView::Binary(x)]);
    assert(written(inner) == written(a) + seq![TokView::Op(x)] + written(b));
}

/// Parentheses round the left of a product change nothing: `(a * b) / c` is `a * b / c`.
pub proof fn law_parentheses_on_the_left_change_nothing(ab: Form, c: Form, y: char)
    requires
        is_plain(ab) && is_plain(c),
        rank(ab) >= 1 && rank(c) >= 2,
        y == '*' || y == '/',
    ensures
        ({
            let w = seq![TokView::Op(y)];
            let held = seq![TokView::LParen] + written(ab) + seq![TokView::RParen];
            program_of(held + w + written(c)) == program_of(written(ab) + w + written(c))
        }),
{
    let group = Form::Group(Box::new(ab));
    let bare = Form::Scaled(Box::new(ab), y, Box::new(c));
    let kept = Form::Scaled(Box::new(group), y, Box::new(c));
    assert(is_plain(group));
    law_a_formula_binds_as_written(bare);
    law_a_formula_binds_as_written(kept);
    assert(worked(group) == worked(ab));
    assert(written(group) == seq![TokView::LParen] + written(ab) + seq![TokView::RParen]);
}

/// Sums, differences and joined texts are taken from the left.
pub proof fn law_sums_are_taken_from_the_left(a: Form, b: Form, c: Form, x: char, y: char)
    requires
        is_plain(a) && is_plain(b) && is_plain(c),
        rank(a) >= 1 && rank(b) >= 1 && rank(c) >= 1,
        x == '+' || x == '-' || x == '&',
        y == '+' || y == '-' || y == '&',
    ensures
        ({
            let (v, w) = (seq![TokView::Op(x)], seq![TokView::Op(y)]);
            program_of(written(a) + v + written(b) + w + written(c)) == program_of(written(a))
                + program_of(written(b)) + seq![InstrView::Binary(x)] + program_of(written(c))
                + seq![InstrView::Binary(y)]
        }),
{
    let inner = Form::Sum(Box::new(a), x, Box::new(b));
    let bare = Form::Sum(Box::new(inner), y, Box::new(c));
    assert(is_plain(inner));
    law_a_formula_binds_as_written(a);
    law_a_formula_binds_as_written(b);
    law_a_formula_binds_as_written(c);
    law_a_formula_binds_as_written(bare);
    assert(worked(inner) == worked(a) + worked(b) + seq![InstrView::Binary(x)]);
    assert(written(inner) == written(a) + seq![TokView::Op(x)] + written(b));
}

/// Powers are taken from the right: `a ^ b ^ c` is worked out as a, b, c, `^`, `^`.
pub proof fn law_powers_are_taken_from_the_right(a: Form, b: Form, c: Form)
    requires
        is_plain(a) && is_plain(b) && is_plain(c),
        rank(a) >= 3 && rank(b) >= 3 && rank(c) >= 3,
    ensures
        ({
            let v = seq![TokView::Op('^')];
            program_of(written(a) + v + (written(b) + v + written(c))) == program_of(written(a)) + (
            program_of(written(b)) + program_of(written(c)) + seq![InstrView::Binary('^')])
                + seq![InstrView::Binary('^')]
        }),
{
    let inner = Form::Power(Box::new(b), Box::new(c));
    let bare = Form::Power(Box::new(a), Box::new(inner));
    assert(is_plain(inner));
    law_a_formula_binds_as_written(a);
    law_a_formula_binds_as_written(b);
    law_a_formula_binds_as_written(c);
    law_a_formula_binds_as_written(bare);
    assert(worked(inner) == worked(b) + worked(c) + seq![InstrView::Binary('^')]);
    assert(written(inner) == written(b) + seq![TokView::Op('^')] + written(c));
}

} // verus!
