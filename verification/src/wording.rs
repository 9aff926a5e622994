//! The characters that names and numbers are made of, and the words of a text.

use crate::text::from_chars;
use crate::text::to_chars;
use vstd::prelude::*;

verus! {

/// `0` to `9`.
pub open spec fn is_digit(c: char) -> bool {
    '0' <= c <= '9'
}

/// An ASCII letter.
pub open spec fn is_letter(c: char) -> bool {
    ('a' <= c <= 'z') || ('A' <= c <= 'Z')
}

/// An ASCII letter or digit.
pub open spec fn is_alnum(c: char) -> bool {
    is_letter(c) || is_digit(c)
}

/// An ASCII letter in lower case; any other character as it is.
pub open spec fn lower_char(c: char) -> char {
    if 'A' <= c <= 'Z' {
        (c as u32 + 32) as char
    } else {
        c
    }
}

/// An ASCII letter in upper case; any other character as it is.
pub open spec fn upper_char(c: char) -> char {
    if 'a' <= c <= 'z' {
        (c as u32 - 32) as char
    } else {
        c
    }
}

pub fn digit(c: char) -> (b: bool)
    ensures
        b == is_digit(c),
{
    '0' <= c && c <= '9'
}

pub fn letter(c: char) -> (b: bool)
    ensures
        b == is_letter(c),
{
    ('a' <= c && c <= 'z') || ('A' <= c && c <= 'Z')
}

pub fn alnum(c: char) -> (b: bool)
    ensures
        b == is_alnum(c),
{
    letter(c) || digit(c)
}

pub fn lowered(c: char) -> (r: char)
    ensures
        r == lower_char(c),
{
    if 'A' <= c && c <= 'Z' {
        (c as u8 + 32) as char
    } else {
        c
    }
}

pub fn raised(c: char) -> (r: char)
    ensures
        r == upper_char(c),
{
    if 'a' <= c && c <= 'z' {
        (c as u8 - 32) as char
    } else {
        c
    }
}

/// A text with its ASCII letters in lower case.
pub open spec fn lower_of(s: Seq<char>) -> Seq<char> {
    s.map_values(|c: char| lower_char(c))
}

/// A text with its ASCII letters in upper case.
pub open spec fn upper_of(s: Seq<char>) -> Seq<char> {
    s.map_values(|c: char| upper_char(c))
}

/// A text with its ASCII letters in lower case.
pub fn to_lower(s: &str) -> (r: String)
    ensures
        r@ == lower_of(s@),
{
    let v = to_chars(s);
    let mut out = String::new();
    let mut i: usize = 0;
    while i < v.len()
        invariant
            v@ == s@,
            i <= v@.len(),
            out@ == lower_of(v@.take(i as int)),
        decreases v@.len() - i,
    {
        out.push(lowered(v[i]));
        i += 1;
        assert(out@ =~= lower_of(v@.take(i as int)));
    }
    assert(v@.take(i as int) =~= v@);
    out
}

/// A text with its ASCII letters in upper case.
pub fn to_upper(s: &str) -> (r: String)
    ensures
        r@ == upper_of(s@),
{
    let v = to_chars(s);
    let mut out = String::new();
    let mut i: usize = 0;
    while i < v.len()
        invariant
            v@ == s@,
            i <= v@.len(),
            out@ == upper_of(v@.take(i as int)),
        decreases v@.len() - i,
    {
        out.push(raised(v[i]));
        i += 1;
        assert(out@ =~= upper_of(v@.take(i as int)));
    }
    assert(v@.take(i as int) =~= v@);
    out
}

/// How many words a text has: runs of characters that are not white space.
pub open spec fn word_total(s: Seq<char>) -> nat
    decreases s.len(),
{
    if s.len() == 0 {
        0
    } else {
        let opens = !crate::text::is_space(s.last()) && (s.len() == 1 || crate::text::is_space(
            s[s.len() - 2],
        ));
        word_total(s.drop_last()) + (if opens {
            1nat
        } else {
            0nat
        })
    }
}

/// How many words a text has.
pub fn count_words(s: &str) -> (n: usize)
    ensures
        n == word_total(s@),
{
    let v = to_chars(s);
    let mut n: usize = 0;
    let mut i: usize = 0;
    while i < v.len()
        invariant
            v@ == s@,
            i <= v@.len(),
            n <= i,
            n == word_total(v@.take(i as int)),
        decreases v@.len() - i,
    {
        let ghost nn = v@.take(i + 1);
        assert(nn.drop_last() =~= v@.take(i as int));
        assert(nn.last() == v@[i as int]);
        assert(i > 0 ==> nn[nn.len() - 2] == v@[i - 1]);
        if !crate::text::space(v[i]) && (i == 0 || crate::text::space(v[i - 1])) {
            n += 1;
        }
        i += 1;
    }
    assert(v@.take(i as int) =~= v@);
    n
}

/// `n` copies of a character.
pub open spec fn copies(c: char, n: nat) -> Seq<char> {
    Seq::new(n, |i: int| c)
}

/// `n` copies of a character.
pub fn repeat(c: char, n: usize) -> (r: String)
    ensures
        r@ == copies(c, n as nat),
{
    let mut out = String::new();
    let mut i: usize = 0;
    while i < n
        invariant
            i <= n,
            out@ == copies(c, i as nat),
        decreases n - i,
    {
        out.push(c);
        i += 1;
        assert(out@ =~= copies(c, i as nat));
    }
    out
}

/// `s` without the copies of `c` that it starts with.
pub open spec fn skip_char(s: Seq<char>, c: char) -> Seq<char>
    decreases s.len(),
{
    if s.len() > 0 && s[0] == c {
        skip_char(s.skip(1), c)
    } else {
        s
    }
}

/// `s` without the copies of `c` that it ends with.
pub open spec fn drop_char(s: Seq<char>, c: char) -> Seq<char>
    decreases s.len(),
{
    if s.len() > 0 && s.last() == c {
        drop_char(s.drop_last(), c)
    } else {
        s
    }
}

/// How many copies of `c` a run of characters starts with.
pub fn leading(v: &[char], c: char) -> (n: usize)
    ensures
        n <= v@.len(),
        skip_char(v@, c) == v@.skip(n as int),
        forall|k: int| 0 <= k < n ==> v@[k] == c,
        n < v@.len() ==> v@[n as int] != c,
{
    let mut n: usize = 0;
    assert(v@.skip(0) =~= v@);
    while n < v.len() && v[n] == c
        invariant
            n <= v@.len(),
            skip_char(v@, c) == skip_char(v@.skip(n as int), c),
            forall|k: int| 0 <= k < n ==> v@[k] == c,
        decreases v@.len() - n,
    {
        assert(v@.skip(n as int).skip(1) =~= v@.skip(n + 1));
        n += 1;
    }
    n
}

/// A text without the copies of `c` that it starts with.
pub fn strip_leading(s: &str, c: char) -> (r: String)
    ensures
        r@ == skip_char(s@, c),
{
    let v = to_chars(s);
    let n: usize = leading(v.as_slice(), c);
    let rest = vstd::slice::slice_subrange(v.as_slice(), n, v.len());
    assert(rest@ =~= s@.skip(n as int));
    from_chars(rest)
}

/// A text without the copies of `c` that it ends with.
pub fn strip_trailing(s: &str, c: char) -> (r: String)
    ensures
        r@ == drop_char(s@, c),
{
    let v = to_chars(s);
    let mut n: usize = v.len();
    assert(v@.take(n as int) =~= v@);
    while n > 0 && v[n - 1] == c
        invariant
            n <= v@.len(),
            drop_char(v@, c) == drop_char(v@.take(n as int), c),
        decreases n,
    {
        assert(v@.take(n as int).drop_last() =~= v@.take(n - 1));
        n -= 1;
    }
    let rest = vstd::slice::slice_subrange(v.as_slice(), 0, n);
    assert(rest@ =~= s@.take(n as int));
    from_chars(rest)
}

/// Where `c` first stands in `s`, or the length of `s`.
pub open spec fn index_of(s: Seq<char>, c: char) -> int
    decreases s.len(),
{
    if s.len() == 0 || s[0] == c {
        0
    } else {
        1 + index_of(s.skip(1), c)
    }
}

/// Where `c` first stands in `v`, or the length of `v`.
pub fn find_char(v: &[char], c: char) -> (n: usize)
    ensures
        n == index_of(v@, c),
        n <= v@.len(),
        n < v@.len() ==> v@[n as int] == c,
        forall|k: int| 0 <= k < n ==> v@[k] != c,
{
    let mut n: usize = 0;
    assert(v@.skip(0) =~= v@);
    while n < v.len() && v[n] != c
        invariant
            n <= v@.len(),
            index_of(v@, c) == n + index_of(v@.skip(n as int), c),
            forall|k: int| 0 <= k < n ==> v@[k] != c,
        decreases v@.len() - n,
    {
        assert(v@.skip(n as int).skip(1) =~= v@.skip(n + 1));
        n += 1;
    }
    n
}

/// What follows the prefix `p` in a text that begins with it.
pub fn strip_prefix(s: &str, p: &str) -> (r: Option<String>)
    ensures
        r is Some <==> crate::text::begins(s@, p@),
        r matches Some(t) ==> t@ == s@.skip(p@.len() as int),
{
    let v = to_chars(s);
    let n = to_chars(p);
    if crate::text::starts_with(s, p) {
        let rest = vstd::slice::slice_subrange(v.as_slice(), n.len(), v.len());
        assert(rest@ =~= s@.skip(p@.len() as int));
        Some(from_chars(rest))
    } else {
        None
    }
}

/// The number that a run of digits writes.
pub open spec fn value_of(s: Seq<char>) -> nat
    decreases s.len(),
{
    if s.len() == 0 {
        0
    } else {
        value_of(s.drop_last()) * 10 + (s.last() as nat - '0' as nat) as nat
    }
}

/// Nothing but digits.
pub open spec fn all_digits(s: Seq<char>) -> bool {
    forall|i: int| 0 <= i < s.len() ==> is_digit(#[trigger] s[i])
}

/// A text without the plus sign it may start with.
pub open spec fn unsigned(s: Seq<char>) -> Seq<char> {
    if s.len() > 0 && s[0] == '+' {
        s.skip(1)
    } else {
        s
    }
}

/// The number a text writes in decimal, where it is one: digits, with an optional plus sign in
/// front, of a value that is at most `max`.
pub open spec fn number_of(s: Seq<char>, max: nat) -> Option<nat> {
    let d = unsigned(s);
    if d.len() > 0 && all_digits(d) && value_of(d) <= max {
        Some(value_of(d))
    } else {
        None
    }
}

proof fn lemma_value_grows(s: Seq<char>, n: int)
    requires
        0 <= n <= s.len(),
        forall|i: int| 0 <= i < s.len() ==> is_digit(#[trigger] s[i]),
    ensures
        value_of(s.take(n)) <= value_of(s),
    decreases s.len(),
{
    if n == s.len() {
        assert(s.take(n) =~= s);
    } else {
        lemma_value_grows(s.drop_last(), n);
        assert(s.drop_last().take(n) =~= s.take(n));
        assert(is_digit(s.last()));
    }
}

/// The number a text writes in decimal, up to `max`.
pub fn parse_number(s: &str, max: u64) -> (r: Option<u64>)
    ensures
        r is Some <==> number_of(s@, max as nat) is Some,
        r matches Some(n) ==> number_of(s@, max as nat) == Some(n as nat),
{
    let v = to_chars(s);
    let start: usize = if v.len() > 0 && v[0] == '+' { 1 } else { 0 };
    let ghost d = v@.skip(start as int);
    assert(d =~= unsigned(s@));
    if start == v.len() {
        return None;
    }
    let mut i: usize = start;
    while i < v.len()
        invariant
            v@ == s@,
            start <= i <= v@.len(),
            d == v@.skip(start as int),
            start < v@.len(),
            d == unsigned(s@),
            forall|k: int| start <= k < i ==> is_digit(#[trigger] v@[k]),
        decreases v@.len() - i,
    {
        if !digit(v[i]) {
            proof {
                let at = i - start;
                assert(d[at] == v@[i as int]);
                assert(!is_digit(d[at]));
            }
            return None;
        }
        i += 1;
    }
    assert forall|k: int| 0 <= k < d.len() implies is_digit(#[trigger] d[k]) by {
        assert(is_digit(v@[k + start]));
    }
    let mut n: u64 = 0;
    i = start;
    assert(d.take(0) =~= Seq::<char>::empty());
    while i < v.len()
        invariant
            v@ == s@,
            start <= i <= v@.len(),
            d == v@.skip(start as int),
            start < v@.len(),
            d == unsigned(s@),
            all_digits(d),
            n == value_of(d.take(i - start)),
            n <= max,
        decreases v@.len() - i,
    {
        let ghost nn = d.take(i - start + 1);
        assert(nn.drop_last() =~= d.take(i - start));
        assert(nn.last() == d[i - start] && d[i - start] == v@[i as int]);
        assert(is_digit(d[i - start]));
        let c: u64 = (v[i] as u8 - 48) as u64;
        proof {
            lemma_value_grows(d, i - start + 1);
        }
        if n > (u64::MAX - c) / 10 || n * 10 + c > max {
            return None;
        }
        n = n * 10 + c;
        i += 1;
    }
    assert(d.take(i - start) =~= d);
    Some(n)
}

/// What follows the last `c` of a text, or the whole text where there is none.
pub open spec fn after_last(s: Seq<char>, c: char) -> Seq<char>
    decreases s.len(),
{
    if s.len() == 0 || s.last() == c {
        Seq::empty()
    } else {
        after_last(s.drop_last(), c).push(s.last())
    }
}

/// What follows the last `c` of a text, or the whole text where there is none.
pub fn tail_after_last(s: &str, c: char) -> (r: String)
    ensures
        r@ == after_last(s@, c),
{
    let v = to_chars(s);
    let mut n: usize = v.len();
    assert(v@.take(n as int) =~= v@);
    assert(v@.skip(n as int) =~= Seq::<char>::empty());
    assert(after_last(v@, c) =~= after_last(v@.take(n as int), c) + v@.skip(n as int));
    while n > 0 && v[n - 1] != c
        invariant
            n <= v@.len(),
            after_last(v@, c) == after_last(v@.take(n as int), c) + v@.skip(n as int),
        decreases n,
    {
        let ghost t = v@.take(n as int);
        assert(t.drop_last() =~= v@.take(n - 1));
        assert(after_last(t.drop_last(), c).push(v@[n - 1]) + v@.skip(n as int) =~= after_last(
            t.drop_last(),
            c,
        ) + v@.skip(n - 1));
        n -= 1;
    }
    assert(after_last(v@.take(n as int), c) =~= Seq::<char>::empty());
    let rest = vstd::slice::slice_subrange(v.as_slice(), n, v.len());
    assert(rest@ =~= after_last(s@, c));
    from_chars(rest)
}

/// What follows the first `c` of a text, or the whole text where there is none.
pub open spec fn after_first(s: Seq<char>, c: char) -> Seq<char> {
    let i = index_of(s, c);
    if i < s.len() {
        s.skip(i + 1)
    } else {
        s
    }
}

/// What follows the first `c` of a text, or the whole text where there is none.
pub fn tail_after_first(s: &str, c: char) -> (r: String)
    ensures
        r@ == after_first(s@, c),
{
    let v = to_chars(s);
    let i: usize = find_char(v.as_slice(), c);
    if i < v.len() {
        let rest = vstd::slice::slice_subrange(v.as_slice(), i + 1, v.len());
        assert(rest@ =~= s@.skip(i + 1));
        from_chars(rest)
    } else {
        s.to_owned()
    }
}

/// The last place before position `n` where `sep` stands in a text, or -1.
pub open spec fn last_place(s: Seq<char>, sep: Seq<char>, n: int) -> int
    decreases n,
{
    if n <= 0 {
        -1
    } else if crate::text::occurs_at(s, sep, n - 1) {
        n - 1
    } else {
        last_place(s, sep, n - 1)
    }
}

/// What follows the last `sep` of a text, or the whole text where there is none.
pub open spec fn after_sep(s: Seq<char>, sep: Seq<char>) -> Seq<char> {
    let i = last_place(s, sep, s.len() as int);
    if i >= 0 {
        s.skip(i + sep.len())
    } else {
        s
    }
}

/// What follows the last `sep` of a text, or the whole text where there is none.
pub fn tail_after_sep(s: &str, sep: &str) -> (r: String)
    ensures
        r@ == after_sep(s@, sep@),
{
    let v = to_chars(s);
    let p = to_chars(sep);
    let mut n: usize = v.len();
    while n > 0
        invariant
            n <= v@.len(),
            v@ == s@,
            p@ == sep@,
            last_place(s@, sep@, s@.len() as int) == last_place(s@, sep@, n as int),
        decreases n,
    {
        if p.len() <= v.len() - (n - 1) && crate::text::at(v.as_slice(), p.as_slice(), n - 1) {
            let rest = vstd::slice::slice_subrange(v.as_slice(), n - 1 + p.len(), v.len());
            assert(rest@ =~= after_sep(s@, sep@));
            return from_chars(rest);
        }
        n -= 1;
    }
    s.to_owned()
}

/// A character that identifiers are made of.
pub open spec fn is_word(c: char) -> bool {
    is_alnum(c) || c == '_'
}

pub fn word(c: char) -> (b: bool)
    ensures
        b == is_word(c),
{
    alnum(c) || c == '_'
}

/// Where the run of identifier characters that starts at `i` is over.
pub open spec fn word_end(s: Seq<char>, i: int) -> int
    decreases s.len() - i,
{
    if i < 0 || i >= s.len() || !is_word(s[i]) {
        i
    } else {
        word_end(s, i + 1)
    }
}

pub proof fn lemma_word_end(s: Seq<char>, i: int)
    requires
        0 <= i <= s.len(),
    ensures
        i <= word_end(s, i) <= s.len(),
    decreases s.len() - i,
{
    if i < s.len() && is_word(s[i]) {
        lemma_word_end(s, i + 1);
    }
}

/// Where the run of identifier characters that starts at `i` is over.
pub fn find_word_end(v: &[char], i: usize) -> (e: usize)
    requires
        i <= v@.len(),
    ensures
        e == word_end(v@, i as int),
        i <= e <= v@.len(),
{
    let mut e: usize = i;
    while e < v.len() && word(v[e])
        invariant
            i <= e <= v@.len(),
            word_end(v@, i as int) == word_end(v@, e as int),
        decreases v@.len() - e,
    {
        e += 1;
    }
    e
}

/// The identifier-shaped words of a text from position `i` on: runs of letters, digits and
/// underscores that do not start with a digit.
pub open spec fn words_from(s: Seq<char>, i: int) -> Seq<Seq<char>>
    decreases s.len() - i,
    via words_from_decreases
{
    if i < 0 || i >= s.len() {
        Seq::empty()
    } else if is_letter(s[i]) || s[i] == '_' {
        let e = word_end(s, i);
        seq![s.subrange(i, e)] + words_from(s, e)
    } else {
        words_from(s, i + 1)
    }
}

#[via_fn]
proof fn words_from_decreases(s: Seq<char>, i: int) {
    if 0 <= i < s.len() {
        lemma_word_end(s, i + 1);
    }
}

/// The identifier-shaped words of a text.
pub open spec fn words_of(s: Seq<char>) -> Seq<Seq<char>> {
    words_from(s, 0)
}

/// The identifier-shaped words of a text.
pub fn identifiers(text: &str) -> (r: Vec<String>)
    ensures
        crate::text::texts(r@) == words_of(text@),
{
    let v = to_chars(text);
    let mut out: Vec<String> = Vec::new();
    let mut i: usize = 0;
    assert(crate::text::texts(out@) + words_from(v@, 0) =~= words_from(v@, 0));
    while i < v.len()
        invariant
            v@ == text@,
            i <= v@.len(),
            crate::text::texts(out@) + words_from(v@, i as int) == words_of(v@),
        decreases v@.len() - i,
    {
        if letter(v[i]) || v[i] == '_' {
            proof {
                lemma_word_end(v@, i + 1);
            }
            let e: usize = find_word_end(v.as_slice(), i);
            let w = from_chars(vstd::slice::slice_subrange(v.as_slice(), i, e));
            let ghost before = crate::text::texts(out@);
            out.push(w);
            assert(crate::text::texts(out@) =~= before.push(w@));
            assert(before + words_from(v@, i as int) =~= crate::text::texts(out@) + words_from(
                v@,
                e as int,
            ));
            i = e;
        } else {
            i += 1;
        }
    }
    assert(crate::text::texts(out@) + words_from(v@, i as int) =~= crate::text::texts(out@));
    out
}

/// A text with each occurrence of `from` replaced, from the front.
pub open spec fn replaced(s: Seq<char>, from: Seq<char>, to: Seq<char>) -> Seq<char>
    decreases s.len(),
{
    if s.len() == 0 || from.len() == 0 {
        s
    } else if crate::text::begins(s, from) {
        to + replaced(s.skip(from.len() as int), from, to)
    } else {
        seq![s[0]] + replaced(s.skip(1), from, to)
    }
}

/// Replaces each occurrence of a text.
pub fn replace_all(s: &str, from: &str, to: &str) -> (r: String)
    requires
        from@.len() > 0,
    ensures
        r@ == replaced(s@, from@, to@),
{
    let v = crate::text::to_chars(s);
    let f = crate::text::to_chars(from);
    let t = crate::text::to_chars(to);
    let mut out: Vec<char> = Vec::new();
    let mut i: usize = 0;
    assert(v@.skip(0) =~= v@);
    assert(out@ + replaced(v@.skip(0), f@, t@) =~= replaced(v@, f@, t@));
    while i < v.len()
        invariant
            i <= v@.len(),
            f@.len() > 0,
            out@ + replaced(v@.skip(i as int), f@, t@) == replaced(v@, f@, t@),
        decreases v@.len() - i,
    {
        let ghost rest = v@.skip(i as int);
        let ghost was = out@;
        let n = v.len();
        let hit = crate::text::at(v.as_slice(), f.as_slice(), i);
        proof {
            if i + f@.len() <= v@.len() {
                assert(rest.subrange(0, f@.len() as int) =~= v@.subrange(i as int, i + f@.len()));
            }
            assert(hit == crate::text::begins(rest, f@));
        }
        if hit {
            let mut k: usize = 0;
            assert(out@ =~= was + t@.take(0));
            while k < t.len()
                invariant
                    k <= t@.len(),
                    out@ == was + t@.take(k as int),
                decreases t@.len() - k,
            {
                out.push(t[k]);
                assert(was + t@.take(k + 1) =~= (was + t@.take(k as int)).push(t@[k as int]));
                k += 1;
            }
            proof {
                assert(t@.take(k as int) =~= t@);
                assert(rest.skip(f@.len() as int) =~= v@.skip(i + f@.len()));
                assert(was + (t@ + replaced(v@.skip(i + f@.len()), f@, t@)) =~= out@ + replaced(
                    v@.skip(i + f@.len()),
                    f@,
                    t@,
                ));
            }
            i += f.len();
        } else {
            out.push(v[i]);
            proof {
                assert(rest.skip(1) =~= v@.skip(i + 1));
                assert(rest[0] == v@[i as int]);
                assert(was + (seq![rest[0]] + replaced(v@.skip(i + 1), f@, t@)) =~= out@
                    + replaced(v@.skip(i + 1), f@, t@));
            }
            i += 1;
        }
    }
    assert(out@ + replaced(v@.skip(i as int), f@, t@) =~= out@);
    crate::text::from_chars(out.as_slice())
}

/// A number in decimal is digits, and its value is the number.
pub proof fn lemma_decimal(n: nat)
    ensures
        value_of(crate::text::decimal(n)) == n,
        all_digits(crate::text::decimal(n)),
        crate::text::decimal(n).len() > 0,
    decreases n,
{
    if n >= 10 {
        lemma_decimal(n / 10);
        assert(crate::text::decimal(n).drop_last() =~= crate::text::decimal(n / 10));
        assert forall|i: int| 0 <= i < crate::text::decimal(n).len() implies is_digit(
            #[trigger] crate::text::decimal(n)[i],
        ) by {
            if i < crate::text::decimal(n / 10).len() {
                assert(crate::text::decimal(n)[i] == crate::text::decimal(n / 10)[i]);
            }
        }
    } else {
        assert(crate::text::decimal(n).drop_last() =~= Seq::<char>::empty());
        assert(value_of(Seq::<char>::empty()) == 0);
    }
}

} // verus!
