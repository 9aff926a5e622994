//! The fallback path: apply a unified diff to one file.
//!
//! It exists to be measured, not to be relied on. Every time it runs, the op vocabulary failed to
//! express something that had to be said.
//!
//! The applier is tolerant about hunk line numbers and strict about context. It searches for the
//! hunk's context near the stated position and fails loudly rather than applying a hunk in the
//! wrong place.

use crate::adapter::bad_op;
use crate::adapter::AdapterError;
use crate::adapter::Fault;
use crate::text::begins;
use crate::text::decimal;
use crate::text::ends;
use crate::text::ends_with;
use crate::text::from_chars;
use crate::text::is_space;
use crate::text::join;
use crate::text::join_of;
use crate::text::lines;
use crate::text::lines_of;
use crate::text::same;
use crate::text::show;
use crate::text::space;
use crate::text::starts_with;
use crate::text::texts;
use crate::text::to_chars;
use crate::text::trim_end;
use crate::text::trim_end_of;
use crate::wording::digit;
use crate::wording::is_digit;
use crate::wording::number_of;
use crate::wording::parse_number;
use vstd::prelude::*;

verus! {

/// One run of changed lines.
struct Hunk {
    /// 1-based start line in the original, as claimed by the header.
    old_start: usize,
    /// ' ' context, '-' removal, '+' addition.
    lines: Vec<(char, String)>,
}

/// A hunk, as the values it holds.
#[verifier::ext_equal]
pub ghost struct HunkView {
    pub old_start: nat,
    pub lines: Seq<(char, Seq<char>)>,
}

impl View for Hunk {
    type V = HunkView;

    closed spec fn view(&self) -> HunkView {
        HunkView {
            old_start: self.old_start as nat,
            lines: self.lines@.map_values(|l: (char, String)| (l.0, l.1@)),
        }
    }
}

spec fn hunk_views(v: Seq<Hunk>) -> Seq<HunkView> {
    v.map_values(|h: Hunk| h@)
}

/// The first place from `i` on where a word starts with a minus sign, or the length.
pub open spec fn minus_from(s: Seq<char>, i: int) -> int
    decreases s.len() - i,
{
    if i < 0 || i >= s.len() || (s[i] == '-' && (i == 0 || is_space(s[i - 1]))) {
        i
    } else {
        minus_from(s, i + 1)
    }
}

/// Where the run of digits that starts at `i` is over.
pub open spec fn digits_end(s: Seq<char>, i: int) -> int
    decreases s.len() - i,
{
    if i < 0 || i >= s.len() || !is_digit(s[i]) {
        i
    } else {
        digits_end(s, i + 1)
    }
}

/// The start line that a hunk header gives: 12 for `@@ -12,7 +12,8 @@`.
pub open spec fn header_start(s: Seq<char>) -> Option<nat> {
    let i = minus_from(s, 0);
    if i < s.len() {
        number_of(s.subrange(i + 1, digits_end(s, i + 1)), usize::MAX as nat)
    } else {
        None
    }
}

/// What one line of a diff adds to the hunks before it.
pub open spec fn read_line(sofar: Seq<HunkView>, line: Seq<char>) -> Result<Seq<HunkView>, Fault> {
    if begins(line, "@@"@) {
        match header_start(line) {
            Some(n) => Ok(sofar.push(HunkView { old_start: n, lines: Seq::empty() })),
            None => Err(Fault::BadOp("malformed hunk header: "@ + line)),
        }
    } else if begins(line, "--- "@) || begins(line, "+++ "@) || begins(line, "diff "@) {
        Ok(sofar)
    } else if sofar.len() == 0 {
        Ok(sofar)
    } else {
        let h = sofar.last();
        // An empty line in a diff body is a context line that lost its space.
        if line.len() == 0 {
            Ok(
                sofar.drop_last().push(
                    HunkView { lines: h.lines.push((' ', Seq::empty())), ..h },
                ),
            )
        } else if line[0] == ' ' || line[0] == '+' || line[0] == '-' {
            Ok(
                sofar.drop_last().push(
                    HunkView { lines: h.lines.push((line[0], line.skip(1))), ..h },
                ),
            )
        } else if line[0] == '\\' {
            Ok(sofar)
        } else {
            Err(Fault::BadOp("unexpected line in diff body: "@ + line))
        }
    }
}

/// The hunks of a diff, given by its lines.
pub open spec fn hunks_of(diff: Seq<Seq<char>>) -> Result<Seq<HunkView>, Fault>
    decreases diff.len(),
{
    if diff.len() == 0 {
        Ok(Seq::empty())
    } else {
        match hunks_of(diff.drop_last()) {
            Err(e) => Err(e),
            Ok(sofar) => read_line(sofar, diff.last()),
        }
    }
}

/// The lines of a hunk with one of two tags.
pub open spec fn tagged(l: Seq<(char, Seq<char>)>, a: char, b: char) -> Seq<Seq<char>>
    decreases l.len(),
{
    if l.len() == 0 {
        Seq::empty()
    } else {
        let rest = tagged(l.drop_last(), a, b);
        if l.last().0 == a || l.last().0 == b {
            rest.push(l.last().1)
        } else {
            rest
        }
    }
}

/// Do the expected lines stand at `start`, but for white space at their ends?
pub open spec fn stands_at(file: Seq<Seq<char>>, expected: Seq<Seq<char>>, start: int) -> bool {
    0 <= start && start + expected.len() <= file.len() && forall|i: int|
        0 <= i < expected.len() ==> trim_end_of(file[start + i]) == trim_end_of(
            #[trigger] expected[i],
        )
}

pub open spec fn apart(a: int, b: int) -> int {
    if a <= b {
        b - a
    } else {
        a - b
    }
}

/// The place before `n` where the expected lines stand that is nearest to the hint; of two that
/// are equally near the first.
pub open spec fn nearest(
    file: Seq<Seq<char>>,
    expected: Seq<Seq<char>>,
    hint: int,
    n: int,
) -> Option<int>
    decreases n,
{
    if n <= 0 {
        None
    } else {
        let best = nearest(file, expected, hint, n - 1);
        if stands_at(file, expected, n - 1) {
            match best {
                None => Some(n - 1),
                Some(b) => if apart(n - 1, hint) < apart(b, hint) {
                    Some(n - 1)
                } else {
                    Some(b)
                },
            }
        } else {
            best
        }
    }
}

/// Where a hunk belongs.
///
/// The claimed line number is a hint and nothing more: a diff that is right about content and
/// wrong about position is still a correct edit. When the context appears more than once, the
/// occurrence nearest the claimed position wins.
pub open spec fn located(file: Seq<Seq<char>>, expected: Seq<Seq<char>>, hint: int) -> Option<int> {
    if expected.len() == 0 {
        Some(
            if hint < file.len() {
                hint
            } else {
                file.len() as int
            },
        )
    } else if stands_at(file, expected, hint) {
        Some(hint)
    } else {
        nearest(file, expected, hint, file.len() as int)
    }
}

/// A file with one hunk applied.
pub open spec fn patched(file: Seq<Seq<char>>, h: HunkView) -> Result<Seq<Seq<char>>, Fault> {
    let expected = tagged(h.lines, ' ', '-');
    let hint = if h.old_start > 0 {
        h.old_start - 1
    } else {
        0
    };
    match located(file, expected, hint) {
        Some(at) => Ok(
            file.take(at) + tagged(h.lines, ' ', '+') + file.skip(at + expected.len()),
        ),
        None => Err(
            Fault::BadOp(
                "diff hunk at line "@ + decimal(h.old_start)
                    + " does not match the file: context not found"@,
            ),
        ),
    }
}

/// A list of hunks with one more, placed before the first that starts earlier.
pub open spec fn lined_up(s: Seq<HunkView>, h: HunkView) -> Seq<HunkView>
    decreases s.len(),
{
    if s.len() == 0 || s[0].old_start < h.old_start {
        seq![h] + s
    } else {
        seq![s[0]] + lined_up(s.skip(1), h)
    }
}

/// The hunks from the bottom of the file up, so that earlier line numbers stay valid.
pub open spec fn bottom_up(s: Seq<HunkView>) -> Seq<HunkView>
    decreases s.len(),
{
    if s.len() == 0 {
        Seq::empty()
    } else {
        lined_up(bottom_up(s.drop_last()), s.last())
    }
}

/// A file with some hunks applied, one after the other.
pub open spec fn all_patched(file: Seq<Seq<char>>, hunks: Seq<HunkView>) -> Result<
    Seq<Seq<char>>,
    Fault,
>
    decreases hunks.len(),
{
    if hunks.len() == 0 {
        Ok(file)
    } else {
        match all_patched(file, hunks.drop_last()) {
            Err(e) => Err(e),
            Ok(sofar) => patched(sofar, hunks.last()),
        }
    }
}

/// The lines of a file as its text. A file that ended in a newline still does, as long as it has
/// lines.
pub open spec fn reassembled(src: Seq<char>, file: Seq<Seq<char>>) -> Seq<char> {
    let text = join_of(file, "\n"@);
    if ends(src, "\n"@) && file.len() > 0 {
        text + "\n"@
    } else {
        text
    }
}

/// The text that a diff makes of a file, or the fault that refuses it.
pub open spec fn diffed(src: Seq<char>, diff: Seq<char>) -> Result<Seq<char>, Fault> {
    match hunks_of(lines_of(diff)) {
        Err(e) => Err(e),
        Ok(hunks) => if hunks.len() == 0 {
            Err(Fault::BadOp("diff contains no hunks"@))
        } else {
            match all_patched(lines_of(src), bottom_up(hunks)) {
                Err(e) => Err(e),
                Ok(file) => Ok(reassembled(src, file)),
            }
        },
    }
}

/// A file that ends in a newline still does after a diff that leaves any of it.
pub proof fn law_trailing_newline_is_preserved(src: Seq<char>, diff: Seq<char>)
    requires
        ends(src, "\n"@),
        diffed(src, diff) is Ok,
        diffed(src, diff)->Ok_0.len() > 0,
    ensures
        ends(diffed(src, diff)->Ok_0, "\n"@),
{
    let file = all_patched(lines_of(src), bottom_up(hunks_of(lines_of(diff))->Ok_0))->Ok_0;
    let text = join_of(file, "\n"@);
    let nl = "\n"@;
    assert((text + nl).subrange((text + nl).len() - nl.len(), (text + nl).len() as int) =~= nl);
}

proof fn lemma_nearest(file: Seq<Seq<char>>, expected: Seq<Seq<char>>, hint: int, n: int)
    ensures
        nearest(file, expected, hint, n) is Some <==> exists|k: int|
            0 <= k < n && #[trigger] stands_at(file, expected, k),
        nearest(file, expected, hint, n) matches Some(b) ==> 0 <= b < n && stands_at(
            file,
            expected,
            b,
        ) && forall|k: int|
            0 <= k < n && #[trigger] stands_at(file, expected, k) ==> apart(b, hint) <= apart(
                k,
                hint,
            ),
    decreases n,
{
    if n > 0 {
        lemma_nearest(file, expected, hint, n - 1);
    }
}

/// A hunk goes where its context stands, at no place that is farther from the claimed line than
/// another where the context stands too; it goes nowhere only where the context stands nowhere.
pub proof fn law_a_hunk_goes_to_the_nearest_context(
    file: Seq<Seq<char>>,
    expected: Seq<Seq<char>>,
    hint: int,
)
    requires
        expected.len() > 0,
        hint >= 0,
    ensures
        located(file, expected, hint) is Some <==> exists|k: int| #[trigger]
            stands_at(file, expected, k),
        located(file, expected, hint) matches Some(b) ==> stands_at(file, expected, b) && forall|
            k: int,
        | #[trigger]
            stands_at(file, expected, k) ==> apart(b, hint) <= apart(k, hint),
{
    lemma_nearest(file, expected, hint, file.len() as int);
}

fn find_minus(v: &Vec<char>) -> (i: usize)
    ensures
        i == minus_from(v@, 0),
        i <= v@.len(),
        i < v@.len() ==> v@[i as int] == '-',
{
    let mut i: usize = 0;
    while i < v.len() && !(v[i] == '-' && (i == 0 || space(v[i - 1])))
        invariant
            i <= v@.len(),
            minus_from(v@, 0) == minus_from(v@, i as int),
        decreases v@.len() - i,
    {
        i += 1;
    }
    i
}

fn parse_old_start(header: &str) -> (r: Result<usize, AdapterError>)
    ensures
        match r {
            Ok(n) => header_start(header@) == Some(n as nat),
            Err(e) => header_start(header@) is None && e@ == Fault::BadOp(
                "malformed hunk header: "@ + header@,
            ),
        },
{
    let v = to_chars(header);
    let i: usize = find_minus(&v);
    let mut m = "malformed hunk header: ".to_owned();
    m.push_str(header);
    if i == v.len() {
        return Err(AdapterError::BadOp(m));
    }
    let mut e: usize = i + 1;
    while e < v.len() && digit(v[e])
        invariant
            i < e <= v@.len(),
            digits_end(v@, i + 1) == digits_end(v@, e as int),
        decreases v@.len() - e,
    {
        e += 1;
    }
    let part = vstd::slice::slice_subrange(v.as_slice(), i + 1, e);
    let digits = from_chars(part);
    assert(digits@ == header@.subrange(i + 1, digits_end(header@, i + 1)));
    match parse_number(digits.as_str(), usize::MAX as u64) {
        Some(n) => Ok(n as usize),
        None => Err(AdapterError::BadOp(m)),
    }
}

fn add_line(h: &mut Hunk, tag: char, text: String)
    ensures
        final(h)@ == (HunkView { lines: old(h)@.lines.push((tag, text@)), ..old(h)@ }),
{
    let ghost before = h@;
    h.lines.push((tag, text));
    assert(h@.lines =~= before.lines.push((tag, text@)));
}

fn take_line(hunks: &mut Vec<Hunk>, line: &str) -> (r: Result<(), AdapterError>)
    ensures
        match r {
            Ok(_) => read_line(hunk_views(old(hunks)@), line@) == Ok::<Seq<HunkView>, Fault>(
                hunk_views(final(hunks)@),
            ),
            Err(e) => read_line(hunk_views(old(hunks)@), line@) == Err::<Seq<HunkView>, Fault>(e@),
        },
{
    let ghost before = hunk_views(hunks@);
    assert(before.len() == hunks@.len());
    if starts_with(line, "@@") {
        match parse_old_start(line) {
            Ok(n) => {
                let h = Hunk { old_start: n, lines: Vec::new() };
                assert(h@.lines =~= Seq::<(char, Seq<char>)>::empty());
                hunks.push(h);
                assert(hunk_views(hunks@) =~= before.push(h@));
            },
            Err(e) => {
                return Err(e);
            },
        }
        return Ok(());
    }
    if starts_with(line, "--- ") || starts_with(line, "+++ ") || starts_with(line, "diff ") {
        return Ok(());
    }
    if hunks.len() == 0 {
        return Ok(());
    }
    let v = to_chars(line);
    if v.len() == 0 || v[0] == ' ' || v[0] == '+' || v[0] == '-' {
        let mut h = hunks.pop().unwrap();
        assert(h@ == before.last());
        assert(hunk_views(hunks@) =~= before.drop_last());
        if v.len() == 0 {
            let none = String::new();
            assert(none@ =~= Seq::<char>::empty());
            add_line(&mut h, ' ', none);
        } else {
            let rest = vstd::slice::slice_subrange(v.as_slice(), 1, v.len());
            assert(rest@ =~= line@.skip(1));
            add_line(&mut h, v[0], from_chars(rest));
        }
        hunks.push(h);
        assert(hunk_views(hunks@) =~= before.drop_last().push(h@));
        return Ok(());
    }
    if v[0] == '\\' {
        return Ok(());
    }
    let mut m = "unexpected line in diff body: ".to_owned();
    m.push_str(line);
    Err(AdapterError::BadOp(m))
}

proof fn lemma_hunks_fault(diff: Seq<Seq<char>>, n: int)
    requires
        0 <= n <= diff.len(),
        hunks_of(diff.take(n)) is Err,
    ensures
        hunks_of(diff) == hunks_of(diff.take(n)),
    decreases diff.len(),
{
    if n == diff.len() {
        assert(diff.take(n) =~= diff);
    } else {
        assert(diff.drop_last().take(n) =~= diff.take(n));
        lemma_hunks_fault(diff.drop_last(), n);
    }
}

fn parse_hunks(diff: &str) -> (r: Result<Vec<Hunk>, AdapterError>)
    ensures
        match r {
            Ok(h) => hunks_of(lines_of(diff@)) == Ok::<Seq<HunkView>, Fault>(hunk_views(h@)),
            Err(e) => hunks_of(lines_of(diff@)) == Err::<Seq<HunkView>, Fault>(e@),
        },
{
    let all = lines(diff);
    let ghost l = texts(all@);
    let mut hunks: Vec<Hunk> = Vec::new();
    let mut i: usize = 0;
    assert(hunk_views(hunks@) =~= Seq::<HunkView>::empty());
    assert(l.take(0) =~= Seq::<Seq<char>>::empty());
    while i < all.len()
        invariant
            i <= all@.len(),
            l == texts(all@),
            l == lines_of(diff@),
            hunks_of(l.take(i as int)) == Ok::<Seq<HunkView>, Fault>(hunk_views(hunks@)),
        decreases all@.len() - i,
    {
        let ghost nn = l.take(i + 1);
        assert(nn.drop_last() =~= l.take(i as int));
        assert(nn.last() == all@[i as int]@);
        match take_line(&mut hunks, all[i].as_str()) {
            Ok(_) => {},
            Err(e) => {
                proof {
                    lemma_hunks_fault(l, i + 1);
                }
                return Err(e);
            },
        }
        i += 1;
    }
    assert(l.take(i as int) =~= l);
    Ok(hunks)
}

fn list_tagged(h: &Hunk, a: char, b: char) -> (r: Vec<String>)
    ensures
        texts(r@) == tagged(h@.lines, a, b),
{
    let ghost l = h@.lines;
    let mut out: Vec<String> = Vec::new();
    let mut i: usize = 0;
    assert(l.take(0) =~= Seq::<(char, Seq<char>)>::empty());
    assert(texts(out@) =~= Seq::<Seq<char>>::empty());
    while i < h.lines.len()
        invariant
            i <= h.lines@.len(),
            l == h@.lines,
            texts(out@) == tagged(l.take(i as int), a, b),
        decreases h.lines@.len() - i,
    {
        let ghost nn = l.take(i + 1);
        assert(nn.drop_last() =~= l.take(i as int));
        assert(nn.last() == (h.lines@[i as int].0, h.lines@[i as int].1@));
        let ghost before = texts(out@);
        if h.lines[i].0 == a || h.lines[i].0 == b {
            out.push(h.lines[i].1.clone());
            assert(texts(out@) =~= before.push(h.lines@[i as int].1@));
        }
        i += 1;
    }
    assert(l.take(i as int) =~= l);
    out
}

fn check_at(file: &Vec<String>, expected: &Vec<String>, start: usize) -> (b: bool)
    ensures
        b == stands_at(texts(file@), texts(expected@), start as int),
{
    let ghost f = texts(file@);
    let ghost x = texts(expected@);
    if expected.len() > file.len() || start > file.len() - expected.len() {
        return false;
    }
    let mut i: usize = 0;
    while i < expected.len()
        invariant
            i <= expected@.len(),
            f == texts(file@),
            x == texts(expected@),
            start + expected@.len() <= file@.len(),
            forall|k: int|
                0 <= k < i ==> trim_end_of(f[start + k]) == trim_end_of(#[trigger] x[k]),
        decreases expected@.len() - i,
    {
        assert(start + i < file.len());
        let a = trim_end(file[start + i].as_str());
        let b = trim_end(expected[i].as_str());
        assert(f[start + i] == file@[start + i]@);
        assert(x[i as int] == expected@[i as int]@);
        if !same(a.as_str(), b.as_str()) {
            return false;
        }
        i += 1;
    }
    true
}

fn distance(a: usize, b: usize) -> (d: usize)
    ensures
        d == apart(a as int, b as int),
{
    if a <= b {
        b - a
    } else {
        a - b
    }
}

fn locate(file: &Vec<String>, expected: &Vec<String>, hint: usize) -> (r: Option<usize>)
    ensures
        match r {
            Some(at) => located(texts(file@), texts(expected@), hint as int) == Some(at as int)
                && at + expected@.len() <= file@.len(),
            None => located(texts(file@), texts(expected@), hint as int) is None,
        },
{
    let ghost f = texts(file@);
    let ghost x = texts(expected@);
    assert(f.len() == file@.len() && x.len() == expected@.len());
    if expected.len() == 0 {
        return Some(if hint < file.len() { hint } else { file.len() });
    }
    if check_at(file, expected, hint) {
        return Some(hint);
    }
    let mut best: Option<usize> = None;
    let mut n: usize = 0;
    while n < file.len()
        invariant
            n <= file@.len(),
            f == texts(file@),
            x == texts(expected@),
            match best {
                Some(b) => nearest(f, x, hint as int, n as int) == Some(b as int),
                None => nearest(f, x, hint as int, n as int) is None,
            },
        decreases file@.len() - n,
    {
        if check_at(file, expected, n) {
            best = match best {
                None => Some(n),
                Some(b) => if distance(n, hint) < distance(b, hint) {
                    Some(n)
                } else {
                    Some(b)
                },
            };
        }
        n += 1;
    }
    proof {
        lemma_nearest(f, x, hint as int, n as int);
    }
    best
}

fn patch(file: Vec<String>, h: &Hunk) -> (r: Result<Vec<String>, AdapterError>)
    ensures
        match r {
            Ok(out) => patched(texts(file@), h@) == Ok::<Seq<Seq<char>>, Fault>(texts(out@)),
            Err(e) => patched(texts(file@), h@) == Err::<Seq<Seq<char>>, Fault>(e@),
        },
{
    let ghost f = texts(file@);
    let expected = list_tagged(h, ' ', '-');
    let hint: usize = if h.old_start > 0 { h.old_start - 1 } else { 0 };
    assert(texts(expected@).len() == expected@.len());
    let at: usize = match locate(&file, &expected, hint) {
        Some(at) => at,
        None => {
            let mut m = "diff hunk at line ".to_owned();
            let n = show(h.old_start as u64);
            m.push_str(n.as_str());
            m.push_str(" does not match the file: context not found");
            return Err(AdapterError::BadOp(m));
        },
    };
    let replacement = list_tagged(h, ' ', '+');
    let mut out: Vec<String> = Vec::new();
    push_range(&mut out, &file, 0, at);
    push_range(&mut out, &replacement, 0, replacement.len());
    assert(at + expected@.len() <= file.len() <= usize::MAX);
    push_range(&mut out, &file, at + expected.len(), file.len());
    assert(texts(out@) =~= f.take(at as int) + texts(replacement@) + f.skip(at + expected@.len()));
    Ok(out)
}

fn push_range(out: &mut Vec<String>, v: &Vec<String>, from: usize, to: usize)
    requires
        from <= to <= v@.len(),
    ensures
        texts(final(out)@) == texts(old(out)@) + texts(v@).subrange(from as int, to as int),
{
    let ghost start = texts(out@);
    let ghost all = texts(v@);
    let mut i: usize = from;
    assert(start + all.subrange(from as int, from as int) =~= start);
    while i < to
        invariant
            from <= i <= to <= v@.len(),
            all == texts(v@),
            texts(out@) == start + all.subrange(from as int, i as int),
        decreases to - i,
    {
        let ghost before = texts(out@);
        out.push(v[i].clone());
        assert(texts(out@) =~= before.push(v@[i as int]@));
        assert(all.subrange(from as int, i + 1) =~= all.subrange(from as int, i as int).push(
            all[i as int],
        ));
        assert(texts(out@) =~= start + all.subrange(from as int, i + 1));
        i += 1;
    }
}

proof fn lemma_lined_up(s: Seq<HunkView>, h: HunkView, i: int)
    requires
        0 <= i <= s.len(),
        forall|k: int| 0 <= k < i ==> !((#[trigger] s[k]).old_start < h.old_start),
        i < s.len() ==> s[i].old_start < h.old_start,
    ensures
        lined_up(s, h) == s.insert(i, h),
    decreases s.len(),
{
    if i == 0 {
        assert(s.insert(0, h) =~= seq![h] + s);
    } else {
        assert(!(s[0].old_start < h.old_start));
        let t = s.skip(1);
        assert forall|k: int| 0 <= k < i - 1 implies !((#[trigger] t[k]).old_start
            < h.old_start) by {
            assert(t[k] == s[k + 1]);
        }
        lemma_lined_up(t, h, i - 1);
        assert(s.insert(i, h) =~= seq![s[0]] + t.insert(i - 1, h));
    }
}

fn line_up(hunks: Vec<Hunk>) -> (r: Vec<Hunk>)
    ensures
        hunk_views(r@) == bottom_up(hunk_views(hunks@)),
{
    let mut rest = hunks;
    let ghost all = hunk_views(rest@);
    let mut out: Vec<Hunk> = Vec::new();
    let mut done: Ghost<int> = Ghost(0);
    assert(all.take(0) =~= Seq::<HunkView>::empty());
    assert(hunk_views(out@) =~= Seq::<HunkView>::empty());
    assert(all.skip(0) =~= all);
    while rest.len() > 0
        invariant
            0 <= done@ <= all.len(),
            hunk_views(rest@) == all.skip(done@),
            hunk_views(out@) == bottom_up(all.take(done@)),
        decreases rest@.len(),
    {
        let ghost before = rest@;
        assert(hunk_views(before).len() == before.len());
        assert(done@ < all.len());
        let h = rest.remove(0);
        proof {
            assert(hunk_views(before)[0] == h@);
            assert(all.skip(done@)[0] == all[done@]);
            assert(hunk_views(rest@) =~= hunk_views(before).skip(1));
            assert(all.skip(done@).skip(1) =~= all.skip(done@ + 1));
        }
        let mut i: usize = 0;
        while i < out.len() && !(out[i].old_start < h.old_start)
            invariant
                i <= out@.len(),
                forall|k: int|
                    0 <= k < i ==> !((#[trigger] hunk_views(out@)[k]).old_start < h@.old_start),
            decreases out@.len() - i,
        {
            i += 1;
        }
        let ghost sofar = hunk_views(out@);
        proof {
            lemma_lined_up(sofar, h@, i as int);
            let nn = all.take(done@ + 1);
            assert(nn.drop_last() =~= all.take(done@));
            assert(nn.last() == h@);
        }
        out.insert(i, h);
        assert(hunk_views(out@) =~= sofar.insert(i as int, h@));
        proof {
            done@ = done@ + 1;
        }
    }
    assert(all.take(done@) =~= all);
    out
}

proof fn lemma_patch_fault(file: Seq<Seq<char>>, hunks: Seq<HunkView>, n: int)
    requires
        0 <= n <= hunks.len(),
        all_patched(file, hunks.take(n)) is Err,
    ensures
        all_patched(file, hunks) == all_patched(file, hunks.take(n)),
    decreases hunks.len(),
{
    if n == hunks.len() {
        assert(hunks.take(n) =~= hunks);
    } else {
        assert(hunks.drop_last().take(n) =~= hunks.take(n));
        lemma_patch_fault(file, hunks.drop_last(), n);
    }
}

pub fn apply_unified(src: &str, diff: &str) -> (r: Result<String, AdapterError>)
    ensures
        match r {
            Ok(out) => diffed(src@, diff@) == Ok::<Seq<char>, Fault>(out@),
            Err(e) => diffed(src@, diff@) == Err::<Seq<char>, Fault>(e@),
        },
{
    let hunks = match parse_hunks(diff) {
        Ok(h) => h,
        Err(e) => {
            return Err(e);
        },
    };
    assert(hunk_views(hunks@).len() == hunks@.len());
    if hunks.len() == 0 {
        return Err(bad_op("diff contains no hunks"));
    }
    let ordered = line_up(hunks);
    let ghost o = hunk_views(ordered@);
    let mut file = lines(src);
    let ghost start = lines_of(src@);
    let mut i: usize = 0;
    assert(o.take(0) =~= Seq::<HunkView>::empty());
    while i < ordered.len()
        invariant
            i <= ordered@.len(),
            o == hunk_views(ordered@),
            start == lines_of(src@),
            hunks_of(lines_of(diff@)) is Ok,
            hunks_of(lines_of(diff@))->Ok_0.len() > 0,
            o == bottom_up(hunks_of(lines_of(diff@))->Ok_0),
            all_patched(start, o.take(i as int)) == Ok::<Seq<Seq<char>>, Fault>(texts(file@)),
        decreases ordered@.len() - i,
    {
        let ghost nn = o.take(i + 1);
        assert(nn.drop_last() =~= o.take(i as int));
        assert(nn.last() == ordered@[i as int]@);
        match patch(file, &ordered[i]) {
            Ok(out) => {
                file = out;
            },
            Err(e) => {
                proof {
                    lemma_patch_fault(start, o, i + 1);
                }
                return Err(e);
            },
        }
        i += 1;
    }
    assert(o.take(i as int) =~= o);
    let mut text = join(&file, "\n");
    assert(texts(file@).len() == file@.len());
    if ends_with(src, "\n") && file.len() > 0 {
        text.push_str("\n");
    }
    Ok(text)
}

} // verus!
