//! Ordered collections of names.
//!
//! Names are ordered character by character, a prefix before what extends it. A set of names is a
//! vector in strictly ascending order, so that two sets with the same members are the same
//! sequence and every walk over one is deterministic.

use crate::text::texts;
use crate::text::to_chars;
use vstd::prelude::*;

verus! {

/// Is `a` strictly before `b`?
pub open spec fn before(a: Seq<char>, b: Seq<char>) -> bool
    decreases a.len(),
{
    if b.len() == 0 {
        false
    } else if a.len() == 0 {
        true
    } else if a[0] == b[0] {
        before(a.skip(1), b.skip(1))
    } else {
        a[0] < b[0]
    }
}

/// The order is total: of two different names one is before the other.
pub proof fn lemma_before_total(a: Seq<char>, b: Seq<char>)
    ensures
        a == b || before(a, b) || before(b, a),
    decreases a.len(),
{
    if a.len() == 0 || b.len() == 0 {
        if a.len() == 0 && b.len() == 0 {
            assert(a =~= b);
        }
    } else if a[0] == b[0] {
        lemma_before_total(a.skip(1), b.skip(1));
        if a.skip(1) == b.skip(1) {
            assert(a =~= seq![a[0]] + a.skip(1));
            assert(b =~= seq![b[0]] + b.skip(1));
        }
    }
}

/// No name is before itself, and of two names at most one is before the other.
pub proof fn lemma_before_asymmetric(a: Seq<char>, b: Seq<char>)
    ensures
        before(a, b) ==> !before(b, a) && a != b,
    decreases a.len(),
{
    if a.len() > 0 && b.len() > 0 && a[0] == b[0] {
        lemma_before_asymmetric(a.skip(1), b.skip(1));
    }
}

/// The order is transitive.
pub proof fn lemma_before_transitive(a: Seq<char>, b: Seq<char>, c: Seq<char>)
    requires
        before(a, b),
        before(b, c),
    ensures
        before(a, c),
    decreases a.len(),
{
    if a.len() > 0 && b.len() > 0 && c.len() > 0 && a[0] == b[0] && b[0] == c[0] {
        lemma_before_transitive(a.skip(1), b.skip(1), c.skip(1));
    }
}

/// Is `a` strictly before `b`?
pub fn is_before(a: &str, b: &str) -> (r: bool)
    ensures
        r == before(a@, b@),
{
    let x = to_chars(a);
    let y = to_chars(b);
    let mut i: usize = 0;
    assert(x@.skip(0) =~= x@);
    assert(y@.skip(0) =~= y@);
    while i < x.len() && i < y.len()
        invariant
            x@ == a@,
            y@ == b@,
            i <= x@.len(),
            i <= y@.len(),
            before(a@, b@) == before(x@.skip(i as int), y@.skip(i as int)),
        decreases x@.len() - i,
    {
        if x[i] != y[i] {
            return x[i] < y[i];
        }
        assert(x@.skip(i as int).skip(1) =~= x@.skip(i + 1));
        assert(y@.skip(i as int).skip(1) =~= y@.skip(i + 1));
        i += 1;
    }
    i < y.len()
}

/// Strictly ascending: sorted, and no name twice.
pub open spec fn ascending(v: Seq<Seq<char>>) -> bool {
    forall|i: int, j: int| 0 <= i < j < v.len() ==> before(#[trigger] v[i], #[trigger] v[j])
}

/// Two ascending sequences with the same members are the same sequence.
pub proof fn lemma_ascending_unique(a: Seq<Seq<char>>, b: Seq<Seq<char>>)
    requires
        ascending(a),
        ascending(b),
        forall|x: Seq<char>| a.contains(x) <==> b.contains(x),
    ensures
        a == b,
    decreases a.len(),
{
    if a.len() == 0 {
        if b.len() > 0 {
            assert(b.contains(b[0]));
        }
        assert(a =~= b);
    } else if b.len() == 0 {
        assert(a.contains(a[0]));
    } else {
        let x = a.last();
        let y = b.last();
        assert(a.contains(x));
        assert(b.contains(y));
        let i = choose|i: int| 0 <= i < b.len() && b[i] == x;
        let j = choose|j: int| 0 <= j < a.len() && a[j] == y;
        lemma_before_asymmetric(x, y);
        if x != y {
            assert(before(b[i], y));
            assert(before(a[j], x));
        }
        let a2 = a.drop_last();
        let b2 = b.drop_last();
        assert forall|z: Seq<char>| a2.contains(z) <==> b2.contains(z) by {
            if a2.contains(z) {
                let k = choose|k: int| 0 <= k < a2.len() && a2[k] == z;
                assert(a[k] == z);
                assert(a.contains(z));
                lemma_before_asymmetric(z, x);
                let m = choose|m: int| 0 <= m < b.len() && b[m] == z;
                assert(b2[m] == z);
            }
            if b2.contains(z) {
                let k = choose|k: int| 0 <= k < b2.len() && b2[k] == z;
                assert(b[k] == z);
                assert(b.contains(z));
                lemma_before_asymmetric(z, y);
                let m = choose|m: int| 0 <= m < a.len() && a[m] == z;
                assert(a2[m] == z);
            }
        }
        lemma_ascending_unique(a2, b2);
        assert(a =~= a2.push(x));
        assert(b =~= b2.push(y));
    }
}

/// Where `name` stands in an ascending run, or where it would have to be put.
pub fn position(v: &Vec<String>, name: &str) -> (r: (usize, bool))
    requires
        ascending(texts(v@)),
    ensures
        r.0 <= v@.len(),
        r.1 == texts(v@).contains(name@),
        r.1 ==> r.0 < v@.len() && v@[r.0 as int]@ == name@,
        forall|k: int| 0 <= k < r.0 ==> before(#[trigger] texts(v@)[k], name@),
        !r.1 ==> forall|k: int| r.0 <= k < v@.len() ==> before(name@, #[trigger] texts(v@)[k]),
{
    let mut i: usize = 0;
    while i < v.len() && is_before(v[i].as_str(), name)
        invariant
            i <= v@.len(),
            forall|k: int| 0 <= k < i ==> before(#[trigger] texts(v@)[k], name@),
        decreases v@.len() - i,
    {
        i += 1;
    }
    let ghost t = texts(v@);
    if i < v.len() && !is_before(name, v[i].as_str()) {
        proof {
            lemma_before_total(t[i as int], name@);
            assert(t[i as int] == name@);
            assert(t.contains(name@));
        }
        (i, true)
    } else {
        proof {
            assert forall|k: int| i <= k < t.len() implies before(name@, #[trigger] t[k]) by {
                if k > i {
                    lemma_before_transitive(name@, t[i as int], t[k]);
                }
            }
            if t.contains(name@) {
                let k = choose|k: int| 0 <= k < t.len() && t[k] == name@;
                lemma_before_asymmetric(name@, name@);
            }
        }
        (i, false)
    }
}

/// Is `name` in the set?
pub fn has(v: &Vec<String>, name: &str) -> (r: bool)
    requires
        ascending(texts(v@)),
    ensures
        r == texts(v@).contains(name@),
{
    position(v, name).1
}

/// Put a name into the set. Returns whether it was new.
pub fn insert(v: &mut Vec<String>, name: String) -> (fresh: bool)
    requires
        ascending(texts(old(v)@)),
    ensures
        ascending(texts(final(v)@)),
        fresh == !texts(old(v)@).contains(name@),
        !fresh ==> final(v)@ == old(v)@,
        final(v)@.len() == old(v)@.len() + if fresh { 1int } else { 0int },
        forall|x: Seq<char>| #[trigger]
            texts(final(v)@).contains(x) <==> texts(old(v)@).contains(x) || x == name@,
{
    let (i, found) = position(v, name.as_str());
    if found {
        return false;
    }
    let ghost t0 = texts(v@);
    let ghost n = name@;
    v.insert(i, name);
    proof {
        let t = texts(v@);
        assert(t =~= t0.insert(i as int, n));
        assert forall|a: int, b: int| 0 <= a < b < t.len() implies before(
            #[trigger] t[a],
            #[trigger] t[b],
        ) by {
            let a0 = if a < i { a } else { a - 1 };
            let b0 = if b < i { b } else { b - 1 };
            if a != i {
                assert(t[a] == t0[a0]);
            }
            if b != i {
                assert(t[b] == t0[b0]);
            }
        }
        assert forall|x: Seq<char>| #[trigger] t.contains(x) <==> t0.contains(x) || x == n by {
            if t.contains(x) {
                let k = choose|k: int| 0 <= k < t.len() && t[k] == x;
                if k < i {
                    assert(t0[k] == x);
                } else if k > i {
                    assert(t0[k - 1] == x);
                }
            }
            if t0.contains(x) {
                let k = choose|k: int| 0 <= k < t0.len() && t0[k] == x;
                if k < i {
                    assert(t[k] == x);
                } else {
                    assert(t[k + 1] == x);
                }
            }
            if x == n {
                assert(t[i as int] == x);
            }
        }
    }
    true
}

/// Is `name` anywhere in a run of strings, in any order?
pub fn mentions(v: &Vec<String>, name: &str) -> (r: bool)
    ensures
        r == texts(v@).contains(name@),
{
    let mut i: usize = 0;
    let owned = name.to_owned();
    while i < v.len()
        invariant
            i <= v@.len(),
            owned@ == name@,
            forall|k: int| 0 <= k < i ==> #[trigger] texts(v@)[k] != name@,
        decreases v@.len() - i,
    {
        if v[i] == owned {
            assert(texts(v@)[i as int] == name@);
            return true;
        }
        i += 1;
    }
    false
}

/// The members of a set of names, in ascending order.
pub open spec fn listed(s: Set<Seq<char>>) -> Seq<Seq<char>> {
    choose|v: Seq<Seq<char>>|
        ascending(v) && forall|x: Seq<char>| #[trigger] v.contains(x) <==> s.contains(x)
}

/// An ascending run of exactly the members of a set is the set's list.
pub proof fn lemma_listed(v: Seq<Seq<char>>, s: Set<Seq<char>>)
    requires
        ascending(v),
        forall|x: Seq<char>| #[trigger] v.contains(x) <==> s.contains(x),
    ensures
        listed(s) == v,
{
    let w = listed(s);
    assert(ascending(w) && forall|x: Seq<char>| #[trigger] w.contains(x) <==> s.contains(x));
    lemma_ascending_unique(v, w);
}

/// A name put in its place in an ascending run that does not have it.
proof fn lemma_put_in(v: Seq<Seq<char>>, x: Seq<char>) -> (w: Seq<Seq<char>>)
    requires
        ascending(v),
        !v.contains(x),
    ensures
        ascending(w),
        forall|y: Seq<char>| #[trigger] w.contains(y) <==> v.contains(y) || y == x,
    decreases v.len(),
{
    if v.len() == 0 || before(x, v[0]) {
        let w = seq![x] + v;
        assert forall|i: int, j: int| 0 <= i < j < w.len() implies before(
            #[trigger] w[i],
            #[trigger] w[j],
        ) by {
            if i > 0 {
                assert(w[i] == v[i - 1] && w[j] == v[j - 1]);
            } else if j > 1 {
                assert(w[j] == v[j - 1]);
                assert(before(v[0], v[j - 1]));
                lemma_before_transitive(x, v[0], v[j - 1]);
            }
        }
        assert forall|y: Seq<char>| #[trigger] w.contains(y) <==> v.contains(y) || y == x by {
            assert(w[0] == x);
            if v.contains(y) {
                let k = choose|k: int| 0 <= k < v.len() && v[k] == y;
                assert(w[k + 1] == y);
            }
            if w.contains(y) && y != x {
                let k = choose|k: int| 0 <= k < w.len() && w[k] == y;
                assert(v[k - 1] == y);
            }
        }
        w
    } else {
        let rest = v.skip(1);
        assert forall|i: int, j: int| 0 <= i < j < rest.len() implies before(
            #[trigger] rest[i],
            #[trigger] rest[j],
        ) by {
            assert(rest[i] == v[i + 1] && rest[j] == v[j + 1]);
        }
        if rest.contains(x) {
            let k = choose|k: int| 0 <= k < rest.len() && rest[k] == x;
            assert(v[k + 1] == x);
        }
        assert(v.contains(v[0]));
        lemma_before_total(x, v[0]);
        let u = lemma_put_in(rest, x);
        let w = seq![v[0]] + u;
        assert forall|i: int, j: int| 0 <= i < j < w.len() implies before(
            #[trigger] w[i],
            #[trigger] w[j],
        ) by {
            if i > 0 {
                assert(w[i] == u[i - 1] && w[j] == u[j - 1]);
            } else {
                assert(w[j] == u[j - 1]);
                assert(u.contains(u[j - 1]));
                if u[j - 1] != x {
                    let k = choose|k: int| 0 <= k < rest.len() && rest[k] == u[j - 1];
                    assert(v[k + 1] == u[j - 1]);
                    assert(before(v[0], v[k + 1]));
                }
            }
        }
        assert forall|y: Seq<char>| #[trigger] w.contains(y) <==> v.contains(y) || y == x by {
            assert(w[0] == v[0]);
            if v.contains(y) && y != v[0] {
                let k = choose|k: int| 0 <= k < v.len() && v[k] == y;
                assert(rest[k - 1] == y);
                assert(rest.contains(y));
            }
            if u.contains(y) {
                let k = choose|k: int| 0 <= k < u.len() && u[k] == y;
                assert(w[k + 1] == y);
            }
            assert(u.contains(x));
            if w.contains(y) && y != v[0] {
                let k = choose|k: int| 0 <= k < w.len() && w[k] == y;
                assert(u[k - 1] == y);
                assert(u.contains(y));
                if y != x {
                    let l = choose|l: int| 0 <= l < rest.len() && rest[l] == y;
                    assert(v[l + 1] == y);
                }
            }
        }
        w
    }
}

proof fn lemma_some_list(s: Set<Seq<char>>) -> (v: Seq<Seq<char>>)
    requires
        s.finite(),
    ensures
        ascending(v),
        forall|x: Seq<char>| #[trigger] v.contains(x) <==> s.contains(x),
    decreases s.len(),
{
    if s.len() == 0 {
        Seq::empty()
    } else {
        let x = s.choose();
        let u = lemma_some_list(s.remove(x));
        lemma_put_in(u, x)
    }
}

/// The list of a finite set names exactly its members, in ascending order.
pub proof fn law_a_list_names_its_members(s: Set<Seq<char>>)
    requires
        s.finite(),
    ensures
        ascending(listed(s)),
        forall|x: Seq<char>| #[trigger] listed(s).contains(x) <==> s.contains(x),
{
    let v = lemma_some_list(s);
    lemma_listed(v, s);
}

} // verus!
