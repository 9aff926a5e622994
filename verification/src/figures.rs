//! Runs of numbers: in order, and by rank.

use vstd::prelude::*;

verus! {

/// The numbers with one more, behind those that are not over it.
pub open spec fn slotted(s: Seq<u64>, n: u64) -> Seq<u64>
    decreases s.len(),
{
    if s.len() == 0 || s.last() <= n {
        s.push(n)
    } else {
        slotted(s.drop_last(), n).push(s.last())
    }
}

/// Numbers in rising order.
pub open spec fn ordered(s: Seq<u64>) -> Seq<u64>
    decreases s.len(),
{
    if s.len() == 0 {
        Seq::empty()
    } else {
        slotted(ordered(s.drop_last()), s.last())
    }
}

/// Does no number come after a larger one?
pub open spec fn rising(s: Seq<u64>) -> bool {
    forall|i: int, j: int| 0 <= i <= j < s.len() ==> #[trigger] s[i] <= #[trigger] s[j]
}

proof fn lemma_slotted(s: Seq<u64>, n: u64)
    requires
        rising(s),
    ensures
        rising(slotted(s, n)),
        slotted(s, n).len() == s.len() + 1,
        slotted(s, n).to_multiset() == s.to_multiset().insert(n),
        slotted(s, n).last() == if s.len() > 0 && s.last() > n {
            s.last()
        } else {
            n
        },
    decreases s.len(),
{
    broadcast use vstd::seq_lib::group_to_multiset_ensures;
    if s.len() == 0 || s.last() <= n {
        assert forall|i: int, j: int| 0 <= i <= j < s.push(n).len() implies #[trigger] s.push(n)[i]
            <= #[trigger] s.push(n)[j] by {
            if j == s.len() && i < j {
                assert(s[i] <= s[s.len() - 1]);
            }
        }
    } else {
        let d = s.drop_last();
        lemma_slotted(d, n);
        let r = slotted(d, n);
        assert(r.last() <= s.last()) by {
            if d.len() > 0 {
                assert(d.last() == s[s.len() - 2]);
                assert(s[s.len() - 2] <= s[s.len() - 1]);
            }
        }
        assert forall|i: int, j: int| 0 <= i <= j < r.push(s.last()).len() implies #[trigger] r.push(
            s.last(),
        )[i] <= #[trigger] r.push(s.last())[j] by {
            if j == r.len() && i < j {
                assert(r[i] <= r[r.len() - 1]);
            }
        }
        assert(s =~= d.push(s.last()));
    }
}

/// Ordering keeps the numbers and puts them in rising order.
pub proof fn law_ordering_sorts(s: Seq<u64>)
    ensures
        rising(ordered(s)),
        ordered(s).len() == s.len(),
        ordered(s).to_multiset() == s.to_multiset(),
    decreases s.len(),
{
    broadcast use vstd::seq_lib::group_to_multiset_ensures;
    if s.len() > 0 {
        law_ordering_sorts(s.drop_last());
        lemma_slotted(ordered(s.drop_last()), s.last());
        assert(s =~= s.drop_last().push(s.last()));
    } else {
        assert(ordered(s) =~= s);
    }
}

proof fn lemma_slotted_at(s: Seq<u64>, n: u64, i: int)
    requires
        0 <= i <= s.len(),
        i > 0 ==> s[i - 1] <= n,
        forall|k: int| i <= k < s.len() ==> #[trigger] s[k] > n,
    ensures
        slotted(s, n) == s.insert(i, n),
    decreases s.len(),
{
    if i == s.len() {
        assert(s.insert(i, n) =~= s.push(n));
    } else {
        assert(s[s.len() - 1] > n);
        lemma_slotted_at(s.drop_last(), n, i);
        assert(s.drop_last().insert(i, n).push(s.last()) =~= s.insert(i, n));
    }
}

/// Numbers in rising order.
pub fn order(v: &Vec<u64>) -> (r: Vec<u64>)
    ensures
        r@ == ordered(v@),
        r@.len() == v@.len(),
{
    let mut out: Vec<u64> = Vec::new();
    let mut i: usize = 0;
    assert(v@.take(0) =~= Seq::<u64>::empty());
    while i < v.len()
        invariant
            i <= v@.len(),
            out@ == ordered(v@.take(i as int)),
            out@.len() == i,
        decreases v@.len() - i,
    {
        let ghost nn = v@.take(i + 1);
        assert(nn.drop_last() =~= v@.take(i as int));
        assert(nn.last() == v@[i as int]);
        let n = v[i];
        let mut k: usize = out.len();
        while k > 0 && out[k - 1] > n
            invariant
                k <= out@.len(),
                forall|j: int| k <= j < out@.len() ==> #[trigger] out@[j] > n,
            decreases k,
        {
            k -= 1;
        }
        proof {
            lemma_slotted_at(out@, n, k as int);
        }
        out.insert(k, n);
        i += 1;
    }
    assert(v@.take(i as int) =~= v@);
    out
}

/// The place of a percentile by nearest rank: the least place with that share of the numbers at or
/// before it.
pub open spec fn rank_place(p: nat, len: nat) -> int {
    let rank = (p * len + 99) / 100;
    let i = if rank > 0 {
        rank - 1
    } else {
        0
    };
    if i < len {
        i as int
    } else {
        len - 1
    }
}

/// The nearest-rank percentile of numbers in rising order; 0 of none.
pub open spec fn percentile_of(sorted: Seq<u64>, p: nat) -> u64 {
    if sorted.len() == 0 {
        0
    } else {
        sorted[rank_place(p, sorted.len())]
    }
}

/// The nearest-rank percentile of numbers in rising order. With few samples, interpolation would be
/// false precision.
pub fn percentile(sorted: &Vec<u64>, p: u64) -> (r: u64)
    requires
        p <= 100,
    ensures
        r == percentile_of(sorted@, p as nat),
{
    let n = sorted.len();
    if n == 0 {
        return 0;
    }
    assert(0 <= p * n <= 100 * n) by (nonlinear_arith)
        requires
            p <= 100,
    ;
    let wide: u128 = p as u128 * n as u128 + 99;
    let rank: u128 = wide / 100;
    let i: usize = if rank > 0 { (rank - 1) as usize } else { 0 };
    if i < n {
        sorted[i]
    } else {
        sorted[n - 1]
    }
}

/// The middle of some numbers, the upper one of two; 0 of none.
pub open spec fn median_of(s: Seq<u64>) -> u64 {
    if s.len() == 0 {
        0
    } else {
        ordered(s)[s.len() as int / 2]
    }
}

/// The middle of some numbers.
pub fn median(v: Vec<u64>) -> (r: u64)
    ensures
        r == median_of(v@),
{
    if v.len() == 0 {
        return 0;
    }
    let s = order(&v);
    s[v.len() / 2]
}

/// The number that nine tenths of some numbers are at or under; 0 of none.
pub open spec fn p90_of(s: Seq<u64>) -> u64 {
    if s.len() == 0 {
        0
    } else {
        ordered(s)[(9 * s.len() as int + 9) / 10 - 1]
    }
}

/// The number that nine tenths of some numbers are at or under.
pub fn p90(v: Vec<u64>) -> (r: u64)
    ensures
        r == p90_of(v@),
{
    let n = v.len();
    if n == 0 {
        return 0;
    }
    let s = order(&v);
    let i: u128 = (9 * n as u128 + 9) / 10 - 1;
    s[i as usize]
}

/// A sum that does not overflow.
pub open spec fn total_of(s: Seq<u64>) -> nat
    decreases s.len(),
{
    if s.len() == 0 {
        0
    } else {
        total_of(s.drop_last()) + s.last() as nat
    }
}

/// The sum of some numbers.
pub fn total(v: &Vec<u64>) -> (r: u128)
    ensures
        r == total_of(v@),
{
    let mut r: u128 = 0;
    let mut i: usize = 0;
    assert(v@.take(0) =~= Seq::<u64>::empty());
    while i < v.len()
        invariant
            i <= v@.len(),
            r == total_of(v@.take(i as int)),
            r <= i * 0xffff_ffff_ffff_ffff,
        decreases v@.len() - i,
    {
        let ghost nn = v@.take(i + 1);
        assert(nn.drop_last() =~= v@.take(i as int));
        assert(nn.last() == v@[i as int]);
        let len = v.len();
        assert(i < len <= 0xffff_ffff_ffff_ffff);
        r += v[i] as u128;
        i += 1;
    }
    assert(v@.take(i as int) =~= v@);
    r
}

} // verus!
