//! Mathematical model of a price series: sums, extremes and windows.
use vstd::prelude::*;

verus! {

/// Sum of all prices of `s`.
pub open spec fn sum_of(s: Seq<i64>) -> int
    decreases s.len(),
{
    if s.len() == 0 {
        0
    } else {
        sum_of(s.drop_last()) + s.last()
    }
}

/// Smallest price of a non-empty `s`.
pub open spec fn min_of(s: Seq<i64>) -> int
    recommends
        s.len() > 0,
    decreases s.len(),
{
    if s.len() <= 1 {
        s[0] as int
    } else if s.last() <= min_of(s.drop_last()) {
        s.last() as int
    } else {
        min_of(s.drop_last())
    }
}

/// Largest price of a non-empty `s`.
pub open spec fn max_of(s: Seq<i64>) -> int
    recommends
        s.len() > 0,
    decreases s.len(),
{
    if s.len() <= 1 {
        s[0] as int
    } else if s.last() >= max_of(s.drop_last()) {
        s.last() as int
    } else {
        max_of(s.drop_last())
    }
}

/// Sum of the `n` prices of `s` that start at index `start`.
pub open spec fn window_sum(s: Seq<i64>, start: int, n: int) -> int {
    sum_of(s.subrange(start, start + n))
}

/// Number of windows of `n` consecutive prices in a series of `len` prices.
pub open spec fn window_count(len: int, n: int) -> int {
    if len >= n {
        len - n + 1
    } else {
        0
    }
}

/// A sum of `k` prices lies within `k` times the range of one price.
pub proof fn lemma_sum_bounds(s: Seq<i64>)
    ensures
        -(s.len() * 0x8000_0000_0000_0000) <= sum_of(s) <= s.len() * (0x7fff_ffff_ffff_ffff),
    decreases s.len(),
{
    if s.len() > 0 {
        lemma_sum_bounds(s.drop_last());
    }
}

/// The extremes bound every price, and the sum lies between `len * min` and
/// `len * max`.
pub proof fn lemma_extremes_bound_sum(s: Seq<i64>)
    requires
        s.len() > 0,
    ensures
        forall|i: int| 0 <= i < s.len() ==> min_of(s) <= #[trigger] s[i] <= max_of(s),
        s.len() * min_of(s) <= sum_of(s) <= s.len() * max_of(s),
    decreases s.len(),
{
    if s.len() == 1 {
        assert(s.drop_last().len() == 0);
        assert(sum_of(s.drop_last()) == 0);
        assert(sum_of(s) == s[0] && min_of(s) == s[0] && max_of(s) == s[0]);
        assert(s.len() * min_of(s) == min_of(s) && s.len() * max_of(s) == max_of(s));
    } else {
        let t = s.drop_last();
        lemma_extremes_bound_sum(t);
        assert forall|i: int| 0 <= i < s.len() implies min_of(s) <= #[trigger] s[i] <= max_of(s) by {
            if i < t.len() {
                assert(s[i] == t[i]);
            }
        }
        assert(s.len() * min_of(s) == t.len() * min_of(s) + min_of(s)) by (nonlinear_arith)
            requires
                s.len() == t.len() + 1,
        ;
        assert(s.len() * max_of(s) == t.len() * max_of(s) + max_of(s)) by (nonlinear_arith)
            requires
                s.len() == t.len() + 1,
        ;
        assert(t.len() * min_of(s) <= t.len() * min_of(t)) by (nonlinear_arith)
            requires
                min_of(s) <= min_of(t),
        ;
        assert(t.len() * max_of(t) <= t.len() * max_of(s)) by (nonlinear_arith)
            requires
                max_of(t) <= max_of(s),
        ;
        assert(min_of(s) <= s[s.len() - 1] <= max_of(s));
        assert(sum_of(s) == sum_of(t) + s[s.len() - 1]);
    }
}

/// Sum of `series[lo..hi]`.
pub fn sum_range(series: &[i64], lo: usize, hi: usize) -> (r: i128)
    requires
        lo <= hi <= series@.len(),
    ensures
        r == sum_of(series@.subrange(lo as int, hi as int)),
{
    let mut acc: i128 = 0;
    let mut j: usize = lo;
    while j < hi
        invariant
            lo <= j <= hi <= series@.len(),
            acc == sum_of(series@.subrange(lo as int, j as int)),
            -((j - lo) * 0x8000_0000_0000_0000) <= acc <= (j - lo) * (0x7fff_ffff_ffff_ffff),
        decreases hi - j,
    {
        assert(series@.subrange(lo as int, j + 1).drop_last() =~= series@.subrange(
            lo as int,
            j as int,
        ));
        acc = acc + series[j] as i128;
        j = j + 1;
    }
    acc
}

} // verus!
