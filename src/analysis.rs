//! Summary statistics, trailing moving averages and first-to-last change of
//! a price series.
use vstd::prelude::*;
use crate::rounding::{
    TICKS_PER_CENT,
    rounded_quotient,
    cents_of,
    round,
    round_div,
    lemma_rounded_quotient_monotone,
    lemma_rounded_quotient_scale,
};
use crate::series::{
    sum_of,
    min_of,
    max_of,
    window_sum,
    window_count,
    sum_range,
    lemma_sum_bounds,
    lemma_extremes_bound_sum,
};

verus! {

/// Hundredths of a percent in a ratio of one.
pub const HUNDREDTHS_OF_PERCENT: i128 = 10_000;

/// Why a series could not be analysed.
#[derive(Debug, Clone, Copy, PartialEq, Eq, Structural)]
pub enum AnalysisError {
    /// The series holds no price where at least one is needed.
    EmptySeries,
    /// The moving-average window is zero prices wide.
    InvalidWindowSize,
    /// The first price is zero, so no relative change exists.
    DivisionByZero,
}

/// Lowest, highest and mean closing price of a series, in cents.
#[derive(Debug, Clone, Copy, PartialEq, Eq, Structural)]
pub struct ClosingPriceData {
    pub min: i64,
    pub max: i64,
    pub avg: i64,
}

/// Mean of a non-empty series, in cents.
pub open spec fn average_cents(s: Seq<i64>) -> int {
    rounded_quotient(sum_of(s), s.len() * TICKS_PER_CENT)
}

/// Mean of the `n` prices starting at `start`, in cents.
pub open spec fn window_average_cents(s: Seq<i64>, start: int, n: int) -> int {
    rounded_quotient(window_sum(s, start, n), n * TICKS_PER_CENT)
}

/// Last price minus first price, in cents.
pub open spec fn change_cents(s: Seq<i64>) -> int {
    cents_of(s.last() - s[0])
}

/// The rounded change relative to the first price, in hundredths of a
/// percent.
pub open spec fn percent_change(s: Seq<i64>) -> int {
    rounded_quotient(change_cents(s) * TICKS_PER_CENT * HUNDREDTHS_OF_PERCENT, s[0] as int)
}

/// `r` is what the summary of `s` must be: an error exactly for an empty
/// series, else the rounded extremes and mean.
pub open spec fn is_summary_of(s: Seq<i64>, r: Result<ClosingPriceData, AnalysisError>) -> bool {
    match r {
        Ok(c) => {
            &&& s.len() > 0
            &&& c.min == cents_of(min_of(s))
            &&& c.max == cents_of(max_of(s))
            &&& c.avg == average_cents(s)
        },
        Err(e) => s.len() == 0 && e == AnalysisError::EmptySeries,
    }
}

/// `r` is what the moving average of width `n` over `s` must be: an error
/// exactly for `n == 0`, else one rounded mean per window, in order.
pub open spec fn is_moving_average_of(
    n: int,
    s: Seq<i64>,
    r: Result<Vec<i64>, AnalysisError>,
) -> bool {
    match r {
        Ok(v) => {
            &&& n > 0
            &&& v@.len() == window_count(s.len() as int, n)
            &&& forall|i: int| 0 <= i < v@.len() ==> #[trigger] v@[i] == window_average_cents(s, i, n)
        },
        Err(e) => n == 0 && e == AnalysisError::InvalidWindowSize,
    }
}

/// `r` is what the change over `s` must be: an error for an empty series or
/// a zero first price, else the rounded percent and absolute change.
pub open spec fn is_change_of(s: Seq<i64>, r: Result<(i128, i64), AnalysisError>) -> bool {
    match r {
        Ok((pct, abs)) => {
            &&& s.len() > 0
            &&& s[0] != 0
            &&& abs == change_cents(s)
            &&& pct == percent_change(s)
        },
        Err(e) => {
            ||| s.len() == 0 && e == AnalysisError::EmptySeries
            ||| s.len() > 0 && s[0] == 0 && e == AnalysisError::DivisionByZero
        },
    }
}

/// The rounded mean of any `k > 0` prices fits in an `i64`.
proof fn lemma_rounded_mean_fits(total: int, k: int)
    requires
        k > 0,
        -(k * 0x8000_0000_0000_0000) <= total <= k * 0x7fff_ffff_ffff_ffff,
    ensures
        i64::MIN <= rounded_quotient(total, k * TICKS_PER_CENT) <= i64::MAX,
{
    assert(-(k * 0x8000_0000_0000_0000) == (-0x8000_0000_0000_0000) * k) by (nonlinear_arith);
    assert(k * 0x7fff_ffff_ffff_ffff == 0x7fff_ffff_ffff_ffff * k) by (nonlinear_arith);
    assert(k * TICKS_PER_CENT == TICKS_PER_CENT * k) by (nonlinear_arith);
    lemma_rounded_quotient_monotone(-0x8000_0000_0000_0000 * k, total, TICKS_PER_CENT * k);
    lemma_rounded_quotient_monotone(total, 0x7fff_ffff_ffff_ffff * k, TICKS_PER_CENT * k);
    lemma_rounded_quotient_scale(-0x8000_0000_0000_0000, TICKS_PER_CENT as int, k);
    lemma_rounded_quotient_scale(0x7fff_ffff_ffff_ffff, TICKS_PER_CENT as int, k);
    assert((2 * 0x8000_0000_0000_0000 + 100) / 200 == 92233720368547758int);
}

/// For every non-empty series the rounded mean lies between the rounded
/// minimum and the rounded maximum.
pub proof fn lemma_average_between_extremes(s: Seq<i64>)
    requires
        s.len() > 0,
    ensures
        cents_of(min_of(s)) <= average_cents(s) <= cents_of(max_of(s)),
{
    let k = s.len() as int;
    lemma_extremes_bound_sum(s);
    assert(k * min_of(s) == min_of(s) * k && k * max_of(s) == max_of(s) * k) by (nonlinear_arith);
    assert(k * TICKS_PER_CENT == TICKS_PER_CENT * k) by (nonlinear_arith);
    lemma_rounded_quotient_monotone(min_of(s) * k, sum_of(s), TICKS_PER_CENT * k);
    lemma_rounded_quotient_monotone(sum_of(s), max_of(s) * k, TICKS_PER_CENT * k);
    lemma_rounded_quotient_scale(min_of(s), TICKS_PER_CENT as int, k);
    lemma_rounded_quotient_scale(max_of(s), TICKS_PER_CENT as int, k);
}

/// Lowest, highest and mean price of `quotes`, each rounded to cents; an
/// empty series is refused.
pub fn refine_quotes(quotes: &[i64]) -> (r: Result<ClosingPriceData, AnalysisError>)
    ensures
        is_summary_of(quotes@, r),
        r matches Ok(c) ==> c.min <= c.avg <= c.max,
{
    let len = quotes.len();
    if len == 0 {
        return Err(AnalysisError::EmptySeries);
    }
    let mut lo: i64 = quotes[0];
    let mut hi: i64 = quotes[0];
    let mut i: usize = 1;
    while i < len
        invariant
            1 <= i <= len == quotes@.len(),
            lo == min_of(quotes@.subrange(0, i as int)),
            hi == max_of(quotes@.subrange(0, i as int)),
        decreases len - i,
    {
        let v = quotes[i];
        assert(quotes@.subrange(0, i + 1).drop_last() =~= quotes@.subrange(0, i as int));
        if v <= lo {
            lo = v;
        }
        if v >= hi {
            hi = v;
        }
        i = i + 1;
    }
    assert(quotes@.subrange(0, len as int) =~= quotes@);
    let total = sum_range(quotes, 0, len);
    proof {
        lemma_sum_bounds(quotes@);
        lemma_rounded_mean_fits(total as int, len as int);
        lemma_average_between_extremes(quotes@);
    }
    let avg = round_div(total, len as i128 * (TICKS_PER_CENT as i128));
    Ok(ClosingPriceData { min: round(lo), max: round(hi), avg: avg as i64 })
}

/// Trailing simple moving average of width `n`: the rounded mean of every
/// run of `n` consecutive prices, from the first run on. A series shorter
/// than `n` has no runs; a width of zero is refused.
pub fn n_window_sma(n: usize, series: &[i64]) -> (r: Result<Vec<i64>, AnalysisError>)
    ensures
        is_moving_average_of(n as int, series@, r),
        n >= 1 ==> (r matches Ok(v) && v@.len() == if series@.len() - n + 1 >= 0 {
            series@.len() - n + 1
        } else {
            0
        }),
{
    if n == 0 {
        return Err(AnalysisError::InvalidWindowSize);
    }
    let len = series.len();
    let count: usize = if len >= n { len - n + 1 } else { 0 };
    let mut out: Vec<i64> = Vec::new();
    let mut start: usize = 0;
    while start < count
        invariant
            n > 0,
            len == series@.len(),
            count == window_count(len as int, n as int),
            start <= count,
            out@.len() == start,
            forall|k: int| 0 <= k < start ==> #[trigger] out@[k] == window_average_cents(series@, k, n as int),
        decreases count - start,
    {
        let total = sum_range(series, start, start + n);
        proof {
            lemma_sum_bounds(series@.subrange(start as int, start + n));
            lemma_rounded_mean_fits(total as int, n as int);
        }
        let avg = round_div(total, n as i128 * (TICKS_PER_CENT as i128));
        out.push(avg as i64);
        start = start + 1;
    }
    Ok(out)
}

/// Change from the first to the last price: the percent change, in
/// hundredths of a percent and taken from the rounded absolute change, and
/// the absolute change, in cents. An empty series or a zero first price is
/// refused.
pub fn price_diff(series: &[i64]) -> (r: Result<(i128, i64), AnalysisError>)
    ensures
        is_change_of(series@, r),
{
    let len = series.len();
    if len == 0 {
        return Err(AnalysisError::EmptySeries);
    }
    let first = series[0];
    let last = series[len - 1];
    if first == 0 {
        return Err(AnalysisError::DivisionByZero);
    }
    let delta = last as i128 - first as i128;
    let abs = round_div(delta, TICKS_PER_CENT as i128);
    proof {
        lemma_rounded_quotient_monotone(delta as int, 0x1_0000_0000_0000_0000, 100);
        lemma_rounded_quotient_monotone(-0x1_0000_0000_0000_0000, delta as int, 100);
    }
    let pct = round_div(abs * (TICKS_PER_CENT as i128) * HUNDREDTHS_OF_PERCENT, first as i128);
    Ok((pct, abs as i64))
}

/// Two results that both meet the summary's contract for one series are
/// identical, so repeated calls on equal input agree.
pub proof fn lemma_summary_is_determined(
    s: Seq<i64>,
    r1: Result<ClosingPriceData, AnalysisError>,
    r2: Result<ClosingPriceData, AnalysisError>,
)
    requires
        is_summary_of(s, r1),
        is_summary_of(s, r2),
    ensures
        r1 == r2,
{
}

/// Two results that both meet the moving average's contract for one width
/// and series hold the same values, so repeated calls on equal input agree.
pub proof fn lemma_moving_average_is_determined(
    n: int,
    s: Seq<i64>,
    r1: Result<Vec<i64>, AnalysisError>,
    r2: Result<Vec<i64>, AnalysisError>,
)
    requires
        is_moving_average_of(n, s, r1),
        is_moving_average_of(n, s, r2),
    ensures
        match (r1, r2) {
            (Ok(v1), Ok(v2)) => v1@ == v2@,
            (Err(e1), Err(e2)) => e1 == e2,
            _ => false,
        },
{
    if let (Ok(v1), Ok(v2)) = (r1, r2) {
        assert(v1@ =~= v2@);
    }
}

/// Two results that both meet the change's contract for one series are
/// identical, so repeated calls on equal input agree.
pub proof fn lemma_change_is_determined(
    s: Seq<i64>,
    r1: Result<(i128, i64), AnalysisError>,
    r2: Result<(i128, i64), AnalysisError>,
)
    requires
        is_change_of(s, r1),
        is_change_of(s, r2),
    ensures
        r1 == r2,
{
}

} // verus!
