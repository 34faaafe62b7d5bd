//! Mean, variance, standard deviation and quantiles of an integer sample.
use vstd::prelude::*;
use crate::order::{lemma_order_stats, order_stats, sorted_copy};
use crate::ratio::{Ratio, Root};

verus! {

/// The largest sample whose statistics this module computes: with it every
/// intermediate value of the exact arithmetic fits in 128 bits.
pub const MAX_SAMPLE_LEN: usize = 16384;

/// The largest denominator accepted for a probability.
pub const MAX_PROB_DENOM: i128 = 0x1_0000_0000;

/// Bound on the magnitude of an `i32` sample value.
pub const VALUE_BOUND: i128 = 0x8000_0000;

/// Bound on one squared deviation, `(cd * x - cn)^2`, of a centered sample.
pub const SQ_DEV_BOUND: i128 = 0x1000_0000_0000_0000_0000_0000;

/// Bound on the denominator of a variance, `cd^2 * (n - 1)`.
pub const DENOM_BOUND: i128 = 0x400_0000_0000;

/// Invalid input to a statistic.
#[derive(Clone, Copy, Debug, PartialEq, Eq, Structural)]
pub enum StatsError {
    /// The statistic is undefined on an empty sample.
    EmptySample,
    /// Variance and standard deviation need at least two values.
    TooFewPoints,
    /// A quantile was asked for a probability outside `[0, 1]`.
    ProbabilityOutOfRange,
}

/// The sum of a sample.
pub open spec fn sum(v: Seq<i32>) -> int
    decreases v.len(),
{
    if v.len() == 0 {
        0
    } else {
        sum(v.drop_last()) + v.last() as int
    }
}

/// The sum of squared deviations of `v` from the center `cn / cd`, scaled by
/// `cd * cd` so that it is an integer: the sum of `(cd * x - cn)^2`.
pub open spec fn sq_dev_sum(v: Seq<i32>, cn: int, cd: int) -> int
    decreases v.len(),
{
    if v.len() == 0 {
        0
    } else {
        let d = cd * v.last() - cn;
        sq_dev_sum(v.drop_last(), cn, cd) + d * d
    }
}

/// A center that the variance accepts: a positive denominator no larger than
/// the largest sample, and a value within the range of `i32`.
pub open spec fn center_ok(c: Ratio) -> bool {
    &&& 1 <= c.denom <= MAX_SAMPLE_LEN
    &&& -c.denom * VALUE_BOUND <= c.numer <= c.denom * VALUE_BOUND
}

/// A sample whose statistics are computed: at most `MAX_SAMPLE_LEN` values.
pub open spec fn sample_ok(v: Seq<i32>) -> bool {
    v.len() <= MAX_SAMPLE_LEN
}

/// The center used for the variance: the one given, else the mean.
pub open spec fn center_of(v: Seq<i32>, center: Option<Ratio>) -> (int, int) {
    match center {
        Some(c) => c.pair(),
        None => (sum(v), v.len() as int),
    }
}

/// The sample variance (denominator `n - 1`) about the chosen center, as a
/// pair `(numer, denom)`.
pub open spec fn variance_of(v: Seq<i32>, center: Option<Ratio>) -> (int, int) {
    let (cn, cd) = center_of(v, center);
    (sq_dev_sum(v, cn, cd), cd * cd * (v.len() - 1))
}

/// The quantile of probability `a / b` (Hyndman and Fan's definition 8) of
/// the sorted sample `s`, as a pair `(numer, denom)`. With `n = s.len()` and
/// `h = p * n + (p + 1) / 3 - 1`, the numerator `a * (3n + 1) - 2b` is
/// `3b * h`; `j = floor(h)` and `gamma = h - j`, and the value is
/// `(1 - gamma) * s[j] + gamma * s[j + 1]`, clamped to the first and last
/// order statistics.
pub open spec fn quantile_of(s: Seq<i32>, a: int, b: int) -> (int, int) {
    let n = s.len() as int;
    let d = 3 * b;
    let hn = a * (3 * n + 1) - 2 * b;
    if hn < 0 {
        (s[0] as int, 1)
    } else if hn / d >= n - 1 {
        (s[n - 1] as int, 1)
    } else {
        let j = hn / d;
        let g = hn % d;
        (d * s[j] + g * (s[j + 1] - s[j]), d)
    }
}

proof fn lemma_prefix_step(v: Seq<i32>, i: int)
    requires
        0 <= i < v.len(),
    ensures
        v.subrange(0, i + 1).drop_last() == v.subrange(0, i),
        v.subrange(0, i + 1).last() == v[i],
{
    assert(v.subrange(0, i + 1).drop_last() =~= v.subrange(0, i));
}

fn sample_sum(v: &[i32]) -> (r: i128)
    ensures
        r == sum(v@),
        -v@.len() * VALUE_BOUND <= r <= v@.len() * VALUE_BOUND,
{
    let mut acc: i128 = 0;
    let mut i: usize = 0;
    while i < v.len()
        invariant
            i <= v@.len(),
            acc == sum(v@.subrange(0, i as int)),
            -i * VALUE_BOUND <= acc <= i * VALUE_BOUND,
        decreases v.len() - i,
    {
        proof {
            lemma_prefix_step(v@, i as int);
        }
        acc = acc + v[i] as i128;
        i = i + 1;
    }
    assert(v@.subrange(0, i as int) =~= v@);
    acc
}

/// The arithmetic mean: the sum of the values over their count.
pub fn mean(v: &[i32]) -> (r: Result<Ratio, StatsError>)
    ensures
        match r {
            Ok(m) => v@.len() > 0 && m.pair() == (sum(v@), v@.len() as int),
            Err(e) => v@.len() == 0 && e == StatsError::EmptySample,
        },
{
    if v.len() == 0 {
        return Err(StatsError::EmptySample);
    }
    let s = sample_sum(v);
    Ok(Ratio { numer: s, denom: v.len() as i128 })
}

proof fn lemma_deviation_bound(cd: int, x: int, cn: int)
    requires
        1 <= cd <= MAX_SAMPLE_LEN,
        -VALUE_BOUND <= x <= VALUE_BOUND,
        -cd * VALUE_BOUND <= cn <= cd * VALUE_BOUND,
    ensures
        -0x4000_0000_0000 <= cd * x - cn <= 0x4000_0000_0000,
        0 <= (cd * x - cn) * (cd * x - cn) <= SQ_DEV_BOUND,
{
    assert(-cd * VALUE_BOUND <= cd * x <= cd * VALUE_BOUND) by (nonlinear_arith)
        requires
            1 <= cd,
            -VALUE_BOUND <= x <= VALUE_BOUND,
    ;
    assert(cd * VALUE_BOUND <= 0x2000_0000_0000) by (nonlinear_arith)
        requires
            cd <= MAX_SAMPLE_LEN,
    ;
    lemma_square_bound(cd * x - cn, 0x4000_0000_0000);
    assert(0x4000_0000_0000 * 0x4000_0000_0000 == SQ_DEV_BOUND);
}

pub proof fn lemma_square_bound(d: int, b: int)
    requires
        -b <= d <= b,
    ensures
        0 <= d * d <= b * b,
{
    if d >= 0 {
        assert(d * d <= d * b) by (nonlinear_arith)
            requires
                0 <= d <= b,
        ;
        assert(d * b <= b * b) by (nonlinear_arith)
            requires
                0 <= d <= b,
        ;
        assert(0 <= d * d) by (nonlinear_arith);
    } else {
        assert((-d) * (-d) <= (-d) * b) by (nonlinear_arith)
            requires
                0 <= -d <= b,
        ;
        assert((-d) * b <= b * b) by (nonlinear_arith)
            requires
                0 <= -d <= b,
        ;
        assert(d * d == (-d) * (-d)) by (nonlinear_arith);
        assert(0 <= d * d) by (nonlinear_arith);
    }
}

/// The sum of squared deviations from `center`, or from the mean when no
/// center is given, scaled by the square of the center's denominator. It is
/// non-negative by construction.
fn sum_square_deviations(v: &[i32], center: Option<Ratio>) -> (r: i128)
    requires
        sample_ok(v@),
        v@.len() > 0,
        center matches Some(c) ==> center_ok(c),
    ensures
        r == sq_dev_sum(v@, center_of(v@, center).0, center_of(v@, center).1),
        0 <= r <= v@.len() * SQ_DEV_BOUND,
{
    let (cn, cd) = match center {
        Some(c) => (c.numer, c.denom),
        None => (sample_sum(v), v.len() as i128),
    };
    let mut acc: i128 = 0;
    let mut i: usize = 0;
    while i < v.len()
        invariant
            i <= v@.len() <= MAX_SAMPLE_LEN,
            1 <= cd <= MAX_SAMPLE_LEN,
            -cd * VALUE_BOUND <= cn <= cd * VALUE_BOUND,
            (cn as int, cd as int) == center_of(v@, center),
            acc == sq_dev_sum(v@.subrange(0, i as int), cn as int, cd as int),
            0 <= acc <= i * SQ_DEV_BOUND,
        decreases v.len() - i,
    {
        proof {
            lemma_prefix_step(v@, i as int);
            lemma_deviation_bound(cd as int, v[i as int] as int, cn as int);
        }
        let d: i128 = cd * (v[i] as i128) - cn;
        acc = acc + d * d;
        i = i + 1;
    }
    assert(v@.subrange(0, i as int) =~= v@);
    acc
}

/// The sample variance, with denominator `n - 1`, about `center` or, when
/// none is given, about the mean.
pub fn variance(v: &[i32], center: Option<Ratio>) -> (r: Result<Ratio, StatsError>)
    requires
        sample_ok(v@),
        center matches Some(c) ==> center_ok(c),
    ensures
        match r {
            Ok(var) => v@.len() >= 2 && var.pair() == variance_of(v@, center) && var.wf()
                && 0 <= var.numer <= MAX_SAMPLE_LEN * SQ_DEV_BOUND && var.denom <= DENOM_BOUND,
            Err(e) => v@.len() < 2 && e == StatsError::TooFewPoints,
        },
{
    if v.len() < 2 {
        return Err(StatsError::TooFewPoints);
    }
    let cd: i128 = match center {
        Some(c) => c.denom,
        None => v.len() as i128,
    };
    let s = sum_square_deviations(v, center);
    assert(s <= MAX_SAMPLE_LEN * SQ_DEV_BOUND) by (nonlinear_arith)
        requires
            s <= v@.len() * SQ_DEV_BOUND,
            v@.len() <= MAX_SAMPLE_LEN,
    ;
    let m: i128 = v.len() as i128 - 1;
    assert(1 <= cd * cd <= 0x1000_0000) by (nonlinear_arith)
        requires
            1 <= cd <= MAX_SAMPLE_LEN,
    ;
    assert(cd * cd * m <= DENOM_BOUND && cd * cd * m > 0) by (nonlinear_arith)
        requires
            1 <= cd * cd <= 0x1000_0000,
            1 <= m <= MAX_SAMPLE_LEN,
    ;
    Ok(Ratio { numer: s, denom: cd * cd * m })
}

/// The standard deviation: the square root of the variance, held exactly by
/// its square.
pub fn standard_deviation(v: &[i32], center: Option<Ratio>) -> (r: Result<Root, StatsError>)
    requires
        sample_ok(v@),
        center matches Some(c) ==> center_ok(c),
    ensures
        match r {
            Ok(sd) => v@.len() >= 2 && sd.square.pair() == variance_of(v@, center)
                && sd.square.wf() && 0 <= sd.square.numer <= MAX_SAMPLE_LEN * SQ_DEV_BOUND
                && sd.square.denom <= DENOM_BOUND,
            Err(e) => v@.len() < 2 && e == StatsError::TooFewPoints,
        },
{
    match variance(v, center) {
        Ok(var) => Ok(Root { square: var }),
        Err(e) => Err(e),
    }
}

/// A probability that `quantile` accepts as input: a positive denominator
/// of at most `MAX_PROB_DENOM`. Whether its value lies in `[0, 1]` is checked.
pub open spec fn prob_ok(p: Ratio) -> bool {
    1 <= p.denom <= MAX_PROB_DENOM
}

/// The `p`-quantile of the sample by linear interpolation between order
/// statistics (Hyndman and Fan's definition 8), exactly.
pub fn quantile(v: &[i32], p: Ratio) -> (r: Result<Ratio, StatsError>)
    requires
        v@.len() > 0,
        prob_ok(p),
    ensures
        match r {
            Ok(q) => 0 <= p.numer <= p.denom && q.wf() && q.pair() == quantile_of(
                order_stats(v@),
                p.numer as int,
                p.denom as int,
            ),
            Err(e) => !(0 <= p.numer <= p.denom) && e == StatsError::ProbabilityOutOfRange,
        },
{
    let a = p.numer;
    let b = p.denom;
    if a < 0 || a > b {
        return Err(StatsError::ProbabilityOutOfRange);
    }
    let s = sorted_copy(v);
    proof {
        lemma_order_stats(v@);
    }
    let n = s.len();
    let d: i128 = 3 * b;
    assert(0 <= a * (3 * n + 1) <= 0x1_0000_0000 * 0x3_0000_0000_0000_0000) by (nonlinear_arith)
        requires
            0 <= a <= 0x1_0000_0000,
            1 <= n < 0x1_0000_0000_0000_0000,
    ;
    let hn: i128 = a * (3 * n as i128 + 1) - 2 * b;
    if hn < 0 {
        return Ok(Ratio { numer: s[0] as i128, denom: 1 });
    }
    let j: i128 = hn / d;
    let g: i128 = hn % d;
    if j >= n as i128 - 1 {
        return Ok(Ratio { numer: s[n - 1] as i128, denom: 1 });
    }
    let ju = j as usize;
    let lo = s[ju] as i128;
    let hi = s[ju + 1] as i128;
    assert(-0x3_0000_0000 * VALUE_BOUND <= d * lo <= 0x3_0000_0000 * VALUE_BOUND) by (nonlinear_arith)
        requires
            1 <= d <= 0x3_0000_0000,
            -VALUE_BOUND <= lo <= VALUE_BOUND,
    ;
    assert(-0x3_0000_0000 * 2 * VALUE_BOUND <= g * (hi - lo) <= 0x3_0000_0000 * 2 * VALUE_BOUND)
        by (nonlinear_arith)
        requires
            0 <= g < 0x3_0000_0000,
            -2 * VALUE_BOUND <= hi - lo <= 2 * VALUE_BOUND,
    ;
    Ok(Ratio { numer: d * lo + g * (hi - lo), denom: d })
}

/// `m` is the smallest value of `v`.
pub open spec fn is_min(v: Seq<i32>, m: int) -> bool {
    &&& exists|i: int| 0 <= i < v.len() && v[i] == m
    &&& forall|i: int| 0 <= i < v.len() ==> m <= #[trigger] v[i]
}

/// `m` is the largest value of `v`.
pub open spec fn is_max(v: Seq<i32>, m: int) -> bool {
    &&& exists|i: int| 0 <= i < v.len() && v[i] == m
    &&& forall|i: int| 0 <= i < v.len() ==> #[trigger] v[i] <= m
}

/// The 0-quantile of a non-empty sample is its smallest value and the
/// 1-quantile its largest, whatever denominator `b` the probability has.
pub proof fn lemma_quantile_extremes(v: Seq<i32>, b: int)
    requires
        v.len() > 0,
        1 <= b,
    ensures
        quantile_of(order_stats(v), 0, b).1 == 1,
        is_min(v, quantile_of(order_stats(v), 0, b).0),
        quantile_of(order_stats(v), b, b).1 == 1,
        is_max(v, quantile_of(order_stats(v), b, b).0),
{
    lemma_order_stats(v);
    let s = order_stats(v);
    let n = v.len() as int;
    let hn = b * (3 * n + 1) - 2 * b;
    assert(hn == (n - 1) * (3 * b) + 2 * b) by (nonlinear_arith)
        requires
            hn == b * (3 * n + 1) - 2 * b,
    ;
    vstd::arithmetic::div_mod::lemma_fundamental_div_mod_converse(hn, 3 * b, n - 1, 2 * b);
    assert(0 * (3 * n + 1) - 2 * b < 0);
    let i0 = choose|i: int| 0 <= i < v.len() && v[i] == s[0];
    let i1 = choose|i: int| 0 <= i < v.len() && v[i] == s[n - 1];
    assert(v[i0] == s[0] as int);
    assert(v[i1] == s[n - 1] as int);
}

/// `w` is the sample `v` with `k` added to every value.
pub open spec fn shifted(v: Seq<i32>, k: int, w: Seq<i32>) -> bool {
    &&& w.len() == v.len()
    &&& forall|i: int| 0 <= i < v.len() ==> #[trigger] w[i] == v[i] + k
}

proof fn lemma_sum_shift(v: Seq<i32>, k: int, w: Seq<i32>)
    requires
        shifted(v, k, w),
    ensures
        sum(w) == sum(v) + v.len() * k,
    decreases v.len(),
{
    if v.len() > 0 {
        let n = v.len() as int;
        assert(shifted(v.drop_last(), k, w.drop_last()));
        lemma_sum_shift(v.drop_last(), k, w.drop_last());
        assert(w.last() == v.last() + k);
        assert((n - 1) * k + k == n * k) by (nonlinear_arith);
    }
}

proof fn lemma_sq_dev_shift(v: Seq<i32>, k: int, w: Seq<i32>, cn: int, cd: int)
    requires
        shifted(v, k, w),
    ensures
        sq_dev_sum(w, cn + cd * k, cd) == sq_dev_sum(v, cn, cd),
    decreases v.len(),
{
    if v.len() > 0 {
        assert(shifted(v.drop_last(), k, w.drop_last()));
        lemma_sq_dev_shift(v.drop_last(), k, w.drop_last(), cn, cd);
        let x = v.last() as int;
        assert(w.last() == x + k);
        assert(cd * (x + k) - (cn + cd * k) == cd * x - cn) by (nonlinear_arith);
    }
}

/// Translating a sample by a constant leaves its variance (about the mean)
/// unchanged.
pub proof fn lemma_variance_translation(v: Seq<i32>, k: int, w: Seq<i32>)
    requires
        shifted(v, k, w),
    ensures
        variance_of(w, None) == variance_of(v, None),
{
    lemma_sum_shift(v, k, w);
    lemma_sq_dev_shift(v, k, w, sum(v), v.len() as int);
}

/// A sum of squared deviations is never negative, and is positive where one
/// value differs from the center.
pub proof fn lemma_sq_dev_sign(v: Seq<i32>, cn: int, cd: int)
    ensures
        sq_dev_sum(v, cn, cd) >= 0,
        (exists|i: int| 0 <= i < v.len() && cd * v[i] != cn) ==> sq_dev_sum(v, cn, cd) > 0,
    decreases v.len(),
{
    if v.len() > 0 {
        let u = v.drop_last();
        lemma_sq_dev_sign(u, cn, cd);
        let d = cd * v.last() - cn;
        assert(d * d >= 0) by (nonlinear_arith);
        if d != 0 {
            assert(d * d > 0) by (nonlinear_arith)
                requires
                    d != 0,
            ;
        }
        if exists|i: int| 0 <= i < v.len() && cd * v[i] != cn {
            let i = choose|i: int| 0 <= i < v.len() && cd * v[i] != cn;
            if i < v.len() - 1 {
                assert(u[i] == v[i]);
            }
        }
    }
}

} // verus!
