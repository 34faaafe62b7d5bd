//! Bandwidth selection by Silverman's rule of thumb.
use vstd::prelude::*;
use vstd::relations::sorted_by;
use crate::order::{ascending, order_stats, lemma_order_stats};
use crate::ratio::{Ratio, Root};
use crate::stats::{
    lemma_sq_dev_sign, sum,
    quantile, quantile_of, sample_ok, standard_deviation, variance_of, StatsError,
    lemma_square_bound, DENOM_BOUND, MAX_SAMPLE_LEN, SQ_DEV_BOUND, VALUE_BOUND,
};

verus! {

/// `1.34^2 = 4489 / 2500`: the interquartile range is divided by `1.34`.
pub const IQR_SCALE_SQ_NUMER: i128 = 4489;

/// See `IQR_SCALE_SQ_NUMER`.
pub const IQR_SCALE_SQ_DENOM: i128 = 2500;

/// A bandwidth chosen by Silverman's rule, `0.9 * spread * n^(-1/5)`, held
/// exactly: the spread by its square, and the sample size `n`.
#[derive(Clone, Copy, Debug)]
pub struct Bandwidth {
    pub spread: Root,
    pub n: usize,
}

impl Bandwidth {
    /// Whether the bandwidth is zero, which no kernel can take as its scale.
    pub fn is_degenerate(&self) -> (r: bool)
        ensures
            r == (self.spread.square.numer == 0),
    {
        self.spread.square.numer == 0
    }
}

/// Twelve times the interquartile range: the 3/4-quantile less the
/// 1/4-quantile.
pub open spec fn iqr_twelfths(v: Seq<i32>) -> int {
    over(quantile_of(order_stats(v), 3, 4), 12) - over(quantile_of(order_stats(v), 1, 4), 12)
}

/// `(IQR / 1.34)^2` as a pair `(numer, denom)`.
pub open spec fn scaled_iqr_sq(v: Seq<i32>) -> (int, int) {
    let i = iqr_twelfths(v);
    (i * i * IQR_SCALE_SQ_DENOM, 144 * IQR_SCALE_SQ_NUMER)
}

/// The square of Silverman's spread, `min(sd, IQR / 1.34)^2`, as a pair
/// `(numer, denom)`: the smaller of the variance and `(IQR / 1.34)^2`.
pub open spec fn spread_sq_of(v: Seq<i32>) -> (int, int) {
    let var = variance_of(v, None);
    let iq = scaled_iqr_sq(v);
    if var.0 * iq.1 <= iq.0 * var.1 {
        var
    } else {
        iq
    }
}

/// A quantile of a sorted sample lies between its first and last values.
proof fn lemma_quantile_range(s: Seq<i32>, a: int, b: int)
    requires
        s.len() > 0,
        sorted_by(s, ascending()),
        0 <= a <= b,
        1 <= b,
    ensures
        quantile_of(s, a, b).1 == 1 || quantile_of(s, a, b).1 == 3 * b,
        -VALUE_BOUND * quantile_of(s, a, b).1 <= quantile_of(s, a, b).0
            <= VALUE_BOUND * quantile_of(s, a, b).1,
{
    let n = s.len() as int;
    let d = 3 * b;
    let hn = a * (3 * n + 1) - 2 * b;
    if hn >= 0 && hn / d < n - 1 {
        let j = hn / d;
        let g = hn % d;
        assert(0 <= j) by (nonlinear_arith)
            requires
                hn >= 0,
                d > 0,
                j == hn / d,
        ;
        assert(ascending()(s[j], s[j + 1]));
        let lo = s[j] as int;
        let hi = s[j + 1] as int;
        assert(d * lo <= d * lo + g * (hi - lo) <= d * hi) by (nonlinear_arith)
            requires
                0 <= g < d,
                lo <= hi,
        ;
        assert(-VALUE_BOUND * d <= d * lo && d * hi <= VALUE_BOUND * d) by (nonlinear_arith)
            requires
                d > 0,
                -VALUE_BOUND <= lo,
                hi <= VALUE_BOUND,
        ;
    }
}

/// A quantile value `(numer, denom)` with denominator 1 or `d`, written over
/// the denominator `d`.
pub open spec fn over(q: (int, int), d: int) -> int {
    if q.1 == 1 {
        d * q.0
    } else {
        q.0
    }
}

/// The interpolated value at position `hn / d` of the sorted sample `s`,
/// scaled by `d`, for a position inside the sample.
proof fn lemma_interior_bounds(s: Seq<i32>, hn: int, d: int)
    requires
        sorted_by(s, ascending()),
        d > 0,
        hn >= 0,
        hn / d < s.len() - 1,
    ensures
        0 <= hn / d,
        d * s[hn / d] <= d * s[hn / d] + (hn % d) * (s[hn / d + 1] - s[hn / d]) <= d * s[hn / d
            + 1],
        d * s[0] <= d * s[hn / d],
        d * s[hn / d + 1] <= d * s[s.len() - 1],
{
    let j = hn / d;
    let g = hn % d;
    assert(0 <= j) by (nonlinear_arith)
        requires
            hn >= 0,
            d > 0,
            j == hn / d,
    ;
    assert(0 <= g < d);
    assert(ascending()(s[j], s[j + 1]));
    let lo = s[j] as int;
    let hi = s[j + 1] as int;
    assert(d * lo <= d * lo + g * (hi - lo) <= d * hi) by (nonlinear_arith)
        requires
            0 <= g < d,
            lo <= hi,
    ;
    if j > 0 {
        assert(ascending()(s[0], s[j]));
    }
    if j + 1 < s.len() - 1 {
        assert(ascending()(s[j + 1], s[s.len() - 1]));
    }
    let first = s[0] as int;
    let last = s[s.len() - 1] as int;
    assert(d * first <= d * lo) by (nonlinear_arith)
        requires
            first <= lo,
            d > 0,
    ;
    assert(d * hi <= d * last) by (nonlinear_arith)
        requires
            hi <= last,
            d > 0,
    ;
}

/// The quantile of a sorted sample does not decrease as the probability
/// grows (for probabilities over one denominator `b`).
pub proof fn lemma_quantile_monotone(s: Seq<i32>, a1: int, a2: int, b: int)
    requires
        s.len() > 0,
        sorted_by(s, ascending()),
        0 <= a1 <= a2 <= b,
        1 <= b,
    ensures
        over(quantile_of(s, a1, b), 3 * b) <= over(quantile_of(s, a2, b), 3 * b),
{
    let n = s.len() as int;
    let d = 3 * b;
    let h1 = a1 * (3 * n + 1) - 2 * b;
    let h2 = a2 * (3 * n + 1) - 2 * b;
    assert(h1 <= h2) by (nonlinear_arith)
        requires
            a1 <= a2,
            n >= 1,
            h1 == a1 * (3 * n + 1) - 2 * b,
            h2 == a2 * (3 * n + 1) - 2 * b,
    ;
    let first = s[0] as int;
    let last = s[n - 1] as int;
    if n > 1 {
        assert(ascending()(s[0], s[n - 1]));
    }
    assert(d * first <= d * last) by (nonlinear_arith)
        requires
            first <= last,
            d > 0,
    ;
    if h1 >= 0 && h1 / d < n - 1 {
        lemma_interior_bounds(s, h1, d);
    }
    if h2 >= 0 && h2 / d < n - 1 {
        lemma_interior_bounds(s, h2, d);
    }
    if h1 >= 0 && h2 >= 0 {
        vstd::arithmetic::div_mod::lemma_div_is_ordered(h1, h2, d);
    }
    if h1 >= 0 && h1 / d < n - 1 && h2 / d < n - 1 {
        let j1 = h1 / d;
        let j2 = h2 / d;
        if j1 == j2 {
            vstd::arithmetic::div_mod::lemma_fundamental_div_mod(h1, d);
            vstd::arithmetic::div_mod::lemma_fundamental_div_mod(h2, d);
            assert(h1 % d <= h2 % d);
            let lo = s[j1] as int;
            let hi = s[j1 + 1] as int;
            let g1 = h1 % d;
            let g2 = h2 % d;
            assert(ascending()(s[j1], s[j1 + 1]));
            assert(g1 * (hi - lo) <= g2 * (hi - lo)) by (nonlinear_arith)
                requires
                    g1 <= g2,
                    lo <= hi,
            ;
        } else {
            if j1 + 1 < j2 {
                assert(ascending()(s[j1 + 1], s[j2]));
            }
            let m = s[j1 + 1] as int;
            let k = s[j2] as int;
            assert(d * m <= d * k) by (nonlinear_arith)
                requires
                    m <= k,
                    d > 0,
            ;
        }
    }
}

/// The interquartile range is never negative.
pub proof fn lemma_iqr_non_negative(v: Seq<i32>)
    requires
        v.len() > 0,
    ensures
        iqr_twelfths(v) >= 0,
{
    lemma_order_stats(v);
    lemma_quantile_monotone(order_stats(v), 1, 3, 4);
}

/// Silverman's rule of thumb for the bandwidth of a kernel density
/// estimate: `0.9 * min(sd, IQR / 1.34) * n^(-1/5)`.
pub fn silverman_bandwith(v: &[i32]) -> (r: Result<Bandwidth, StatsError>)
    requires
        sample_ok(v@),
    ensures
        match r {
            Ok(bw) => v@.len() >= 2 && bw.n == v@.len() && bw.spread.square.wf()
                && bw.spread.square.pair() == spread_sq_of(v@) && iqr_twelfths(v@) >= 0,
            Err(e) => v@.len() < 2 && e == StatsError::TooFewPoints,
        },
{
    let sd = match standard_deviation(v, None) {
        Ok(sd) => sd,
        Err(e) => return Err(e),
    };
    let var = sd.square;
    proof {
        lemma_order_stats(v@);
        lemma_quantile_range(order_stats(v@), 3, 4);
        lemma_quantile_range(order_stats(v@), 1, 4);
        lemma_iqr_non_negative(v@);
    }
    let upper = match quantile(v, Ratio { numer: 3, denom: 4 }) {
        Ok(q) => q,
        Err(e) => return Err(e),
    };
    let lower = match quantile(v, Ratio { numer: 1, denom: 4 }) {
        Ok(q) => q,
        Err(e) => return Err(e),
    };
    let up12: i128 = if upper.denom == 1 { 12 * upper.numer } else { upper.numer };
    let lo12: i128 = if lower.denom == 1 { 12 * lower.numer } else { lower.numer };
    let iqr: i128 = up12 - lo12;
    assert(-24 * VALUE_BOUND <= iqr <= 24 * VALUE_BOUND);
    proof {
        lemma_square_bound(iqr as int, 24 * VALUE_BOUND);
    }
    assert(24 * VALUE_BOUND * (24 * VALUE_BOUND) == 576 * VALUE_BOUND * VALUE_BOUND);
    let iq_numer: i128 = iqr * iqr * IQR_SCALE_SQ_DENOM;
    let iq_denom: i128 = 144 * IQR_SCALE_SQ_NUMER;
    assert(var.numer * iq_denom <= SQ_DEV_BOUND * MAX_SAMPLE_LEN * 646416) by (nonlinear_arith)
        requires
            0 <= var.numer <= SQ_DEV_BOUND * MAX_SAMPLE_LEN,
            iq_denom == 646416,
    ;
    assert(iq_numer * var.denom <= 576 * VALUE_BOUND * VALUE_BOUND * 2500 * DENOM_BOUND)
        by (nonlinear_arith)
        requires
            0 <= iq_numer <= 576 * VALUE_BOUND * VALUE_BOUND * 2500,
            0 < var.denom <= DENOM_BOUND,
    ;
    let spread = if var.numer * iq_denom <= iq_numer * var.denom {
        var
    } else {
        Ratio { numer: iq_numer, denom: iq_denom }
    };
    Ok(Bandwidth { spread: Root { square: spread }, n: v.len() })
}

/// The sample holds two different values.
pub open spec fn non_constant(v: Seq<i32>) -> bool {
    exists|i: int, j: int| 0 <= i < v.len() && 0 <= j < v.len() && v[i] != v[j]
}

/// Silverman's spread, hence the bandwidth, is positive for a sample that
/// holds two different values and whose interquartile range is not zero.
pub proof fn lemma_bandwidth_positive(v: Seq<i32>)
    requires
        v.len() >= 2,
        non_constant(v),
        iqr_twelfths(v) != 0,
    ensures
        spread_sq_of(v).0 > 0,
        spread_sq_of(v).1 > 0,
{
    let n = v.len() as int;
    let s = sum(v);
    let (i, j) = choose|i: int, j: int| 0 <= i < v.len() && 0 <= j < v.len() && v[i] != v[j];
    if n * v[i] == s && n * v[j] == s {
        assert(v[i] == v[j]) by (nonlinear_arith)
            requires
                n * v[i] == n * v[j],
                n > 0,
        ;
    }
    lemma_sq_dev_sign(v, s, n);
    assert(n * n * (n - 1) > 0) by (nonlinear_arith)
        requires
            n >= 2,
    ;
    let q = iqr_twelfths(v);
    assert(q * q * IQR_SCALE_SQ_DENOM > 0) by (nonlinear_arith)
        requires
            q != 0,
    ;
}

} // verus!
