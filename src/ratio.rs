use vstd::prelude::*;

verus! {

/// An exact rational number `numer / denom`. Well-formed values have a
/// positive denominator; no reduction to lowest terms is made.
#[derive(Clone, Copy, Debug)]
pub struct Ratio {
    pub numer: i128,
    pub denom: i128,
}

impl Ratio {
    pub open spec fn wf(self) -> bool {
        self.denom > 0
    }

    /// The pair `(numer, denom)` as mathematical integers.
    pub open spec fn pair(self) -> (int, int) {
        (self.numer as int, self.denom as int)
    }

    pub fn new(numer: i128, denom: i128) -> (r: Ratio)
        requires
            denom > 0,
        ensures
            r.numer == numer,
            r.denom == denom,
            r.wf(),
    {
        Ratio { numer, denom }
    }
}


/// The non-negative square root of `square`, held exactly through its
/// square (a square root of a rational number is irrational in general).
#[derive(Clone, Copy, Debug)]
pub struct Root {
    pub square: Ratio,
}


/// Every ratio of `s` is well formed.
pub open spec fn all_wf(s: Seq<Ratio>) -> bool {
    forall|i: int| 0 <= i < s.len() ==> (#[trigger] s[i]).wf()
}

/// The exact sum of the ratios of `s`, as a pair `(numer, denom)` built by
/// cross-multiplication.
pub open spec fn sum_pair(s: Seq<Ratio>) -> (int, int)
    decreases s.len(),
{
    if s.len() == 0 {
        (0, 1)
    } else {
        let (n, d) = sum_pair(s.drop_last());
        let p = s.last();
        (n * p.denom + p.numer * d, d * p.denom)
    }
}

/// The ratios of `s` sum to exactly one.
pub open spec fn sums_to_one(s: Seq<Ratio>) -> bool {
    sum_pair(s).0 == sum_pair(s).1
}

pub proof fn lemma_sum_pair_denom(s: Seq<Ratio>)
    requires
        all_wf(s),
    ensures
        sum_pair(s).1 > 0,
    decreases s.len(),
{
    if s.len() > 0 {
        assert(all_wf(s.drop_last()));
        lemma_sum_pair_denom(s.drop_last());
        let d = sum_pair(s.drop_last()).1;
        let pd = s.last().denom as int;
        assert(s.last().wf());
        assert(d * pd > 0) by (nonlinear_arith)
            requires
                d > 0,
                pd > 0,
        ;
    }
}

proof fn lemma_cross_add(an: int, ad: int, nn: int, dd: int, pn: int, pd: int)
    requires
        an * dd == nn * ad,
    ensures
        (an * pd + pn * ad) * (dd * pd) == (nn * pd + pn * dd) * (ad * pd),
{
    vstd::arithmetic::mul::lemma_mul_is_distributive_add_other_way(dd * pd, an * pd, pn * ad);
    vstd::arithmetic::mul::lemma_mul_is_distributive_add_other_way(ad * pd, nn * pd, pn * dd);
    assert((an * pd) * (dd * pd) == (an * dd) * (pd * pd)) by (nonlinear_arith);
    assert((nn * pd) * (ad * pd) == (nn * ad) * (pd * pd)) by (nonlinear_arith);
    assert((pn * ad) * (dd * pd) == (pn * dd) * (ad * pd)) by (nonlinear_arith);
}

/// `x` fits in an `i128`.
pub open spec fn fits(x: int) -> bool {
    i128::MIN <= x <= i128::MAX
}

/// One step of the running sum: `acc + p`, adding numerators where the
/// denominators agree and cross-multiplying otherwise, or `None` where a
/// product or a sum leaves `i128`.
pub open spec fn add_step(acc: (int, int), p: Ratio) -> Option<(int, int)> {
    if acc.1 == p.denom {
        if fits(acc.0 + p.numer) {
            Some((acc.0 + p.numer, acc.1))
        } else {
            None
        }
    } else {
        let a = acc.0 * p.denom;
        let b = p.numer * acc.1;
        let d = acc.1 * p.denom;
        if fits(a) && fits(b) && fits(a + b) && fits(d) {
            Some((a + b, d))
        } else {
            None
        }
    }
}

/// The running sum of `s` in order, from `0 / 1`, as `checked_sum` computes
/// it; `None` where some step leaves `i128`.
pub open spec fn running_sum(s: Seq<Ratio>) -> Option<(int, int)>
    decreases s.len(),
{
    if s.len() == 0 {
        Some((0, 1))
    } else {
        match running_sum(s.drop_last()) {
            Some(acc) => add_step(acc, s.last()),
            None => None,
        }
    }
}

/// The ratios of `s` share one denominator of at most `u32::MAX`, and each
/// lies in `[-1, 1]`; uniform priors `1 / n` are of this kind.
pub open spec fn shared_denominator(s: Seq<Ratio>) -> bool {
    forall|i: int|
        0 <= i < s.len() ==> (#[trigger] s[i]).denom == s[0].denom && -s[i].denom <= s[i].numer
            <= s[i].denom <= 0xFFFF_FFFF
}

proof fn lemma_overflow_persists(s: Seq<Ratio>, k: int)
    requires
        0 <= k <= s.len(),
        running_sum(s.subrange(0, k)) is None,
    ensures
        running_sum(s) is None,
    decreases s.len() - k,
{
    if k == s.len() {
        assert(s.subrange(0, k) =~= s);
    } else {
        assert(s.subrange(0, k + 1).drop_last() =~= s.subrange(0, k));
        lemma_overflow_persists(s, k + 1);
    }
}

/// The exact sum of `s`, or `None` exactly where the running sum leaves
/// `i128`. Terms that share the running denominator are added without
/// growing it, so ratios over one shared denominator always fit.
pub fn checked_sum(s: &[Ratio]) -> (r: Option<Ratio>)
    requires
        all_wf(s@),
    ensures
        r is Some <==> running_sum(s@) is Some,
        r matches Some(t) ==> t.wf() && running_sum(s@) == Some(t.pair()) && t.numer * sum_pair(
            s@,
        ).1 == sum_pair(s@).0 * t.denom,
        shared_denominator(s@) ==> r is Some,
{
    let mut acc = Ratio { numer: 0, denom: 1 };
    let mut i: usize = 0;
    while i < s.len()
        invariant
            i <= s@.len(),
            all_wf(s@),
            acc.wf(),
            running_sum(s@.subrange(0, i as int)) == Some(acc.pair()),
            acc.numer * sum_pair(s@.subrange(0, i as int)).1 == sum_pair(
                s@.subrange(0, i as int),
            ).0 * acc.denom,
            shared_denominator(s@) && i == 0 ==> acc.numer == 0 && acc.denom == 1,
            shared_denominator(s@) && i > 0 ==> acc.denom == s@[0].denom && -i * acc.denom
                <= acc.numer <= i * acc.denom,
        decreases s.len() - i,
    {
        let p = s[i];
        let ghost pre = s@.subrange(0, i as int);
        let ghost next_prefix = s@.subrange(0, i + 1);
        assert(next_prefix.drop_last() =~= pre);
        assert(next_prefix.last() == p);
        assert(running_sum(next_prefix) == add_step(acc.pair(), p));
        proof {
            if shared_denominator(s@) {
                assert(s@[i as int].denom == s@[0].denom);
                assert(-p.denom <= p.numer <= p.denom <= 0xFFFF_FFFF);
                if i > 0 {
                    assert(-(i + 1) * acc.denom <= acc.numer + p.numer <= (i + 1) * acc.denom)
                        by (nonlinear_arith)
                        requires
                            -i * acc.denom <= acc.numer <= i * acc.denom,
                            -acc.denom <= p.numer <= acc.denom,
                    ;
                    assert(-(i + 1) * acc.denom == -((i + 1) * acc.denom)) by (nonlinear_arith);
                    assert((i + 1) * acc.denom <= 0x1_0000_0000_0000_0000 * 0xFFFF_FFFF)
                        by (nonlinear_arith)
                        requires
                            i < 0x1_0000_0000_0000_0000,
                            0 < acc.denom <= 0xFFFF_FFFF,
                    ;
                } else {
                    assert(acc.numer == 0 && acc.denom == 1);
                    assert(acc.denom * p.denom == p.denom && p.numer * acc.denom == p.numer
                        && acc.numer * p.denom == 0) by (nonlinear_arith)
                        requires
                            acc.numer == 0,
                            acc.denom == 1,
                    ;
                }
            }
        }
        let ghost nn = sum_pair(pre).0;
        let ghost dd = sum_pair(pre).1;
        assert(p.wf());
        let next = if acc.denom == p.denom {
            match acc.numer.checked_add(p.numer) {
                Some(n) => Ratio { numer: n, denom: acc.denom },
                None => {
                    proof {
                        lemma_overflow_persists(s@, i + 1);
                    }
                    return None;
                },
            }
        } else {
            let a = match acc.numer.checked_mul(p.denom) {
                Some(a) => a,
                None => {
                    proof {
                        lemma_overflow_persists(s@, i + 1);
                    }
                    return None;
                },
            };
            let b = match p.numer.checked_mul(acc.denom) {
                Some(b) => b,
                None => {
                    proof {
                        lemma_overflow_persists(s@, i + 1);
                    }
                    return None;
                },
            };
            let n = match a.checked_add(b) {
                Some(n) => n,
                None => {
                    proof {
                        lemma_overflow_persists(s@, i + 1);
                    }
                    return None;
                },
            };
            let d = match acc.denom.checked_mul(p.denom) {
                Some(d) => d,
                None => {
                    proof {
                        lemma_overflow_persists(s@, i + 1);
                    }
                    return None;
                },
            };
            assert(acc.denom * p.denom > 0) by (nonlinear_arith)
                requires
                    acc.denom > 0,
                    p.denom > 0,
            ;
            Ratio { numer: n, denom: d }
        };
        proof {
            let an = acc.numer as int;
            let ad = acc.denom as int;
            let pn = p.numer as int;
            let pd = p.denom as int;
            if ad == pd {
                assert((an + pn) * (dd * pd) == (nn * pd + pn * dd) * ad) by (nonlinear_arith)
                    requires
                        an * dd == nn * ad,
                        ad == pd,
                ;
            } else {
                lemma_cross_add(an, ad, nn, dd, pn, pd);
            }
            if shared_denominator(s@) && i > 0 {
                assert(-(i + 1) * next.denom <= next.numer <= (i + 1) * next.denom);
            }
        }
        acc = next;
        i = i + 1;
    }
    assert(s@.subrange(0, i as int) =~= s@);
    Some(acc)
}

} // verus!
