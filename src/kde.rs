//! A kernel density estimate: a finite mixture of kernels with prior weights.
use vstd::prelude::*;
use crate::ratio::{
    add_step, all_wf, checked_sum, fits, lemma_sum_pair_denom, running_sum, shared_denominator,
    sum_pair, sums_to_one, Ratio,
};

verus! {

/// Why a mixture could not be built.
#[derive(Clone, Copy, Debug, PartialEq, Eq, Structural)]
pub enum KdeError {
    /// The priors and the kernels differ in number.
    LengthMismatch,
    /// A prior is negative.
    NegativePrior,
    /// The priors do not sum to one.
    PriorsNotNormalised,
    /// The exact sum of the priors does not fit in 128 bits.
    PriorsTooFine,
}

/// No prior of `s` is negative.
pub open spec fn non_negative(s: Seq<Ratio>) -> bool {
    forall|i: int| 0 <= i < s.len() ==> (#[trigger] s[i]).numer >= 0
}

/// Priors of a mixture: well formed, non-negative, summing to exactly one.
pub open spec fn priors_valid(s: Seq<Ratio>) -> bool {
    &&& all_wf(s)
    &&& non_negative(s)
    &&& sums_to_one(s)
}

/// The exact mixture `sum_i p[i] * d[i]` as a pair `(numer, denom)`, built
/// term by term in component order.
pub open spec fn mixture_pair(p: Seq<Ratio>, d: Seq<Ratio>) -> (int, int)
    decreases p.len(),
{
    if p.len() == 0 || d.len() == 0 {
        (0, 1)
    } else {
        let (n, e) = mixture_pair(p.drop_last(), d.drop_last());
        let a = p.last();
        let b = d.last();
        (n * (a.denom * b.denom) + (a.numer * b.numer) * e, e * (a.denom * b.denom))
    }
}

/// The terms `p[i] * d[i]`, unreduced.
pub open spec fn products(p: Seq<Ratio>, d: Seq<Ratio>) -> Seq<Ratio> {
    Seq::new(
        p.len(),
        |i: int|
            Ratio {
                numer: (p[i].numer * d[i].numer) as i128,
                denom: (p[i].denom * d[i].denom) as i128,
            },
    )
}

/// Every term `p[i] * d[i]` and every running sum of them fits in `i128`:
/// then the mixture is computed.
pub open spec fn mixture_fits(p: Seq<Ratio>, d: Seq<Ratio>) -> bool {
    &&& forall|i: int|
        0 <= i < p.len() ==> fits(#[trigger] p[i].numer * d[i].numer) && fits(
            p[i].denom * d[i].denom,
        )
    &&& running_sum(products(p, d)) is Some
}

/// `t` is the term `a * b`, unreduced.
pub open spec fn is_product(t: Ratio, a: Ratio, b: Ratio) -> bool {
    t.numer == a.numer * b.numer && t.denom == a.denom * b.denom
}

proof fn lemma_terms_sum(t: Seq<Ratio>, p: Seq<Ratio>, d: Seq<Ratio>)
    requires
        t.len() == p.len() == d.len(),
        forall|i: int| 0 <= i < t.len() ==> is_product(#[trigger] t[i], p[i], d[i]),
    ensures
        sum_pair(t) == mixture_pair(p, d),
    decreases t.len(),
{
    if t.len() > 0 {
        let n = t.len() - 1;
        assert(is_product(t[n], p[n], d[n]));
        lemma_terms_sum(t.drop_last(), p.drop_last(), d.drop_last());
    }
}

/// With non-negative priors and densities the mixture is non-negative.
pub proof fn lemma_mixture_non_negative(p: Seq<Ratio>, d: Seq<Ratio>)
    requires
        p.len() == d.len(),
        all_wf(p),
        all_wf(d),
        non_negative(p),
        non_negative(d),
    ensures
        mixture_pair(p, d).0 >= 0,
        mixture_pair(p, d).1 > 0,
    decreases p.len(),
{
    if p.len() > 0 {
        let n = p.len() - 1;
        assert(p[n].wf() && d[n].wf() && p[n].numer >= 0 && d[n].numer >= 0);
        assert(all_wf(p.drop_last()) && all_wf(d.drop_last()));
        assert(non_negative(p.drop_last()) && non_negative(d.drop_last()));
        lemma_mixture_non_negative(p.drop_last(), d.drop_last());
        let (m, e) = mixture_pair(p.drop_last(), d.drop_last());
        let a = p.last();
        let b = d.last();
        assert(m * (a.denom * b.denom) + (a.numer * b.numer) * e >= 0 && e * (a.denom
            * b.denom) > 0) by (nonlinear_arith)
            requires
                m >= 0,
                e > 0,
                a.denom > 0,
                b.denom > 0,
                a.numer >= 0,
                b.numer >= 0,
        ;
    }
}

proof fn lemma_step_identities(
    m: int,
    e: int,
    s: int,
    f: int,
    an: int,
    ad: int,
    bn: int,
    bd: int,
    ln: int,
    ld: int,
)
    ensures
        (m * (ad * bd) + (an * bn) * e) * (f * ad) * ld == m * f * ld * ((ad * bd) * ad) + (an
            * e * f * ad) * (bn * ld),
        ln * (s * ad + an * f) * (e * (ad * bd)) == ln * s * e * ((ad * bd) * ad) + (an * e * f
            * ad) * (ln * bd),
{
    let k = ad * bd;
    let x = (an * bn) * e;
    let z = (f * ad) * ld;
    vstd::arithmetic::mul::lemma_mul_is_associative(m * k + x, f * ad, ld);
    vstd::arithmetic::mul::lemma_mul_is_distributive_add_other_way(z, m * k, x);
    assert((m * k) * z == m * f * ld * (k * ad)) by (nonlinear_arith)
        requires
            z == (f * ad) * ld,
    ;
    assert(x * z == (an * e * f * ad) * (bn * ld)) by (nonlinear_arith)
        requires
            x == (an * bn) * e,
            z == (f * ad) * ld,
    ;
    vstd::arithmetic::mul::lemma_mul_is_distributive_add(ln, s * ad, an * f);
    vstd::arithmetic::mul::lemma_mul_is_distributive_add_other_way(
        e * k,
        ln * (s * ad),
        ln * (an * f),
    );
    assert((ln * (s * ad)) * (e * k) == ln * s * e * (k * ad)) by (nonlinear_arith);
    let u = an * f;
    let v = ad * bd;
    let q = an * f * ad;
    assert((ln * u) * (e * v) == ln * e * (u * v)) by (nonlinear_arith);
    assert(u * v == q * bd) by (nonlinear_arith)
        requires
            u == an * f,
            v == ad * bd,
            q == an * f * ad,
    ;
    assert(an * e * f * ad == q * e) by (nonlinear_arith)
        requires
            q == an * f * ad,
    ;
    assert((q * e) * (ln * bd) == ln * e * (q * bd)) by (nonlinear_arith);
}

proof fn lemma_lower_step(
    m: int,
    e: int,
    s: int,
    f: int,
    an: int,
    ad: int,
    bn: int,
    bd: int,
    ln: int,
    ld: int,
)
    requires
        m * f * ld >= ln * s * e,
        an >= 0,
        ad > 0,
        bd > 0,
        e > 0,
        f > 0,
        ln * bd <= bn * ld,
    ensures
        (m * (ad * bd) + (an * bn) * e) * (f * ad) * ld >= ln * (s * ad + an * f) * (e * (ad
            * bd)),
{
    let k = ad * bd;
    let w = an * e * f * ad;
    assert(k * ad > 0) by (nonlinear_arith)
        requires
            ad > 0,
            bd > 0,
            k == ad * bd,
    ;
    assert(w >= 0) by (nonlinear_arith)
        requires
            an >= 0,
            ad > 0,
            e > 0,
            f > 0,
            w == an * e * f * ad,
    ;
    assert(m * f * ld * (k * ad) >= ln * s * e * (k * ad)) by (nonlinear_arith)
        requires
            m * f * ld >= ln * s * e,
            k * ad > 0,
    ;
    assert(w * (bn * ld) >= w * (ln * bd)) by (nonlinear_arith)
        requires
            w >= 0,
            ln * bd <= bn * ld,
    ;
    lemma_step_identities(m, e, s, f, an, ad, bn, bd, ln, ld);
}

/// `(ln / ld) * sum(p) <= mixture(p, d)` for densities at least `ln / ld`.
proof fn lemma_mixture_above(p: Seq<Ratio>, d: Seq<Ratio>, ln: int, ld: int)
    requires
        p.len() == d.len(),
        all_wf(p),
        all_wf(d),
        non_negative(p),
        ld > 0,
        forall|i: int| 0 <= i < d.len() ==> ln * (#[trigger] d[i]).denom <= d[i].numer * ld,
    ensures
        mixture_pair(p, d).0 * sum_pair(p).1 * ld >= ln * sum_pair(p).0 * mixture_pair(p, d).1,
        mixture_pair(p, d).1 > 0,
        sum_pair(p).1 > 0,
    decreases p.len(),
{
    if p.len() == 0 {
        assert(0 * 1 * ld >= ln * 0 * 1) by (nonlinear_arith);
    } else {
        let n = p.len() - 1;
        assert(p[n].wf() && d[n].wf() && p[n].numer >= 0);
        assert(ln * d[n].denom <= d[n].numer * ld);
        assert(all_wf(p.drop_last()) && all_wf(d.drop_last()) && non_negative(p.drop_last()));
        assert(forall|i: int|
            0 <= i < d.drop_last().len() ==> ln * (#[trigger] d.drop_last()[i]).denom
                <= d.drop_last()[i].numer * ld);
        lemma_mixture_above(p.drop_last(), d.drop_last(), ln, ld);
        let (m, e) = mixture_pair(p.drop_last(), d.drop_last());
        let (s, f) = sum_pair(p.drop_last());
        let a = p.last();
        let b = d.last();
        lemma_lower_step(
            m,
            e,
            s,
            f,
            a.numer as int,
            a.denom as int,
            b.numer as int,
            b.denom as int,
            ln,
            ld,
        );
        assert(e * (a.denom * b.denom) > 0 && f * a.denom > 0) by (nonlinear_arith)
            requires
                e > 0,
                f > 0,
                a.denom > 0,
                b.denom > 0,
        ;
    }
}

proof fn lemma_upper_step(
    m: int,
    e: int,
    s: int,
    f: int,
    an: int,
    ad: int,
    bn: int,
    bd: int,
    ln: int,
    ld: int,
)
    requires
        m * f * ld <= ln * s * e,
        an >= 0,
        ad > 0,
        bd > 0,
        e > 0,
        f > 0,
        bn * ld <= ln * bd,
    ensures
        (m * (ad * bd) + (an * bn) * e) * (f * ad) * ld <= ln * (s * ad + an * f) * (e * (ad
            * bd)),
{
    let k = ad * bd;
    let w = an * e * f * ad;
    assert(k * ad > 0) by (nonlinear_arith)
        requires
            ad > 0,
            bd > 0,
            k == ad * bd,
    ;
    assert(w >= 0) by (nonlinear_arith)
        requires
            an >= 0,
            ad > 0,
            e > 0,
            f > 0,
            w == an * e * f * ad,
    ;
    assert(m * f * ld * (k * ad) <= ln * s * e * (k * ad)) by (nonlinear_arith)
        requires
            m * f * ld <= ln * s * e,
            k * ad > 0,
    ;
    assert(w * (bn * ld) <= w * (ln * bd)) by (nonlinear_arith)
        requires
            w >= 0,
            bn * ld <= ln * bd,
    ;
    lemma_step_identities(m, e, s, f, an, ad, bn, bd, ln, ld);
}

/// `mixture(p, d) <= (ln / ld) * sum(p)` for densities at most `ln / ld`.
proof fn lemma_mixture_below(p: Seq<Ratio>, d: Seq<Ratio>, ln: int, ld: int)
    requires
        p.len() == d.len(),
        all_wf(p),
        all_wf(d),
        non_negative(p),
        ld > 0,
        forall|i: int| 0 <= i < d.len() ==> d[i].numer * ld <= ln * (#[trigger] d[i]).denom,
    ensures
        mixture_pair(p, d).0 * sum_pair(p).1 * ld <= ln * sum_pair(p).0 * mixture_pair(p, d).1,
        mixture_pair(p, d).1 > 0,
        sum_pair(p).1 > 0,
    decreases p.len(),
{
    if p.len() == 0 {
        assert(0 * 1 * ld <= ln * 0 * 1) by (nonlinear_arith);
    } else {
        let n = p.len() - 1;
        assert(p[n].wf() && d[n].wf() && p[n].numer >= 0);
        assert(d[n].numer * ld <= ln * d[n].denom);
        assert(all_wf(p.drop_last()) && all_wf(d.drop_last()) && non_negative(p.drop_last()));
        assert(forall|i: int|
            0 <= i < d.drop_last().len() ==> d.drop_last()[i].numer * ld <= ln * (
                #[trigger] d.drop_last()[i]).denom);
        lemma_mixture_below(p.drop_last(), d.drop_last(), ln, ld);
        let (m, e) = mixture_pair(p.drop_last(), d.drop_last());
        let (s, f) = sum_pair(p.drop_last());
        let a = p.last();
        let b = d.last();
        lemma_upper_step(
            m,
            e,
            s,
            f,
            a.numer as int,
            a.denom as int,
            b.numer as int,
            b.denom as int,
            ln,
            ld,
        );
        assert(e * (a.denom * b.denom) > 0 && f * a.denom > 0) by (nonlinear_arith)
            requires
                e > 0,
                f > 0,
                a.denom > 0,
                b.denom > 0,
        ;
    }
}

/// With valid priors the mixture is a convex combination: for densities
/// that all lie in `[ln / ld, hn / hd]`, so does the mixture.
pub proof fn lemma_mixture_between(p: Seq<Ratio>, d: Seq<Ratio>, ln: int, ld: int, hn: int, hd: int)
    requires
        p.len() == d.len(),
        priors_valid(p),
        all_wf(d),
        ld > 0,
        hd > 0,
        forall|i: int|
            0 <= i < d.len() ==> ln * (#[trigger] d[i]).denom <= d[i].numer * ld && d[i].numer
                * hd <= hn * d[i].denom,
    ensures
        ln * mixture_pair(p, d).1 <= mixture_pair(p, d).0 * ld,
        mixture_pair(p, d).0 * hd <= hn * mixture_pair(p, d).1,
{
    lemma_mixture_above(p, d, ln, ld);
    lemma_mixture_below(p, d, hn, hd);
    let (m, e) = mixture_pair(p, d);
    let f = sum_pair(p).1;
    assert(sum_pair(p).0 == f);
    assert(ln * e <= m * ld) by (nonlinear_arith)
        requires
            m * f * ld >= ln * f * e,
            f > 0,
    ;
    assert(m * hd <= hn * e) by (nonlinear_arith)
        requires
            m * f * hd <= hn * f * e,
            f > 0,
    ;
}

/// A mixture of one kernel with prior one is computed, and has exactly that
/// kernel's density.
pub proof fn lemma_single_component(d: Ratio)
    requires
        d.wf(),
    ensures
        mixture_fits(seq![Ratio { numer: 1, denom: 1 }], seq![d]),
        mixture_pair(seq![Ratio { numer: 1, denom: 1 }], seq![d]) == d.pair(),
{
    let t = products(seq![Ratio { numer: 1, denom: 1 }], seq![d]);
    assert(1 * d.numer == d.numer && 1 * d.denom == d.denom);
    assert(t[0].numer == d.numer && t[0].denom == d.denom);
    assert(t.drop_last() =~= Seq::<Ratio>::empty());
    assert(running_sum(t.drop_last()) == Some((0int, 1int)));
    assert(0 * d.denom == 0 && d.numer * 1 == d.numer && 1 * d.denom == d.denom);
    assert(add_step((0, 1), t[0]) is Some);
    let p = seq![Ratio { numer: 1, denom: 1 }];
    let q = seq![d];
    assert(p.drop_last() =~= Seq::<Ratio>::empty());
    assert(q.drop_last() =~= Seq::<Ratio>::empty());
    assert(mixture_pair(p.drop_last(), q.drop_last()) == (0int, 1int));
    assert(p.last().numer == 1 && p.last().denom == 1 && q.last() == d);
    assert(0 * (1 * d.denom) + (1 * d.numer) * 1 == d.numer);
}

/// A kernel density estimate: kernel `i` weighted by prior `i`. Its density
/// at `x` is the sum over `i` of `priors[i] * kernels[i].density(x)`.
pub struct KDE<K> {
    priors: Vec<Ratio>,
    kernels: Vec<K>,
}

impl<K> KDE<K> {
    /// The priors, in component order.
    pub closed spec fn prior_seq(&self) -> Seq<Ratio> {
        self.priors@
    }

    /// The kernels, in component order.
    pub closed spec fn kernel_seq(&self) -> Seq<K> {
        self.kernels@
    }

    /// One prior per kernel, and the priors are valid.
    pub open spec fn wf(&self) -> bool {
        &&& self.prior_seq().len() == self.kernel_seq().len()
        &&& priors_valid(self.prior_seq())
    }

    /// Builds the mixture of `kernels` weighted by `priors`, checking that
    /// there is one prior per kernel, that none is negative and that they sum
    /// to exactly one, in that order.
    pub fn new(priors: &[Ratio], kernels: Vec<K>) -> (r: Result<Self, KdeError>)
        requires
            all_wf(priors@),
        ensures
            r matches Ok(kde) ==> kde.wf() && kde.prior_seq() == priors@ && kde.kernel_seq()
                == kernels@,
            r matches Err(e) ==> (e == KdeError::LengthMismatch <==> priors@.len()
                != kernels@.len()),
            r matches Err(e) ==> (e == KdeError::NegativePrior <==> priors@.len()
                == kernels@.len() && !non_negative(priors@)),
            r matches Err(e) && e == KdeError::PriorsNotNormalised ==> priors@.len()
                == kernels@.len() && non_negative(priors@) && !sums_to_one(priors@),
            r matches Err(e) ==> (e == KdeError::PriorsTooFine <==> priors@.len()
                == kernels@.len() && non_negative(priors@) && running_sum(priors@) is None),
            r is Ok <==> priors@.len() == kernels@.len() && priors_valid(priors@) && running_sum(
                priors@,
            ) is Some,
            shared_denominator(priors@) ==> !(r matches Err(e) && e == KdeError::PriorsTooFine),
    {
        if priors.len() != kernels.len() {
            return Err(KdeError::LengthMismatch);
        }
        let mut i: usize = 0;
        while i < priors.len()
            invariant
                i <= priors@.len(),
                priors@.len() == kernels@.len(),
                forall|k: int| 0 <= k < i ==> (#[trigger] priors@[k]).numer >= 0,
            decreases priors.len() - i,
        {
            if priors[i].numer < 0 {
                assert(priors@[i as int].numer < 0);
                return Err(KdeError::NegativePrior);
            }
            i = i + 1;
        }
        let total = match checked_sum(priors) {
            Some(t) => t,
            None => return Err(KdeError::PriorsTooFine),
        };
        proof {
            lemma_sum_pair_denom(priors@);
            let (n, d) = sum_pair(priors@);
            let tn = total.numer as int;
            let td = total.denom as int;
            if tn == td {
                assert(n == d) by (nonlinear_arith)
                    requires
                        tn * d == n * td,
                        tn == td,
                        td > 0,
                ;
            }
            if n == d {
                assert(tn == td) by (nonlinear_arith)
                    requires
                        tn * d == n * td,
                        n == d,
                        d > 0,
                ;
            }
        }
        if total.numer != total.denom {
            return Err(KdeError::PriorsNotNormalised);
        }
        let mut copied: Vec<Ratio> = Vec::new();
        let mut j: usize = 0;
        while j < priors.len()
            invariant
                j <= priors@.len(),
                priors@.len() == kernels@.len(),
                copied@ == priors@.subrange(0, j as int),
            decreases priors.len() - j,
        {
            copied.push(priors[j]);
            j = j + 1;
        }
        assert(copied@ =~= priors@);
        Ok(KDE { priors: copied, kernels })
    }

    /// The mixture density at a point where kernel `i` has the exact density
    /// `densities[i]`: the sum of `priors[i] * densities[i]`, added in
    /// component order, or `None` where an intermediate value does not fit in
    /// 128 bits. The kernels' densities are evaluated by the caller.
    pub fn pdf(&self, densities: &[Ratio]) -> (r: Option<Ratio>)
        requires
            self.wf(),
            densities@.len() == self.prior_seq().len(),
            all_wf(densities@),
        ensures
            r matches Some(t) ==> t.wf() && t.numer * mixture_pair(self.prior_seq(), densities@).1
                == mixture_pair(self.prior_seq(), densities@).0 * t.denom,
            r matches Some(t) ==> (non_negative(densities@) ==> t.numer >= 0),
            r is Some <==> mixture_fits(self.prior_seq(), densities@),
            r matches Some(t) ==> running_sum(products(self.prior_seq(), densities@)) == Some(
                t.pair(),
            ),
    {
        let mut terms: Vec<Ratio> = Vec::new();
        let mut i: usize = 0;
        while i < densities.len()
            invariant
                self.wf(),
                densities@.len() == self.prior_seq().len() == self.priors@.len(),
                all_wf(densities@),
                i <= densities@.len(),
                terms@.len() == i,
                all_wf(terms@),
                forall|k: int|
                    0 <= k < i ==> is_product(
                        #[trigger] terms@[k],
                        self.prior_seq()[k],
                        densities@[k],
                    ),
                forall|k: int|
                    0 <= k < i ==> fits(#[trigger] self.prior_seq()[k].numer * densities@[k].numer)
                        && fits(self.prior_seq()[k].denom * densities@[k].denom),
            decreases densities.len() - i,
        {
            let a = self.priors[i];
            let b = densities[i];
            assert(a.wf() && b.wf());
            let n = match a.numer.checked_mul(b.numer) {
                Some(n) => n,
                None => {
                    assert(!fits(self.prior_seq()[i as int].numer * densities@[i as int].numer));
                    return None;
                },
            };
            let d = match a.denom.checked_mul(b.denom) {
                Some(d) => d,
                None => {
                    assert(!fits(self.prior_seq()[i as int].denom * densities@[i as int].denom));
                    return None;
                },
            };
            assert(a.denom * b.denom > 0) by (nonlinear_arith)
                requires
                    a.denom > 0,
                    b.denom > 0,
            ;
            terms.push(Ratio { numer: n, denom: d });
            i = i + 1;
        }
        proof {
            lemma_terms_sum(terms@, self.prior_seq(), densities@);
            assert(terms@ =~= products(self.prior_seq(), densities@));
        }
        let total = match checked_sum(terms.as_slice()) {
            Some(t) => t,
            None => return None,
        };
        proof {
            if non_negative(densities@) {
                lemma_mixture_non_negative(self.prior_seq(), densities@);
                let (m, e) = mixture_pair(self.prior_seq(), densities@);
                let tn = total.numer as int;
                let td = total.denom as int;
                assert(tn >= 0) by (nonlinear_arith)
                    requires
                        tn * e == m * td,
                        m >= 0,
                        e > 0,
                        td > 0,
                ;
            }
        }
        Some(total)
    }

    /// The priors, in component order.
    pub fn priors(&self) -> (r: &[Ratio])
        ensures
            r@ == self.prior_seq(),
    {
        self.priors.as_slice()
    }

    /// The kernels, in component order.
    pub fn kernels(&self) -> (r: &[K])
        ensures
            r@ == self.kernel_seq(),
    {
        self.kernels.as_slice()
    }
}

} // verus!
