//! An outcome record: one probability for each of five outcome categories.
use vstd::prelude::*;
use crate::ratio::{
    all_wf, checked_sum, lemma_sum_pair_denom, running_sum, shared_denominator, sum_pair,
    sums_to_one, Ratio,
};

verus! {

/// The number of outcome categories.
pub const N_STATES: usize = 5;

/// One outcome category of an experiment with its probability.
#[derive(Clone, Copy, Debug)]
pub enum State {
    S(Ratio),
    I(Ratio),
    R(Ratio),
    Inconclusive(Ratio),
    TechnicalError(Ratio),
}

impl State {
    pub open spec fn value_spec(&self) -> Ratio {
        match *self {
            State::S(x) => x,
            State::I(x) => x,
            State::R(x) => x,
            State::Inconclusive(x) => x,
            State::TechnicalError(x) => x,
        }
    }

    pub open spec fn position_spec(&self) -> nat {
        match *self {
            State::S(_) => 0,
            State::I(_) => 1,
            State::R(_) => 2,
            State::Inconclusive(_) => 3,
            State::TechnicalError(_) => 4,
        }
    }

    /// The probability of the state.
    pub fn value(&self) -> (r: Ratio)
        ensures
            r == self.value_spec(),
    {
        match self {
            State::S(x) => *x,
            State::I(x) => *x,
            State::R(x) => *x,
            State::Inconclusive(x) => *x,
            State::TechnicalError(x) => *x,
        }
    }

    /// The position of the state's category in the fixed order
    /// `S, I, R, Inconclusive, TechnicalError`.
    pub fn position(&self) -> (r: usize)
        ensures
            r == self.position_spec(),
            r < N_STATES,
    {
        match self {
            State::S(_) => 0,
            State::I(_) => 1,
            State::R(_) => 2,
            State::Inconclusive(_) => 3,
            State::TechnicalError(_) => 4,
        }
    }
}

/// Why an outcome record was refused.
#[derive(Clone, Copy, Debug, PartialEq, Eq, Structural)]
pub enum StrainError {
    /// The probabilities do not sum to one.
    SumNotOne,
    /// A probability is negative.
    NegativeProbability,
    /// A category is missing (and so another is repeated).
    MissingState,
    /// The exact sum of the probabilities does not fit in 128 bits.
    SumTooFine,
}

/// The probabilities of `s`, in the order given.
pub open spec fn values_of(s: Seq<State>) -> Seq<Ratio> {
    s.map_values(|x: State| x.value_spec())
}

/// The category at position `k` stands in `s`.
pub open spec fn has_position(s: Seq<State>, k: nat) -> bool {
    exists|i: int| 0 <= i < s.len() && s[i].position_spec() == k
}

/// Every category stands in `s`.
pub open spec fn covers_all(s: Seq<State>) -> bool {
    forall|k: nat| k < N_STATES ==> #[trigger] has_position(s, k)
}

/// No probability of `s` is negative.
pub open spec fn no_negative(s: Seq<State>) -> bool {
    forall|i: int| 0 <= i < s.len() ==> (#[trigger] s[i]).value_spec().numer >= 0
}

/// A valid outcome record: well-formed probabilities that sum to one, none
/// negative, and each category present.
pub open spec fn strain_valid(s: Seq<State>) -> bool {
    &&& s.len() == N_STATES
    &&& sums_to_one(values_of(s))
    &&& no_negative(s)
    &&& covers_all(s)
}

/// Entry `m` of `r` is the probability of a state of `s` whose position is
/// `m`.
pub open spec fn entry_of(s: Seq<State>, r: Seq<Ratio>, m: int) -> bool {
    exists|j: int| 0 <= j < s.len() && s[j].position_spec() == m && r[m] == s[j].value_spec()
}

/// A checked outcome record.
pub struct Strain {
    p: Vec<State>,
}

impl Strain {
    /// The states of the record, in the order given.
    pub closed spec fn states(&self) -> Seq<State> {
        self.p@
    }

    /// Checks, in this order, that the probabilities sum to one, that none is
    /// negative, and that every category is present.
    pub fn new(p: &[State; 5]) -> (r: Result<Strain, StrainError>)
        requires
            all_wf(values_of(p@)),
        ensures
            r matches Ok(s) ==> strain_valid(s.states()) && s.states() == p@,
            r is Ok <==> strain_valid(p@) && running_sum(values_of(p@)) is Some,
            r matches Err(e) ==> (e == StrainError::SumTooFine <==> running_sum(values_of(p@))
                is None),
            shared_denominator(values_of(p@)) ==> !(r matches Err(e) && e
                == StrainError::SumTooFine),
            r matches Err(e) ==> (e == StrainError::SumNotOne <==> !sums_to_one(values_of(p@))
                && !(e == StrainError::SumTooFine)),
            r matches Err(e) && e == StrainError::NegativeProbability ==> sums_to_one(
                values_of(p@),
            ) && !no_negative(p@),
            r matches Err(e) && e == StrainError::MissingState ==> sums_to_one(values_of(p@))
                && no_negative(p@) && !covers_all(p@),
    {
        let mut values: Vec<Ratio> = Vec::new();
        let mut i: usize = 0;
        while i < 5
            invariant
                i <= 5,
                p@.len() == 5,
                values@ == values_of(p@).subrange(0, i as int),
            decreases 5 - i,
        {
            values.push(p[i].value());
            i = i + 1;
        }
        assert(values@ =~= values_of(p@));
        let total = match checked_sum(values.as_slice()) {
            Some(t) => t,
            None => return Err(StrainError::SumTooFine),
        };
        proof {
            lemma_sum_pair_denom(values@);
            let (n, d) = sum_pair(values@);
            let tn = total.numer as int;
            let td = total.denom as int;
            if tn == td {
                assert(n == d) by (nonlinear_arith)
                    requires
                        tn * d == n * td,
                        tn == td,
                        td > 0,
                ;
            }
            if n == d {
                assert(tn == td) by (nonlinear_arith)
                    requires
                        tn * d == n * td,
                        n == d,
                        d > 0,
                ;
            }
        }
        if total.numer != total.denom {
            return Err(StrainError::SumNotOne);
        }
        let mut i: usize = 0;
        while i < 5
            invariant
                i <= 5,
                p@.len() == 5,
                sums_to_one(values_of(p@)),
                running_sum(values_of(p@)) is Some,
                forall|k: int| 0 <= k < i ==> (#[trigger] p@[k]).value_spec().numer >= 0,
            decreases 5 - i,
        {
            if p[i].value().numer < 0 {
                assert(p@[i as int].value_spec().numer < 0);
                return Err(StrainError::NegativeProbability);
            }
            i = i + 1;
        }
        let mut seen: Vec<bool> = vec![false, false, false, false, false];
        let mut i: usize = 0;
        while i < 5
            invariant
                i <= 5,
                p@.len() == 5,
                seen@.len() == 5,
                sums_to_one(values_of(p@)),
                running_sum(values_of(p@)) is Some,
                no_negative(p@),
                forall|k: int|
                    0 <= k < 5 ==> (#[trigger] seen@[k] <==> exists|j: int|
                        0 <= j < i && p@[j].position_spec() == k),
            decreases 5 - i,
        {
            let k = p[i].position();
            seen.set(k, true);
            assert forall|m: int| 0 <= m < 5 implies (#[trigger] seen@[m] <==> exists|j: int|
                0 <= j < i + 1 && p@[j].position_spec() == m) by {
                if m == k {
                    assert(p@[i as int].position_spec() == m);
                }
                if exists|j: int| 0 <= j < i + 1 && p@[j].position_spec() == m {
                    let j = choose|j: int| 0 <= j < i + 1 && p@[j].position_spec() == m;
                    if j < i {
                    } else {
                        assert(m == k);
                    }
                }
            }
            i = i + 1;
        }
        let mut k: usize = 0;
        while k < 5
            invariant
                k <= 5,
                p@.len() == 5,
                seen@.len() == 5,
                sums_to_one(values_of(p@)),
                running_sum(values_of(p@)) is Some,
                no_negative(p@),
                forall|m: int|
                    0 <= m < 5 ==> (#[trigger] seen@[m] <==> exists|j: int|
                        0 <= j < 5 && p@[j].position_spec() == m),
                forall|m: nat| m < k ==> #[trigger] has_position(p@, m),
            decreases 5 - k,
        {
            if !seen[k] {
                assert(!has_position(p@, k as nat));
                return Err(StrainError::MissingState);
            }
            assert(seen@[k as int]);
            assert(has_position(p@, k as nat));
            k = k + 1;
        }
        let mut copied: Vec<State> = Vec::new();
        let mut j: usize = 0;
        while j < 5
            invariant
                j <= 5,
                p@.len() == 5,
                copied@ == p@.subrange(0, j as int),
            decreases 5 - j,
        {
            copied.push(p[j]);
            j = j + 1;
        }
        assert(copied@ =~= p@);
        Ok(Strain { p: copied })
    }

    /// The probabilities by category, in the order
    /// `S, I, R, Inconclusive, TechnicalError`: entry `k` is the probability
    /// of the state whose position is `k`.
    pub fn probabilities_values(ss: &Self) -> (r: Vec<Ratio>)
        requires
            strain_valid(ss.states()),
        ensures
            r@.len() == N_STATES,
            forall|k: int| 0 <= k < N_STATES ==> #[trigger] entry_of(ss.states(), r@, k),
    {
        let mut probs: Vec<Ratio> = Vec::new();
        let mut k: usize = 0;
        while k < 5
            invariant
                k <= 5,
                ss.p@.len() == 5,
                strain_valid(ss.p@),
                probs@.len() == k,
                forall|m: int| 0 <= m < k ==> #[trigger] entry_of(ss.p@, probs@, m),
            decreases 5 - k,
        {
            assert(has_position(ss.p@, k as nat));
            let mut i: usize = 0;
            while i < 5 && ss.p[i].position() != k
                invariant
                    i <= 5,
                    ss.p@.len() == 5,
                    has_position(ss.p@, k as nat),
                    forall|j: int| 0 <= j < i ==> ss.p@[j].position_spec() != k,
                decreases 5 - i,
            {
                i = i + 1;
            }
            assert(i < 5 && ss.p@[i as int].position_spec() == k) by {
                if i == 5 {
                    let w = choose|w: int| 0 <= w < ss.p@.len() && ss.p@[w].position_spec() == k;
                    assert(ss.p@[w].position_spec() != k);
                }
            }
            let ghost before = probs@;
            probs.push(ss.p[i].value());
            assert forall|m: int| 0 <= m < k + 1 implies #[trigger] entry_of(ss.p@, probs@, m) by {
                if m < k {
                    assert(entry_of(ss.p@, before, m));
                    let j = choose|j: int|
                        0 <= j < ss.p@.len() && ss.p@[j].position_spec() == m && before[m]
                            == ss.p@[j].value_spec();
                    assert(probs@[m] == before[m]);
                    assert(ss.p@[j].position_spec() == m && probs@[m] == ss.p@[j].value_spec());
                } else {
                    assert(probs@[m] == ss.p@[i as int].value_spec());
                    assert(ss.p@[i as int].position_spec() == m);
                }
            }
            k = k + 1;
        }
        probs
    }
}

} // verus!
