use kde_stats::ratio::Ratio;
use kde_stats::strain::{State, Strain, StrainError};

fn tenths(n: i128) -> Ratio {
    Ratio::new(n, 10)
}

#[test]
fn check_if_greater_then_1_prob() {
    let r = Strain::new(&[
        State::S(tenths(9)),
        State::R(tenths(1)),
        State::I(tenths(5)),
        State::Inconclusive(tenths(0)),
        State::TechnicalError(tenths(0)),
    ]);
    assert_eq!(r.err(), Some(StrainError::SumNotOne));
}

#[test]
fn check_if_less_than_zero_prob() {
    let r = Strain::new(&[
        State::S(tenths(9)),
        State::R(tenths(2)),
        State::I(tenths(-1)),
        State::Inconclusive(tenths(0)),
        State::TechnicalError(tenths(0)),
    ]);
    assert_eq!(r.err(), Some(StrainError::NegativeProbability));
}

#[test]
fn check_if_missing_state() {
    let r = Strain::new(&[
        State::S(tenths(9)),
        State::R(tenths(1)),
        State::R(tenths(0)),
        State::Inconclusive(tenths(0)),
        State::TechnicalError(tenths(0)),
    ]);
    assert_eq!(r.err(), Some(StrainError::MissingState));
}

#[test]
fn valid_record_orders_probabilities_by_category() {
    let s = Strain::new(&[
        State::TechnicalError(Ratio::new(1, 20)),
        State::R(Ratio::new(1, 4)),
        State::S(Ratio::new(1, 2)),
        State::Inconclusive(Ratio::new(1, 20)),
        State::I(Ratio::new(3, 20)),
    ])
    .unwrap();
    let v = Strain::probabilities_values(&s);
    let pairs: Vec<(i128, i128)> = v.iter().map(|r| (r.numer, r.denom)).collect();
    assert_eq!(pairs, vec![(1, 2), (3, 20), (1, 4), (1, 20), (1, 20)]);
}

#[test]
fn state_value_and_position() {
    let s = State::Inconclusive(Ratio::new(2, 7));
    assert_eq!(s.position(), 3);
    assert_eq!((s.value().numer, s.value().denom), (2, 7));
}
