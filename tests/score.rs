use pathsweep::score::Score;

fn s(v: f64) -> Score {
    Score::new(v.to_bits())
}

fn add(a: Score, b: Score) -> Option<Score> {
    Score::new_checked((f64::from_bits(a.to_bits()) + f64::from_bits(b.to_bits())).to_bits())
}

#[test]
fn order_follows_float_order() {
    let values = [
        f64::NEG_INFINITY,
        -1.0e300,
        -2.5,
        -1.0,
        -5e-324,
        -0.0,
        0.0,
        5e-324,
        1.0,
        1.5,
        2.0,
        1.0e300,
        f64::INFINITY,
    ];
    for a in values.iter() {
        for b in values.iter() {
            assert_eq!(s(*a).less_than(&s(*b)), a < b, "{} < {}", a, b);
            assert_eq!(s(*a) == s(*b), a == b, "{} == {}", a, b);
        }
    }
}

#[test]
fn negative_zero_equals_zero() {
    assert!(s(-0.0) == s(0.0));
    assert!(!s(-0.0).less_than(&s(0.0)));
    assert!(s(0.0) == Score::zero());
}

#[test]
fn nan_is_refused_by_checked_constructor() {
    assert!(Score::new_checked(f64::NAN.to_bits()).is_none());
    assert!(Score::new_checked((-f64::NAN).to_bits()).is_none());
    assert_eq!(Score::new_checked(3.0f64.to_bits()).unwrap().to_bits(), 3.0f64.to_bits());
    assert!(Score::new_checked(f64::INFINITY.to_bits()).is_some());
}

#[test]
fn sum_of_opposite_infinities_is_absent() {
    assert!(add(s(f64::INFINITY), s(f64::NEG_INFINITY)).is_none());
    assert!(add(s(f64::NEG_INFINITY), s(f64::INFINITY)).is_none());
}

#[test]
fn sum_is_float_sum() {
    assert_eq!(add(s(1.5), s(2.25)).unwrap().to_bits(), 3.75f64.to_bits());
    assert_eq!(add(s(f64::INFINITY), s(1.0)).unwrap().to_bits(), f64::INFINITY.to_bits());
}
