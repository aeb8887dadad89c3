use alignment_report::measure::Real;
use alignment_report::measure::INFINITY_BITS;
use alignment_report::measure::NEG_INFINITY_BITS;
use alignment_report::measure::SIGN_BIT;

fn num(x: f64) -> Real {
    Real::from_bits(x.to_bits())
}

fn samples() -> Vec<f64> {
    vec![
        0.0,
        -0.0,
        1.0,
        -1.0,
        0.5,
        -0.5,
        3e-10,
        1.2e-05,
        -1.2e-05,
        55.1,
        1e300,
        -1e300,
        5e-324,
        -5e-324,
        f64::MAX,
        f64::MIN,
        f64::MIN_POSITIVE,
        f64::INFINITY,
        f64::NEG_INFINITY,
        f64::NAN,
        -f64::NAN,
    ]
}

#[test]
fn constants_are_the_patterns_of_the_numbers() {
    assert_eq!(SIGN_BIT, (-0.0f64).to_bits());
    assert_eq!(INFINITY_BITS, f64::INFINITY.to_bits());
    assert_eq!(NEG_INFINITY_BITS, f64::NEG_INFINITY.to_bits());
    assert_eq!(Real::new_zero().to_bits(), 0.0f64.to_bits());
    assert_eq!(Real::new_infinity().to_bits(), f64::INFINITY.to_bits());
    assert_eq!(Real::new_neg_infinity().to_bits(), f64::NEG_INFINITY.to_bits());
}

#[test]
fn less_than_is_that_of_the_numbers() {
    for a in samples() {
        for b in samples() {
            assert_eq!(num(a).lt(num(b)), a < b, "{} < {}", a, b);
        }
    }
}

#[test]
fn greater_than_is_that_of_the_numbers() {
    for a in samples() {
        for b in samples() {
            assert_eq!(num(a).gt(num(b)), a > b, "{} > {}", a, b);
        }
    }
}

#[test]
fn equality_is_that_of_the_numbers() {
    for a in samples() {
        for b in samples() {
            assert_eq!(num(a).equals(num(b)), a == b, "{} == {}", a, b);
        }
    }
}

#[test]
fn nan_is_told_apart() {
    for a in samples() {
        assert_eq!(num(a).nan(), a.is_nan());
    }
}

#[test]
fn the_two_zeros_are_equal_and_not_ordered() {
    assert!(num(0.0).equals(num(-0.0)));
    assert!(!num(-0.0).lt(num(0.0)));
    assert!(!num(0.0).lt(num(-0.0)));
}

#[test]
fn bits_round_trip() {
    for a in samples() {
        assert_eq!(num(a).to_bits(), a.to_bits());
    }
}

#[test]
fn number_texts_are_those_that_parse() {
    let samples = [
        "0", "1", "-1", "+1", "55.1", "3e-10", "1.2e-05", "1.2E+05", "1e5", "1E5", "5.", ".5",
        "-.5e3", "+5.e-3", "0.002", "007", "inf", "INF", "-inf", "+Infinity", "infinity", "nan",
        "NaN", "-nan", "+NAN", "1e", "e5", ".", "", "+", "-", "1e+", "1e-", "1.2.3", "1,5",
        " 1", "1 ", "1f", "0x10", "1_000", "infinit", "infinityy", "na", "nanx", "in", "--1",
        "+-1", "1e5.5", "1ee5", ".e5", "+.", "1.e", "1e5e5", "12345678901234567890123456789",
        "1e400", "1e-400", "4.9e-324", "i", "n", "-", "1.0e0", "1.0E-0", "9.", "9.e1", "-0",
        "-0.0", "٣", "1\u{a0}",
    ];
    for text in samples {
        assert_eq!(
            alignment_report::number::is_number_text(text.as_bytes()),
            text.parse::<f64>().is_ok(),
            "{:?}",
            text
        );
    }
}
