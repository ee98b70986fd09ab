use odegp::scalar::is_nan_bits;
use odegp::scalar::rank_of;
use odegp::scalar::reaches;
use odegp::scalar::INFINITY;
use odegp::scalar::NAN;
use odegp::scalar::SIGN_BIT;
use odegp::scalar::SIX;
use odegp::scalar::TWO;
use odegp::scalar::ZERO;

fn values() -> Vec<f64> {
    vec![
        f64::NEG_INFINITY,
        f64::MIN,
        -1.0e10,
        -2.5,
        -1.0,
        -f64::MIN_POSITIVE,
        -5e-324,
        -0.0,
        0.0,
        5e-324,
        f64::MIN_POSITIVE,
        0.01,
        1.0,
        2.5,
        1.0e10,
        f64::MAX,
        f64::INFINITY,
        f64::NAN,
        -f64::NAN,
        f64::from_bits(0x7FF0_0000_0000_0001),
        f64::from_bits(0xFFFF_FFFF_FFFF_FFFF),
    ]
}

#[test]
fn constants_are_the_bits_of_their_values() {
    assert_eq!(ZERO, 0.0f64.to_bits());
    assert_eq!(TWO, 2.0f64.to_bits());
    assert_eq!(SIX, 6.0f64.to_bits());
    assert_eq!(INFINITY, f64::INFINITY.to_bits());
    assert_eq!(SIGN_BIT, (-0.0f64).to_bits());
    assert!(f64::from_bits(NAN).is_nan());
}

#[test]
fn nan_is_told_by_its_bits() {
    for v in values() {
        assert_eq!(is_nan_bits(v.to_bits()), v.is_nan());
    }
}

#[test]
fn reaches_is_greater_or_equal_on_doubles() {
    for a in values() {
        for b in values() {
            assert_eq!(reaches(a.to_bits(), b.to_bits()), a >= b);
        }
    }
}

#[test]
fn rank_orders_as_doubles_do_with_nan_last() {
    for a in values() {
        for b in values() {
            let expected = match (a.is_nan(), b.is_nan()) {
                (true, _) => false,
                (false, true) => true,
                (false, false) => a < b,
            };
            assert_eq!(rank_of(a.to_bits()) < rank_of(b.to_bits()), expected);
        }
    }
}

#[test]
fn rank_of_some_values() {
    assert_eq!(rank_of(0.0f64.to_bits()), 0);
    assert_eq!(rank_of((-0.0f64).to_bits()), 0);
    assert_eq!(rank_of(1.0f64.to_bits()), 0x3FF0_0000_0000_0000);
    assert_eq!(rank_of((-1.0f64).to_bits()), -0x3FF0_0000_0000_0000);
    assert_eq!(rank_of(f64::INFINITY.to_bits()), 0x7FF0_0000_0000_0000);
    assert_eq!(rank_of(f64::NEG_INFINITY.to_bits()), -0x7FF0_0000_0000_0000);
    assert_eq!(rank_of(f64::NAN.to_bits()), 0x7FF0_0000_0000_0001);
    assert_eq!(rank_of((-f64::NAN).to_bits()), 0x7FF0_0000_0000_0001);
}
