use luarus::num::rational::Rational;
use std::cmp::Ordering;

fn r(s: &str) -> Rational {
    Rational::parse(s).unwrap_or_else(|| panic!("{s} should parse"))
}

#[test]
fn exactness_is_the_whole_point() {
    // The canonical float embarrassment, got right.
    assert_eq!(r("0.1").add(&r("0.2")), r("0.3"));
    // And the one rationals fix that decimals cannot.
    assert_eq!(r("1/3").mul(&r("3")), r("1"));
    assert_eq!(r("1").div(&r("3")).unwrap().mul(&r("3")), r("1"));
}

#[test]
fn parses_every_form() {
    assert_eq!(r("3").to_string(), "3");
    assert_eq!(r("-3").to_string(), "-3");
    assert_eq!(r("1.5").to_string(), "1.5");
    assert_eq!(r("-2.25").to_string(), "-2.25");
    assert_eq!(r("1/3").to_string(), "1/3");
    assert_eq!(r("-2/4").to_string(), "-0.5");
    assert_eq!(r("0.5").to_string(), "0.5");
    assert_eq!(r(".5").to_string(), "0.5");
    assert_eq!(r("1_000.5").to_string(), "1000.5");
}

#[test]
fn rejects_nonsense() {
    for s in ["", "-", "1.2.3", "a", "1/", "/3", "1/0", "1.5/2"] {
        assert!(Rational::parse(s).is_none(), "{s} should not parse");
    }
}

#[test]
fn is_always_in_lowest_terms() {
    assert_eq!(r("2/4"), r("1/2"));
    assert_eq!(r("100/10"), r("10"));
    assert_eq!(r("6/3").to_string(), "2");
}

#[test]
fn prints_a_terminating_decimal_when_there_is_one() {
    assert_eq!(r("1/2").to_string(), "0.5");
    assert_eq!(r("1/4").to_string(), "0.25");
    assert_eq!(r("1/8").to_string(), "0.125");
    assert_eq!(r("1/10").to_string(), "0.1");
    assert_eq!(r("1/20").to_string(), "0.05");
    // And a fraction when there is not.
    assert_eq!(r("1/3").to_string(), "1/3");
    assert_eq!(r("22/7").to_string(), "22/7");
}

#[test]
fn printing_round_trips() {
    for s in ["0", "1", "-1", "0.1", "0.125", "1/3", "-22/7", "1000000.0001"] {
        let v = r(s);
        assert_eq!(r(&v.to_string()), v, "{s} did not survive a round trip");
    }
}

#[test]
fn arithmetic_across_signs() {
    assert_eq!(r("1").sub(&r("3")), r("-2"));
    assert_eq!(r("-1").add(&r("3")), r("2"));
    assert_eq!(r("-1").add(&r("-3")), r("-4"));
    assert_eq!(r("-2").mul(&r("-3")), r("6"));
    assert_eq!(r("-6").div(&r("3")).unwrap(), r("-2"));
    assert!(r("1").sub(&r("1")).is_zero());
    assert!(!r("1").sub(&r("1")).is_negative(), "zero is never negative");
}

#[test]
fn rational_refuses_to_divide_by_zero() {
    assert!(r("1").div(&r("0")).is_none());
    assert!(r("1").rem(&r("0")).is_none());
}

#[test]
fn remainder_matches_the_integer_convention() {
    // Truncated, like the integer types: the sign follows the dividend.
    assert_eq!(r("7").rem(&r("3")).unwrap(), r("1"));
    assert_eq!(r("-7").rem(&r("3")).unwrap(), r("-1"));
    assert_eq!(r("7").rem(&r("-3")).unwrap(), r("1"));
    assert_eq!(r("1/2").rem(&r("1/3")).unwrap(), r("1/6"));
}

#[test]
fn orders_correctly() {
    assert_eq!(r("1/3").cmp_to(&r("1/2")), Ordering::Less);
    assert_eq!(r("-1/3").cmp_to(&r("-1/2")), Ordering::Greater);
    assert_eq!(r("-1").cmp_to(&r("1")), Ordering::Less);
    assert_eq!(r("2/4").cmp_to(&r("1/2")), Ordering::Equal);
    assert_eq!(r("0").cmp_to(&r("0")), Ordering::Equal);
}

#[test]
fn is_unbounded() {
    // Nothing here overflows, however far it is pushed.
    let mut v = Rational::one();
    let two = r("2");
    for _ in 0..200 {
        v = v.mul(&two);
    }
    assert_eq!(v.to_string().len(), 61, "2^200 has 61 digits");
    assert_eq!(v.div(&r("2")).unwrap().mul(&two), v);
}

#[test]
fn precision_does_not_decay_the_way_a_float_would() {
    // A tenth added a thousand times is exactly one hundred.
    let tenth = r("0.1");
    let mut sum = Rational::zero();
    for _ in 0..1000 {
        sum = sum.add(&tenth);
    }
    assert_eq!(sum, r("100"));
}

#[test]
fn parts_signs_and_truncation() {
    let v = r("-7/2");
    assert!(v.is_negative());
    assert_eq!(v.numerator().to_decimal(), "7");
    assert_eq!(v.denominator().to_decimal(), "2");
    assert!(!v.is_integer());
    assert_eq!(v.trunc(), r("-3"));
    assert_eq!(v.abs(), r("7/2"));
    assert_eq!(v.neg(), r("3.5"));
    assert_eq!(Rational::from_i64(-42), r("-42"));
    assert_eq!(Rational::from_i64(i64::MIN).to_string(), "-9223372036854775808");
    assert!(r("4/2").is_integer());
}

#[test]
fn white_space_around_a_literal_is_trimmed() {
    assert_eq!(r("  +2/4 \n"), r("0.5"));
    assert!(Rational::parse("1 2").is_none());
}
