use luarus::num::uint::BigUint;
use std::cmp::Ordering;

fn n(s: &str) -> BigUint {
    BigUint::parse_decimal(s).unwrap()
}

#[test]
fn round_trips_decimal() {
    for s in [
        "0",
        "1",
        "9",
        "10",
        "4294967295",
        "4294967296",
        "18446744073709551616",
        "123456789012345678901234567890",
    ] {
        assert_eq!(n(s).to_decimal(), s);
    }
}

#[test]
fn adds_across_limb_boundaries() {
    assert_eq!(n("4294967295").add(&n("1")).to_decimal(), "4294967296");
    assert_eq!(n("18446744073709551615").add(&n("1")).to_decimal(), "18446744073709551616");
}

#[test]
fn subtracts_and_refuses_to_go_negative() {
    assert_eq!(n("4294967296").sub(&n("1")).unwrap().to_decimal(), "4294967295");
    assert!(n("1").sub(&n("2")).is_none());
    assert!(n("5").sub(&n("5")).unwrap().is_zero());
}

#[test]
fn multiplies() {
    assert_eq!(n("123456789").mul(&n("987654321")).to_decimal(), "121932631112635269");
    assert_eq!(n("0").mul(&n("999")).to_decimal(), "0");
    let big = n("18446744073709551616");
    assert_eq!(big.mul(&big).to_decimal(), "340282366920938463463374607431768211456");
}

#[test]
fn divides_with_remainder() {
    let (q, r) = n("121932631112635269").divmod(&n("987654321")).unwrap();
    assert_eq!(q.to_decimal(), "123456789");
    assert!(r.is_zero());

    let (q, r) = n("100").divmod(&n("7")).unwrap();
    assert_eq!((q.to_decimal(), r.to_decimal()), ("14".into(), "2".into()));

    let (q, r) = n("3").divmod(&n("10")).unwrap();
    assert!(q.is_zero());
    assert_eq!(r.to_decimal(), "3");
}

#[test]
fn uint_refuses_to_divide_by_zero() {
    assert!(n("1").divmod(&n("0")).is_none());
}

#[test]
fn division_inverts_multiplication_over_many_sizes() {
    for a in ["7", "4294967296", "123456789012345678901234567890"] {
        for b in ["3", "1000000007", "18446744073709551616"] {
            let (x, y) = (n(a), n(b));
            let product = x.mul(&y);
            let (q, r) = product.divmod(&y).unwrap();
            assert!(r.is_zero(), "{a} * {b} / {b} left a remainder");
            assert_eq!(q, x, "{a} * {b} / {b} did not come back");
        }
    }
}

#[test]
fn shifts() {
    assert_eq!(n("1").shl(64).to_decimal(), "18446744073709551616");
    assert_eq!(n("18446744073709551616").shr(64).to_decimal(), "1");
    assert_eq!(n("5").shl(1).to_decimal(), "10");
    assert_eq!(n("5").shr(1).to_decimal(), "2");
    assert!(n("1").shr(100).is_zero());
}

#[test]
fn gcd_is_the_greatest_common_divisor() {
    assert_eq!(n("12").gcd(&n("18")).to_decimal(), "6");
    assert_eq!(n("17").gcd(&n("5")).to_decimal(), "1");
    assert_eq!(n("0").gcd(&n("7")).to_decimal(), "7");
    assert_eq!(n("123456789012345678890").gcd(&n("10")).to_decimal(), "10");
}

#[test]
fn factors_out_powers() {
    let (rest, twos) = n("80").factor_out(2);
    assert_eq!((rest.to_decimal(), twos), ("5".into(), 4));
    let (rest, fives) = n("1000").factor_out(5);
    assert_eq!((rest.to_decimal(), fives), ("8".into(), 3));
    let (rest, threes) = n("7").factor_out(3);
    assert_eq!((rest.to_decimal(), threes), ("7".into(), 0));
}

#[test]
fn bits_counts_correctly() {
    assert_eq!(n("0").bits(), 0);
    assert_eq!(n("1").bits(), 1);
    assert_eq!(n("255").bits(), 8);
    assert_eq!(n("256").bits(), 9);
    assert_eq!(n("18446744073709551616").bits(), 65);
}

#[test]
fn small_values_convert_both_ways() {
    assert_eq!(BigUint::from_u64(0).to_u64(), Some(0));
    assert_eq!(BigUint::from_u64(u64::MAX).to_u64(), Some(u64::MAX));
    assert_eq!(n("18446744073709551616").to_u64(), None);
    assert_eq!(BigUint::from_limbs(vec![5, 0, 0]).limbs(), &[5]);
    assert!(BigUint::one().is_one());
    assert!(!BigUint::from_u64(2).is_one());
}

#[test]
fn compares_by_value() {
    assert_eq!(n("4294967296").cmp_to(&n("4294967295")), Ordering::Greater);
    assert_eq!(n("7").cmp_to(&n("7")), Ordering::Equal);
    assert_eq!(n("7").cmp_to(&n("18446744073709551616")), Ordering::Less);
}

#[test]
fn parsing_refuses_anything_but_digits() {
    assert!(BigUint::parse_decimal("").is_none());
    assert!(BigUint::parse_decimal("12a").is_none());
    assert!(BigUint::parse_decimal("-1").is_none());
    assert_eq!(n("007").to_decimal(), "7");
}

#[test]
fn powers_of_small_bases() {
    assert_eq!(BigUint::pow_small(10, 20).to_decimal(), "100000000000000000000");
    assert_eq!(BigUint::pow_small(7, 0).to_decimal(), "1");
}
