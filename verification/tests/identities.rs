use binum::Boolean;
use binum::UInt;
use Boolean::{False, True};

#[test]
fn test_native_round_trip() {
    for x in [0u64, 1, 2, 27, 0b10011011, 54, u64::MAX - 1, u64::MAX] {
        assert_eq!(u64::from(UInt::from(x)), x);
    }
}

#[test]
fn test_to_native_drops_high_bits() {
    // a single digit at position sixty-four is worth two to the sixty-
    // fourth: past the native width, it is dropped
    let mut digits = vec![False; 64];
    digits.push(True);
    let n = UInt::new(digits);
    assert_eq!(n.to_native(), 0);
    // the same with a low digit set keeps the low digit
    let mut digits = vec![False; 64];
    digits[0] = True;
    digits.push(True);
    let n = UInt::new(digits);
    assert_eq!(n.to_native(), 1);
}

#[test]
fn test_trim_idempotent() {
    let n = UInt::new(vec![True, True, False, True, True, False, False, False]);
    let once = n.trim();
    let twice = once.trim();
    assert_eq!(once.binary(), twice.binary());
    assert_eq!(n.max_bit_digit(), once.max_bit_digit());
}

#[test]
fn test_eq_ignores_padding() {
    // twenty-seven, with and without trailing False digits
    let padded = UInt::new(vec![True, True, False, True, True, False, False]);
    let native = UInt::from(27);
    assert_eq!(padded, native);
    assert_eq!(u64::from(padded), 27);
}

#[test]
fn test_ord_matches_native() {
    let pairs = [(0u64, 1u64), (1, 2), (27, 315), (54, 54), (u64::MAX - 1, u64::MAX)];
    for (x, y) in pairs {
        assert_eq!(UInt::from(x) < UInt::from(y), x < y);
        assert_eq!(UInt::from(x) == UInt::from(y), x == y);
        assert_eq!(UInt::from(x) > UInt::from(y), x > y);
    }
}

#[test]
fn test_division_identity() {
    let cases = [(55u64, 9u64), (16, 9), (1, 1), (0, 5), (12345678, 321)];
    for (a, b) in cases {
        let n = UInt::from(a);
        let d = UInt::from(b);
        let q = n.div(&d);
        let m = n.rem(&d);
        assert_eq!(d.mul(&q).add(&m), n);
    }
}

#[test]
fn test_checked_ops_succeed() {
    let a = UInt::from(16);
    let b = UInt::from(9);
    assert_eq!(a.checked_sub(&b).unwrap(), UInt::from(7));
    assert_eq!(a.checked_div(&b).unwrap(), UInt::from(1));
    assert_eq!(a.checked_rem(&b).unwrap(), UInt::from(7));
}

#[test]
fn test_checked_ops_report_failure() {
    let a = UInt::from(9);
    let zero = UInt::from(0);
    assert!(a.checked_sub(&UInt::from(16)).is_none());
    assert!(a.checked_div(&zero).is_none());
    assert!(a.checked_rem(&zero).is_none());
}

#[test]
fn test_wide_arithmetic() {
    // sums and products past the native width stay exact
    let big = UInt::from(u64::MAX);
    let sum = big.add(&big);
    assert_eq!(sum.max_bit_digit(), 65);
    assert_eq!(sum.sub(&big), big);
    let product = big.mul(&big);
    assert_eq!(product.div(&big), big);
    assert_eq!(product.rem(&big), UInt::from(0));
}
