use binum::Boolean;
use binum::UInt;
use Boolean::True;

#[test]
fn test_add() {
    // basic
    assert_eq!(UInt::from(9).add(&UInt::from(16)), UInt::from(25));
    // corner case
    let n0 = UInt::from(0);
    let n1 = UInt::from(u64::MAX);
    assert_eq!(n0.add(&n0), UInt::new(vec![]));
    assert_eq!(n0.add(&n1), UInt::new(vec![True; u64::BITS as usize]));
    // unity, commutativity, associativity
    let n1 = UInt::from(0b10011011);
    // unity
    assert_eq!(n1.add(&n0), n0.add(&n1));
    assert_eq!(n1.add(&n0), n1);
    let n2 = UInt::from(0b10100000);
    assert_eq!(n1.add(&n2), n2.add(&n1)); // commutativity
    let n3 = UInt::from(0b11000000);
    assert_eq!(n1.add(&n2).add(&n3), n1.add(&n2.add(&n3))); // associativity
}

#[test]
fn test_add_assign() {
    // basic
    let mut n1 = UInt::from(9);
    n1.add_assign(&UInt::from(16));
    assert_eq!(n1, UInt::from(25));
    // corner case
    let mut n0 = UInt::new(vec![]);
    let mut n1 = UInt::from(u64::MAX);
    n0.add_assign(&n0.clone());
    assert_eq!(n0, UInt::from(0));
    n1.add_assign(&n0);
    assert_eq!(n1, UInt::new(vec![True; u64::BITS as usize]));
    // unity, commutativity, associativity
    let unit = UInt::from(0);
    let n1 = UInt::from(0b10011011);
    let n2 = UInt::from(0b10100000);
    let n3 = UInt::from(0b11000000);
    let mut n4 = n1.clone();
    let mut n5 = unit.clone();
    n4.add_assign(&unit);
    n5.add_assign(&n1.clone());
    // unity
    assert_eq!(n4, n5);
    assert_eq!(n4, n1);
    let mut n4 = n1.clone();
    let mut n5 = n2.clone();
    n4.add_assign(&n5.clone());
    n5.add_assign(&n1.clone());
    assert_eq!(n4, n5); // commutativity
    let mut n4 = n1.clone();
    n4.add_assign(&n2.clone());
    n4.add_assign(&n3.clone());
    let mut n5 = n1;
    let mut n6 = n2;
    n6.add_assign(&n3);
    n5.add_assign(&n6);
    assert_eq!(n4, n5); // (pseudo) associativity
}

#[test]
fn test_mul() {
    // basic
    assert_eq!(UInt::from(9).mul(&UInt::from(6)), UInt::from(54));
    // corner case
    let n0 = UInt::from(0);
    let n1 = UInt::from(u64::MAX);
    assert_eq!(n0.mul(&n0), UInt::new(vec![]));
    assert_eq!(n0.mul(&n1), UInt::new(vec![]));
    // unity, commutativity, associativity
    let n1 = UInt::from(1);
    let n2 = UInt::from(0b10011011);
    // unity
    assert_eq!(n2.mul(&n1), n1.mul(&n2));
    assert_eq!(n2.mul(&n1), n2);
    let n3 = UInt::from(0b10100000);
    assert_eq!(n2.mul(&n3), n3.mul(&n2)); // commutativity
    let n4 = UInt::from(0b11000000);
    assert_eq!(n2.mul(&n3).mul(&n4), n2.mul(&n3.mul(&n4))); // associativity
}

#[test]
fn test_mul_assign() {
    // basic
    let mut n1 = UInt::from(9);
    n1.mul_assign(&UInt::from(6));
    assert_eq!(n1, UInt::from(54));
    // corner case
    let mut n0 = UInt::new(vec![]);
    let mut n1 = UInt::from(u64::MAX);
    n0.mul_assign(&n0.clone());
    assert_eq!(n0, UInt::from(0));
    n1.mul_assign(&n0);
    assert_eq!(n1, UInt::new(vec![]));
    // unity, commutativity, associativity
    let unit = UInt::from(1);
    let n1 = UInt::from(0b10011011);
    let n2 = UInt::from(0b10100000);
    let n3 = UInt::from(0b11000000);
    let mut n4 = n1.clone();
    let mut n5 = unit.clone();
    n4.mul_assign(&unit);
    n5.mul_assign(&n1.clone());
    // unity
    assert_eq!(n4, n5);
    assert_eq!(n4, n1);
    let mut n4 = n1.clone();
    let mut n5 = n2.clone();
    n4.mul_assign(&n5.clone());
    n5.mul_assign(&n1.clone());
    assert_eq!(n4, n5); // commutativity
    let mut n4 = n1.clone();
    n4.mul_assign(&n2.clone());
    n4.mul_assign(&n3.clone());
    let mut n5 = n1;
    let mut n6 = n2;
    n6.mul_assign(&n3);
    n5.mul_assign(&n6);
    assert_eq!(n4, n5); // (pseudo) associativity
}

#[test]
fn test_sub() {
    // basic
    assert_eq!(UInt::from(16).sub(&UInt::from(9)), UInt::from(7));
    assert_eq!(UInt::from(1).sub(&UInt::from(1)), UInt::from(0));
    // corner case
    let n0 = UInt::from(0);
    let n1 = UInt::from(u64::MAX);
    assert_eq!(n0.sub(&n0), UInt::new(vec![]));
    assert_eq!(n1.sub(&n0), UInt::new(vec![True; u64::BITS as usize]));
    // unity
    let unit = UInt::from(0);
    let n1 = UInt::from(0b10011011);
    assert_eq!(n1.sub(&unit), n1);
    // inverse
    assert_eq!(n1.sub(&n1), n0);
}

#[test]
#[should_panic]
fn test_sub_fails() {
    // this should cause panic
    let _ = UInt::from(9).checked_sub(&UInt::from(16)).unwrap();
}

#[test]
fn test_sub_assign() {
    // basic
    let mut n1 = UInt::from(16);
    n1.sub_assign(&UInt::from(9));
    assert_eq!(n1, UInt::from(7));
    // corner case
    let mut n0 = UInt::from(0);
    let mut n1 = UInt::from(u64::MAX);
    n0.sub_assign(&n0.clone());
    assert_eq!(n0, UInt::new(vec![]));
    n1.sub_assign(&n0);
    assert_eq!(n1, UInt::new(vec![True; u64::BITS as usize]));
    // unity
    let unit = UInt::from(0);
    let mut n1 = UInt::from(0b10011011);
    n1.sub_assign(&unit.clone());
    assert_eq!(n1, UInt::from(0b10011011));
    // inverse
    n1.sub_assign(&n1.clone());
    assert_eq!(n1, unit);
}

#[test]
#[should_panic]
fn test_sub_assign_fails() {
    let n1 = UInt::from(9);
    let _ = n1.checked_sub(&UInt::from(16)).unwrap();
}

#[test]
fn test_div() {
    // basic
    assert_eq!(UInt::from(55).div(&UInt::from(9)), UInt::from(6));
    // corner case
    let n0 = UInt::from(1);
    let n1 = UInt::from(u64::MAX);
    assert_eq!(n0.div(&n0), UInt::new(vec![True]));
    assert_eq!(n1.div(&n0), UInt::new(vec![True; u64::BITS as usize]));
    // unity
    let unit = UInt::from(1);
    let n2 = UInt::from(0b10011011);
    assert_eq!(n2.div(&unit), n2);
    // inverse
    assert_eq!(n2.div(&n2), unit);
}

#[test]
#[should_panic]
fn test_div_fails() {
    // a zero divisor must be reported
    let _ = UInt::from(1).checked_div(&UInt::from(0)).unwrap();
}

#[test]
fn test_div_assign() {
    // basic
    let mut n1 = UInt::from(16);
    n1.div_assign(&UInt::from(9));
    assert_eq!(n1, UInt::from(1));
    // corner case
    let mut n1 = UInt::from(1);
    let mut n2 = UInt::from(u64::MAX);
    n1.div_assign(&n1.clone());
    assert_eq!(n1, UInt::new(vec![True]));
    n2.div_assign(&n1);
    assert_eq!(n2, UInt::new(vec![True; u64::BITS as usize]));
    // unity
    let unit = UInt::from(1);
    let mut n1 = UInt::from(0b10011011);
    n1.div_assign(&unit.clone());
    assert_eq!(n1, UInt::from(0b10011011));
    // inverse
    n1.div_assign(&n1.clone());
    assert_eq!(n1, unit);
}

#[test]
#[should_panic]
fn test_div_assign_fails() {
    let n1 = UInt::from(1);
    // a zero divisor must be reported
    let _ = n1.checked_div(&UInt::from(0)).unwrap();
}

#[test]
fn test_rem() {
    // basic
    assert_eq!(UInt::from(16).rem(&UInt::from(9)), UInt::from(7));
    // corner case
    let n0 = UInt::from(1);
    let n1 = UInt::from(u64::MAX);
    assert_eq!(n0.rem(&n0), UInt::new(vec![]));
    assert_eq!(n1.rem(&n0), UInt::new(vec![]));
    // (maybe) inverse
    let n1 = UInt::from(0b10011011);
    assert_eq!(n1.rem(&n1), UInt::from(0));
}

#[test]
#[should_panic]
fn test_rem_fails() {
    // a zero divisor must be reported
    let _ = UInt::from(16).checked_rem(&UInt::from(0)).unwrap();
}

#[test]
fn test_rem_assign() {
    // basic
    let mut n1 = UInt::from(16);
    n1.rem_assign(&UInt::from(9));
    assert_eq!(n1, UInt::from(7));
    // corner case
    let mut n1 = UInt::from(1);
    let mut n2 = UInt::from(u64::MAX);
    n1.rem_assign(&n1.clone());
    assert_eq!(n1, UInt::new(vec![]));
    n2.rem_assign(&UInt::from(1));
    assert_eq!(n2, UInt::new(vec![]));
    // (maybe) inverse
    let mut n1 = UInt::from(0b10011011);
    n1.rem_assign(&n1.clone());
    assert_eq!(n1, UInt::from(0));
}

#[test]
#[should_panic]
fn test_rem_assign_fails() {
    // a zero divisor must be reported
    let n1 = UInt::from(15);
    let _ = n1.checked_rem(&UInt::from(0)).unwrap();
}
