use binum::Boolean;
use binum::UInt;
use Boolean::True;

#[test]
fn uint_ops_bit_test_bitand() {
    // corner case
    let n1 = UInt::from(0);
    let n2 = UInt::from(u64::MAX);
    assert_eq!(n1.bitand(&n1), UInt::new(vec![]));
    assert_eq!(n1.bitand(&n2), UInt::new(vec![]));
    // truth table
    let n1 = UInt::from(0b0011);
    let n2 = UInt::from(0b1010);
    assert_eq!(n1.bitand(&n2), UInt::from(0b0010));
    // idempotency, commutativity, associativity
    let n1 = UInt::from(0b10011011);
    assert_eq!(n1.bitand(&n1), n1); // idempotency
    let n2 = UInt::from(0b10100000);
    assert_eq!(n1.bitand(&n2), n2.bitand(&n1)); // commutativity
    let n3 = UInt::from(0b11000000);
    assert_eq!(n1.bitand(&n2).bitand(&n3), n1.bitand(&n2.bitand(&n3))); // associativity
}

#[test]
fn test_bitand_assign() {
    // corner case
    let mut n1 = UInt::new(vec![]);
    let mut n2 = UInt::from(u64::MAX);
    n1.bitand_assign(&n1.clone());
    assert_eq!(n1, UInt::from(0));
    n2.bitand_assign(&n1);
    assert_eq!(n2, UInt::from(0));
    // truth table
    let mut n1 = UInt::from(0b0011);
    let n2 = UInt::from(0b1010);
    n1.bitand_assign(&n2);
    assert_eq!(n1, UInt::from(0b0010));
    // idempotency, commutativity, associativity
    let n1 = UInt::from(0b10011011);
    let n2 = UInt::from(0b10100000);
    let n3 = UInt::from(0b11000000);
    let mut n4 = n1.clone();
    n4.bitand_assign(&n4.clone());
    assert_eq!(n4, n1); // idempotency
    let mut n5 = n2.clone();
    n4.bitand_assign(&n5.clone());
    n5.bitand_assign(&n1.clone());
    assert_eq!(n4, n5); // commutativity
    let mut n4 = n1.clone();
    n4.bitand_assign(&n2.clone());
    n4.bitand_assign(&n3.clone());
    let mut n5 = n1;
    let mut n6 = n2;
    n6.bitand_assign(&n3);
    n5.bitand_assign(&n6);
    assert_eq!(n4, n5); // (pseudo) associativity
}

#[test]
fn uint_ops_bit_test_bitor() {
    // corner case
    let n1 = UInt::new(vec![]);
    let n2 = UInt::from(u64::MAX);
    assert_eq!(n1.bitor(&n1), UInt::new(vec![]));
    assert_eq!(n1.bitor(&n2), UInt::new(vec![True; u64::BITS as usize]));
    // truth table
    let n1 = UInt::from(0b0011);
    let n2 = UInt::from(0b1010);
    assert_eq!(n1.bitor(&n2), UInt::from(0b1011));
    // idempotency, commutativity, associativity
    let n1 = UInt::from(0b10011011);
    assert_eq!(n1.bitor(&n1), n1); // idempotency
    let n2 = UInt::from(0b10100000);
    assert_eq!(n1.bitor(&n2), n2.bitor(&n1)); // commutativity
    let n3 = UInt::from(0b11000000);
    assert_eq!(n1.bitor(&n2).bitor(&n3), n1.bitor(&n2.bitor(&n3))); // associativity
}

#[test]
fn uint_ops_bit_test_bitor_assign() {
    // corner case
    let mut n1 = UInt::new(vec![]);
    let mut n2 = UInt::from(u64::MAX);
    n1.bitor_assign(&n1.clone());
    assert_eq!(n1.clone(), UInt::new(vec![]));
    n2.bitor_assign(&n1);
    assert_eq!(n2, UInt::new(vec![True; u64::BITS as usize]));
    // truth table
    let mut n1 = UInt::from(0b0011);
    let n2 = UInt::from(0b1010);
    n1.bitor_assign(&n2);
    assert_eq!(n1, UInt::from(0b1011));
    // idempotency, commutativity, associativity
    let n1 = UInt::from(0b10011011);
    let n2 = UInt::from(0b10100000);
    let n3 = UInt::from(0b11000000);
    let mut n4 = n1.clone();
    n4.bitor_assign(&n4.clone());
    assert_eq!(n4, n1); // idempotency
    let mut n5 = n2.clone();
    n4.bitor_assign(&n5.clone());
    n5.bitor_assign(&n1.clone());
    assert_eq!(n4, n5); // commutativity
    let mut n4 = n1.clone();
    n4.bitor_assign(&n2.clone());
    n4.bitor_assign(&n3.clone());
    let mut n5 = n1;
    let mut n6 = n2;
    n6.bitor_assign(&n3);
    n5.bitor_assign(&n6);
    assert_eq!(n4, n5); // (pseudo) associativity
}

#[test]
fn uint_ops_bit_test_bitxor() {
    // corner case
    let n1 = UInt::from(0);
    let n2 = UInt::from(u64::MAX);
    assert_eq!(n1.bitxor(&n1), UInt::new(vec![]));
    assert_eq!(n1.bitxor(&n2), UInt::new(vec![True; u64::BITS as usize]));
    // truth table
    let n1 = UInt::from(0b0011);
    let n2 = UInt::from(0b1010);
    assert_eq!(n1.bitxor(&n2), UInt::from(0b1001));
    // commutativity, associativity
    let n1 = UInt::from(0b10011011);
    let n2 = UInt::from(0b10100000);
    assert_eq!(n1.bitxor(&n2), n2.bitxor(&n1)); // commutativity
    let n3 = UInt::from(0b11000000);
    assert_eq!(n1.bitxor(&n2).bitxor(&n3), n1.bitxor(&n2.bitxor(&n3))); // associativity
}

#[test]
fn test_bitxor_assign() {
    // corner case
    let mut n1 = UInt::new(vec![]);
    let mut n2 = UInt::from(u64::MAX);
    n1.bitxor_assign(&n1.clone());
    assert_eq!(n1, UInt::from(0));
    n2.bitxor_assign(&n1);
    assert_eq!(n2, UInt::new(vec![True; u64::BITS as usize]));
    // truth table
    let mut n1 = UInt::from(0b0011);
    let n2 = UInt::from(0b1010);
    n1.bitxor_assign(&n2);
    assert_eq!(n1, UInt::from(0b1001));
    // commutativity, associativity
    let n1 = UInt::from(0b10011011);
    let n2 = UInt::from(0b10100000);
    let n3 = UInt::from(0b11000000);
    let mut n4 = n1.clone();
    let mut n5 = n2.clone();
    n4.bitxor_assign(&n5.clone());
    n5.bitxor_assign(&n1.clone());
    assert_eq!(n4, n5); // commutativity
    let mut n4 = n1.clone();
    n4.bitxor_assign(&n2.clone());
    n4.bitxor_assign(&n3.clone());
    let mut n5 = n1;
    let mut n6 = n2;
    n6.bitxor_assign(&n3);
    n5.bitxor_assign(&n6);
    assert_eq!(n4, n5); // (pseudo) associativity
}

#[test]
fn test_shl() {
    // basics
    assert_eq!(UInt::from(3).shl(&UInt::from(2)), UInt::from(12));
    // corner case
    let left = UInt::from(1).shl(&UInt::from(u64::BITS as u64));
    let right = UInt::new(
        format!("1{:>064}", 0)
            .chars()
            .rev()
            .map(|c| Boolean::from(c == '1'))
            .collect::<Vec<_>>(),
    );
    assert_eq!(left, right);
    // unity
    let unit = UInt::from(0);
    let n = UInt::from(9);
    assert_eq!(n.shl(&unit), n);
}

#[test]
fn test_shl_assign() {
    // basics
    let mut n = UInt::from(3);
    n.shl_assign(&UInt::from(2));
    assert_eq!(n, UInt::from(12));
    // corner case
    let mut left = UInt::from(1);
    left.shl_assign(&UInt::from(u64::BITS as u64));
    let right = UInt::new(
        format!("1{:>064}", 0)
            .chars()
            .rev()
            .map(|c| Boolean::from(c == '1'))
            .collect::<Vec<_>>(),
    );
    assert_eq!(left, right);
    // unity
    let unit = UInt::from(0);
    let mut n = UInt::from(9);
    n.shl_assign(&unit);
    assert_eq!(n, UInt::from(9));
}

#[test]
fn test_shr() {
    // basics
    assert_eq!(UInt::from(0b1101).shr(&UInt::from(2)), UInt::from(0b11));
    // corner case
    let left = UInt::from(1).shr(&UInt::from(10));
    let right = UInt::from(0);
    assert_eq!(left, right);
    // unity
    let unit = UInt::from(0);
    let n = UInt::from(9);
    assert_eq!(n.shr(&unit), n);
}

#[test]
fn test_shr_assign() {
    // basics
    let mut n = UInt::from(0b1101);
    n.shr_assign(&UInt::from(2));
    assert_eq!(n, UInt::from(0b11));
    // corner case
    let mut left = UInt::from(1);
    left.shr_assign(&UInt::from(10));
    let right = UInt::from(0);
    assert_eq!(left, right);
    // unity
    let unit = UInt::from(0);
    let mut n = UInt::from(9);
    n.shr_assign(&unit);
    assert_eq!(n, UInt::from(9));
}
