use big_number::{BigNumber, BigNumberError, NUMBER_SIZE};

/// Independent reference: `base ^ (times + 1)` as base-65536 limbs, least
/// significant first, computed with plain vector arithmetic.
fn reference_power(base: u64, times: usize) -> Vec<u64> {
    let mut limbs: Vec<u64> = vec![base];
    for _ in 0..times {
        let mut carry: u64 = 0;
        for l in limbs.iter_mut() {
            let v: u64 = *l * base + carry;
            *l = v % 65536;
            carry = v / 65536;
        }
        while carry > 0 {
            limbs.push(carry % 65536);
            carry /= 65536;
        }
    }
    limbs
}

/// The number whose limbs are all at the maximum reduced value: the largest
/// representable value.
fn max_value() -> BigNumber {
    let bytes: Vec<u8> = [0xffu8, 0xff, 0, 0].repeat(NUMBER_SIZE);
    BigNumber::from_ne_bytes(&bytes).unwrap()
}

#[test]
fn addition_propagates_the_carry() {
    let a = BigNumber::from(65535).unwrap();
    let one = BigNumber::from(1).unwrap();
    let s = a.add(&one);
    assert_eq!(s.prec[0], 0);
    assert_eq!(s.prec[1], 1);
    assert!(s.equals(&BigNumber::from_upper(65536)));
}

#[test]
fn addition_is_commutative() {
    let a = BigNumber::from_upper(3_000_000_000);
    let b = BigNumber::from_upper(123_456_789);
    assert!(a.add(&b).equals(&b.add(&a)));
}

#[test]
fn addition_is_associative() {
    let a = BigNumber::from_upper(3_000_000_000);
    let b = BigNumber::from_upper(4_000_000_000);
    let c = BigNumber::from(65535).unwrap();
    let left = a.add(&b).add(&c);
    let right = a.add(&b.add(&c));
    assert!(left.equals(&right));
}

#[test]
fn addition_truncates_at_the_fixed_width() {
    let top = max_value();
    let one = BigNumber::from(1).unwrap();
    let wrapped = top.add(&one);
    assert!(wrapped.is_zero());
    // and in place as well
    let mut t = max_value();
    t.add_assign(&one);
    assert!(t.is_zero());
}

#[test]
fn subtraction_borrows_across_limbs() {
    let a = BigNumber::from_upper(65536);
    let one = BigNumber::from(1).unwrap();
    let d = a.sub(&one);
    assert!(d.equals(&BigNumber::from(65535).unwrap()));
}

#[test]
fn subtraction_saturates_at_zero() {
    let zero = BigNumber::empty();
    let one = BigNumber::from(1).unwrap();
    assert!(zero.sub(&one).is_zero());
    let small = BigNumber::from(7).unwrap();
    let big = BigNumber::from_upper(100000);
    assert!(small.sub(&big).is_zero());
    let mut s = BigNumber::from(7).unwrap();
    s.sub_assign(&big);
    assert!(s.is_zero());
}

#[test]
fn subtracting_then_adding_back_is_identity() {
    let a = BigNumber::from_upper(100000);
    let b = BigNumber::from(7).unwrap();
    assert!(a.sub(&b).add(&b).equals(&a));
    // across a borrow
    let c = BigNumber::from_upper(65536);
    let one = BigNumber::from(1).unwrap();
    assert!(c.sub(&one).add(&one).equals(&c));
}

#[test]
fn multiplication_by_one_is_identity() {
    let one = BigNumber::from(1).unwrap();
    let a = BigNumber::from_upper(3_141_592_653);
    assert!(a.mul(&one).equals(&a));
    assert!(one.mul(&a).equals(&a));
}

#[test]
fn multiplication_by_zero_is_zero() {
    let zero = BigNumber::empty();
    let a = BigNumber::from_upper(3_141_592_653);
    assert!(a.mul(&zero).is_zero());
    assert!(zero.mul(&a).is_zero());
}

#[test]
fn multiplication_carries_across_limbs() {
    let a = BigNumber::from(300).unwrap();
    let b = BigNumber::from(400).unwrap();
    assert!(a.mul(&b).equals(&BigNumber::from_upper(120000)));
    let c = BigNumber::from(65535).unwrap();
    let p = c.mul(&c);
    // 65535 * 65535 = 4294836225 = 65534 * 65536 + 1
    assert_eq!(p.prec[0], 1);
    assert_eq!(p.prec[1], 65534);
}

#[test]
fn repeated_multiplication_matches_a_reference() {
    let base = BigNumber::from(65535).unwrap();
    let mut data = BigNumber::from(65535).unwrap();
    for _ in 0..10 {
        data.mul_assign(&base);
    }
    let expected = reference_power(65535, 10);
    assert!(expected.len() <= NUMBER_SIZE);
    for i in 0..NUMBER_SIZE {
        let want: u64 = if i < expected.len() { expected[i] } else { 0 };
        assert_eq!(data.prec[i] as u64, want);
    }
}

#[test]
fn division_yields_the_floor_quotient() {
    let a = BigNumber::from_upper(100000);
    let b = BigNumber::from(7).unwrap();
    let q = a.div(&b).unwrap();
    assert_eq!(q.prec[0], 14285);
    for i in 1..NUMBER_SIZE {
        assert_eq!(q.prec[i], 0);
    }
}

#[test]
fn division_floor_property_holds() {
    let a = BigNumber::from_upper(100000);
    let b = BigNumber::from(7).unwrap();
    let q = a.div(&b).unwrap();
    let lower = q.mul(&b);
    let upper = q.add(&BigNumber::from(1).unwrap()).mul(&b);
    assert!(!lower.gt(&a));
    assert!(upper.gt(&a));
}

#[test]
fn division_of_equal_values_is_one() {
    let b = BigNumber::from(7).unwrap();
    let q = b.div(&b).unwrap();
    assert!(q.equals(&BigNumber::from(1).unwrap()));
}

#[test]
fn division_of_a_smaller_value_is_zero() {
    let small = BigNumber::from(5).unwrap();
    let big = BigNumber::from_upper(100000);
    assert!(small.div(&big).unwrap().is_zero());
}

#[test]
fn division_undoes_multiplication() {
    let base = BigNumber::from(65535).unwrap();
    let mut p11 = BigNumber::from(65535).unwrap();
    for _ in 0..10 {
        p11.mul_assign(&base);
    }
    let mut p10 = BigNumber::from(65535).unwrap();
    for _ in 0..9 {
        p10.mul_assign(&base);
    }
    let q = p11.div(&base).unwrap();
    assert!(q.equals(&p10));
}

#[test]
fn division_by_zero_is_refused() {
    let a = BigNumber::from_upper(100000);
    let zero = BigNumber::empty();
    assert!(matches!(a.div(&zero), Err(BigNumberError::DivisionByZero)));
    let mut d = BigNumber::from_upper(100000);
    assert!(matches!(
        d.div_assign(&zero),
        Err(BigNumberError::DivisionByZero)
    ));
    // the dividend is left untouched
    assert!(d.equals(&a));
}
