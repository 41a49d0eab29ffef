use big_number::{BigNumber, BigNumberError, BASE, NUMBER_SIZE};

#[test]
fn zero_constructors_agree() {
    let a = BigNumber::new();
    let b = BigNumber::empty();
    let c = BigNumber::default();
    assert!(a.is_zero());
    assert!(b.is_zero());
    assert!(c.is_zero());
    assert!(a.equals(&b));
    assert!(a.equals(&c));
    assert_eq!(a.prec.len(), NUMBER_SIZE);
    for i in 0..NUMBER_SIZE {
        assert_eq!(a.prec[i], 0);
    }
}

#[test]
fn from_stores_a_reduced_limb() {
    let a = BigNumber::from(65535).unwrap();
    assert_eq!(a.prec[0], 65535);
    for i in 1..NUMBER_SIZE {
        assert_eq!(a.prec[i], 0);
    }
    assert!(!a.is_zero());
    let z = BigNumber::from(0).unwrap();
    assert!(z.is_zero());
}

#[test]
fn from_refuses_an_unreduced_limb() {
    assert!(matches!(BigNumber::from(BASE), Err(BigNumberError::InvalidInput)));
    assert!(matches!(
        BigNumber::from(u32::MAX),
        Err(BigNumberError::InvalidInput)
    ));
}

#[test]
fn from_upper_round_trip() {
    let a = BigNumber::from_upper(100000);
    assert_eq!(a.prec[0], 100000 % BASE);
    assert_eq!(a.prec[1], 100000 / BASE);
    for i in 2..NUMBER_SIZE {
        assert_eq!(a.prec[i], 0);
    }
    let b = BigNumber::from_upper(65535);
    assert_eq!(b.prec[0], 65535);
    assert_eq!(b.prec[1], 0);
    let c = BigNumber::from_upper(u32::MAX);
    assert_eq!(c.prec[0], 65535);
    assert_eq!(c.prec[1], 65535);
}

#[test]
fn from_ne_bytes_refuses_a_wrong_length() {
    let empty: Vec<u8> = Vec::new();
    assert!(matches!(
        BigNumber::from_ne_bytes(&empty),
        Err(BigNumberError::InvalidInput)
    ));
    let short: Vec<u8> = vec![0u8; NUMBER_SIZE * 4 - 1];
    assert!(matches!(
        BigNumber::from_ne_bytes(&short),
        Err(BigNumberError::InvalidInput)
    ));
    let long: Vec<u8> = vec![0u8; NUMBER_SIZE * 4 + 1];
    assert!(matches!(
        BigNumber::from_ne_bytes(&long),
        Err(BigNumberError::InvalidInput)
    ));
}

#[test]
fn from_ne_bytes_decodes_four_byte_limbs() {
    let mut bytes: Vec<u8> = vec![0u8; NUMBER_SIZE * 4];
    // limb 0: 12345 = 0x3039, little-endian group
    bytes[0] = 0x39;
    bytes[1] = 0x30;
    // limb 1: 65536 = 0x10000, unreduced on purpose: no validation happens
    bytes[6] = 0x01;
    // limb 2549: 7
    bytes[4 * 2549] = 7;
    let a = BigNumber::from_ne_bytes(&bytes).unwrap();
    assert_eq!(a.prec[0], 12345);
    assert_eq!(a.prec[1], 65536);
    assert_eq!(a.prec[2549], 7);
    for i in 2..NUMBER_SIZE - 1 {
        assert_eq!(a.prec[i], 0);
    }
}

#[test]
fn ordering_is_by_magnitude() {
    let small = BigNumber::from(7).unwrap();
    let big = BigNumber::from_upper(100000);
    assert!(small.lt(&big));
    assert!(big.gt(&small));
    assert!(!big.lt(&small));
    assert!(!small.gt(&big));
    assert!(!small.lt(&small));
    assert!(!small.gt(&small));
    assert!(small.equals(&small));
    assert!(!small.equals(&big));
    // equality is decided by the limbs, however the value was built
    let a = BigNumber::from_upper(65535);
    let b = BigNumber::from(65535).unwrap();
    assert!(a.equals(&b));
}

#[test]
fn leading_zeros_of_zero_is_the_whole_width() {
    let z = BigNumber::empty();
    assert_eq!(z.leading_zeros(), NUMBER_SIZE * 32);
}

#[test]
fn leading_zeros_ignores_the_limb_position() {
    let one = BigNumber::from(1).unwrap();
    assert_eq!(one.leading_zeros(), 31);
    // same most significant limb, one position higher: same count
    let base = BigNumber::from_upper(65536);
    assert_eq!(base.leading_zeros(), 31);
    let full = BigNumber::from(65535).unwrap();
    assert_eq!(full.leading_zeros(), 16);
    let two = BigNumber::from(2).unwrap();
    assert_eq!(two.leading_zeros(), 30);
}

#[test]
fn leading_zeros_uses_the_full_storage_width() {
    // an unreduced limb still counts over all 32 bits of its slot
    let mut bytes: Vec<u8> = vec![0u8; NUMBER_SIZE * 4];
    bytes[NUMBER_SIZE * 4 - 1] = 0x80;
    let a = BigNumber::from_ne_bytes(&bytes).unwrap();
    assert_eq!(a.leading_zeros(), 0);
}

#[test]
fn rotation_moves_low_limbs_to_the_top() {
    let mut a = BigNumber::from(1).unwrap();
    a.rotated_right(1);
    assert_eq!(a.prec[0], 0);
    assert_eq!(a.prec[NUMBER_SIZE - 1], 1);
}

#[test]
fn rotation_by_zero_or_full_turns_is_identity() {
    let reference = BigNumber::from_upper(100000);
    let mut a = reference.duplicate();
    a.rotated_right(0);
    assert!(a.equals(&reference));
    a.rotated_right(NUMBER_SIZE);
    assert!(a.equals(&reference));
    a.rotated_right(2 * NUMBER_SIZE);
    assert!(a.equals(&reference));
}

#[test]
fn rotation_reduces_the_shift_modulo_the_width() {
    let mut a = BigNumber::from(9).unwrap();
    let mut b = BigNumber::from(9).unwrap();
    a.rotated_right(3);
    b.rotated_right(NUMBER_SIZE + 3);
    assert!(a.equals(&b));
    assert_eq!(a.prec[NUMBER_SIZE - 3], 9);
}

#[test]
fn rotation_round_trip_restores_the_limbs() {
    let mut a = BigNumber::from_upper(u32::MAX);
    a.prec[17] = 4242;
    let reference = a.duplicate();
    a.rotated_right(7);
    assert!(!a.equals(&reference));
    a.rotated_right(NUMBER_SIZE - 7);
    assert!(a.equals(&reference));
    let mut b = reference.duplicate();
    b.rotated_right(1);
    b.rotated_right(NUMBER_SIZE - 1);
    assert!(b.equals(&reference));
}
