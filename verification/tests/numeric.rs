use comm::hex::to_hex;
use comm::numeric::Numeric;

#[test]
fn test_numeric_limbs() {
    let number = Numeric::new(3, 9);
    assert_eq!(number.high(), 3);
    assert_eq!(number.low(), 9);
    assert_eq!(Numeric::zero(), Numeric::new(0, 0));
}

#[test]
fn test_numeric_order() {
    let small = Numeric::new(0, u128::MAX);
    let large = Numeric::new(1, 0);
    assert!(small.is_below(&large));
    assert!(!large.is_below(&small));
    assert!(!small.is_below(&small));
    assert!(small.is_at_most(&small));
    assert!(small.is_at_most(&large));
    assert!(!large.is_at_most(&small));
    assert!(small < large);
}

#[test]
fn test_numeric_difference_borrows() {
    let a = Numeric::new(2, 5);
    let b = Numeric::new(0, 7);
    assert_eq!(a.difference(&b), Numeric::new(1, u128::MAX - 1));
    assert_eq!(a.difference(&a), Numeric::zero());
    assert_eq!(Numeric::new(5, 9).difference(&Numeric::new(2, 4)), Numeric::new(3, 5));
}

#[test]
fn test_numeric_sum_carries() {
    let a = Numeric::new(1, u128::MAX);
    let b = Numeric::new(0, 2);
    assert_eq!(a.sum(&b), Numeric::new(2, 1));
    assert_eq!(Numeric::new(1, 2).sum(&Numeric::new(3, 4)), Numeric::new(4, 6));
    assert_eq!(b.sum_within(&a, &Numeric::new(3, 0)), Numeric::new(2, 1));
}

#[test]
fn test_numeric_half() {
    assert_eq!(Numeric::new(1, 0).half(), Numeric::new(0, 1u128 << 127));
    assert_eq!(Numeric::new(3, 7).half(), Numeric::new(1, (1u128 << 127) + 3));
    assert_eq!(Numeric::new(0, 1).half(), Numeric::zero());
}

#[test]
fn test_numeric_xor() {
    let a = Numeric::new(0b1100, 0b1010);
    let b = Numeric::new(0b1010, 0b0110);
    assert_eq!(a.xor_with(&b), Numeric::new(0b0110, 0b1100));
}

#[test]
fn test_numeric_bytes() {
    let number = Numeric::new(0x0102, 0x0304_0506_0708_090a_0b0c_0d0e_0f10_1112);
    let bytes = number.to_bytes_be(18);
    assert_eq!(bytes, (1..=18).collect::<Vec<u8>>());
    assert_eq!(Numeric::from_bytes_be(&bytes), Some(number));
    assert_eq!(Numeric::zero().to_bytes_be(0), Vec::<u8>::new());
    assert_eq!(Numeric::from_bytes_be(&[]), Some(Numeric::zero()));
    assert_eq!(Numeric::new(0, 0x1234).to_bytes_be(4), vec![0, 0, 0x12, 0x34]);
}

#[test]
fn test_numeric_from_bytes_that_spell_too_much() {
    let mut bytes = vec![1u8];
    bytes.extend(vec![0u8; 24]);
    assert_eq!(Numeric::from_bytes_be(&bytes), None);
    let mut bytes = vec![0u8, 0, 0xff];
    bytes.extend(vec![0xffu8; 23]);
    assert_eq!(Numeric::from_bytes_be(&bytes), Some(Numeric::new(u64::MAX, u128::MAX)));
}

#[test]
fn test_to_hex() {
    assert_eq!(to_hex(&[0x00, 0x9a, 0xff, 0x10]), "009aff10");
    assert_eq!(to_hex(&[]), "");
}
