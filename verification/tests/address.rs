use comm::address::{Address, LENGTH};
use comm::hex::HexError;
use comm::numeric::Numeric;

fn two_to_the(exponent: u32) -> Numeric {
    if exponent < 128 {
        Numeric::new(0, 1u128 << exponent)
    } else {
        Numeric::new(1u64 << (exponent - 128), 0)
    }
}

#[test]
fn test_for_content() {
    let address = Address::for_content("some string");
    assert_eq!(address.to_str(), "8b45e4bd1c6acb88bebf6407d16205f567e62a3e");
}

#[test]
fn test_from_numeric() {
    let numeric = Numeric::new(0, 0x0000000000000000000000000000000000000001);
    let address = Address::from_numeric(numeric);
    assert_eq!(address.as_numeric(), Numeric::new(0, 0x0000000000000000000000000000000000000001));
    assert_eq!(address.to_str(), "0000000000000000000000000000000000000001");

    let numeric = two_to_the(158).difference(&two_to_the(157)).difference(&two_to_the(156));
    let address = Address::from_numeric(numeric.clone());
    assert_eq!(address.as_numeric(), numeric);
    assert_eq!(address.to_str(), "1000000000000000000000000000000000000000");

    let numeric = two_to_the(LENGTH as u32).difference(&Numeric::new(0, 1));
    let address = Address::from_numeric(numeric);
    assert_eq!(
        address.as_numeric(),
        two_to_the(LENGTH as u32).difference(&Numeric::new(0, 1))
    );
    assert_eq!(address.to_str(), "ffffffffffffffffffffffffffffffffffffffff");
}

#[test]
fn test_from_str() {
    let address = Address::from_str("8b45e4bd1c6acb88bebf6407d16205f567e62a3e").unwrap();
    assert_eq!(address.to_str(), "8b45e4bd1c6acb88bebf6407d16205f567e62a3e");
}

#[test]
fn test_as_numeric() {
    let address = Address::from_str("000000000000000000000000000000000000000f").unwrap();
    assert_eq!(address.as_numeric(), Numeric::new(0, 15));
    let address = Address::from_str("00000000000000000000000000000000000000f0").unwrap();
    assert_eq!(address.as_numeric(), Numeric::new(0, 240));
}

#[test]
fn test_equal() {
    let a = Address::from_str("8b45e4bd1c6acb88bebf6407d16205f567e62a3e").unwrap();
    let b = Address::from_str("8b45e4bd1c6acb88bebf6407d16205f567e62a3e").unwrap();
    assert_eq!(a, b);
}

#[test]
fn test_not_equal() {
    let a = Address::from_str("8b45e4bd1c6acb88bebf6407d16205f567e62a3e").unwrap();
    let b = Address::from_str("8b45e4bd1c6acb88bebf6407d16205f567e62a3f").unwrap();
    assert!(a != b);
}

#[test]
fn test_null_is_zero() {
    assert_eq!(Address::null().as_numeric(), Numeric::zero());
    assert_eq!(Address::null().to_str(), "0000000000000000000000000000000000000000");
}

#[test]
fn test_from_str_rejects_other_characters() {
    assert_eq!(
        Address::from_str("8b45e4bd1c6acb88bebf6407d16205f567e62a3g"),
        Err(HexError::InvalidCharacter('g', 39))
    );
}

#[test]
fn test_from_str_rejects_half_a_byte() {
    assert_eq!(Address::from_str("8b4"), Err(HexError::InvalidLength));
}

#[test]
fn test_from_str_reads_upper_case() {
    let address = Address::from_str("8B45E4BD1C6ACB88BEBF6407D16205F567E62A3E").unwrap();
    assert_eq!(address.to_str(), "8b45e4bd1c6acb88bebf6407d16205f567e62a3e");
}

#[test]
fn test_from_str_pads_short_text_with_zeros() {
    let address = Address::from_str("ff").unwrap();
    assert_eq!(address.to_str(), "ff00000000000000000000000000000000000000");
}

#[test]
fn test_from_str_cuts_long_text() {
    let address = Address::from_str("8b45e4bd1c6acb88bebf6407d16205f567e62a3eff").unwrap();
    assert_eq!(address.to_str(), "8b45e4bd1c6acb88bebf6407d16205f567e62a3e");
}

#[test]
fn test_from_bytes_and_back() {
    let bytes: Vec<u8> = (1..=20).collect();
    let address = Address::from_bytes(&bytes);
    assert_eq!(address.to_bytes(), bytes);
    assert_eq!(address.to_str(), "0102030405060708090a0b0c0d0e0f1011121314");
}

#[test]
fn test_from_numeric_cuts_to_the_address_space() {
    let address = Address::from_numeric(Numeric::new(0x1_0000_0005, 7));
    assert_eq!(address.as_numeric(), Numeric::new(5, 7));
}

#[test]
fn test_text_round_trip() {
    for text in [
        "0000000000000000000000000000000000000000",
        "ffffffffffffffffffffffffffffffffffffffff",
        "8b45e4bd1c6acb88bebf6407d16205f567e62a3e",
        "00000000000000000000000100000000000000ff",
    ] {
        let address = Address::from_str(text).unwrap();
        assert_eq!(Address::from_str(&address.to_str()), Ok(address));
        assert_eq!(address.to_str(), text);
    }
}

#[test]
fn test_distance_is_exclusive_or() {
    let a = Address::from_str("00000000000000000000000000000000000000f0").unwrap();
    let b = Address::from_str("000000000000000000000000000000000000003c").unwrap();
    assert_eq!(a.distance_from(&b), Numeric::new(0, 0xcc));
    let c = Address::from_str("8000000000000000000000000000000000000001").unwrap();
    assert_eq!(c.distance_from(&a), Numeric::new(0x8000_0000, 0xf1));
}

#[test]
fn test_distance_is_symmetric_and_zero_to_self() {
    let a = Address::for_content("a");
    let b = Address::for_content("b");
    assert_eq!(a.distance_from(&b), b.distance_from(&a));
    assert_eq!(a.distance_from(&a), Numeric::zero());
    assert!(a.distance_from(&b) != Numeric::zero());
}

#[test]
fn test_random_is_within_bounds() {
    let min = Numeric::new(0, 1000);
    let max = Numeric::new(0, 1003);
    let mut drawn = Vec::new();
    for _ in 0..100 {
        let address = Address::random(&min, &max).expect("no randomness");
        let numeric = address.as_numeric();
        assert!(min <= numeric && numeric < max);
        drawn.push(numeric);
    }
    // a hundred draws out of three numbers are not all the same
    assert!(drawn.iter().any(|numeric| *numeric != drawn[0]));
    let only = Address::random(&Numeric::new(7, 7), &Numeric::new(7, 8)).expect("no randomness");
    assert_eq!(only.as_numeric(), Numeric::new(7, 7));
    let min = Numeric::new(0x7fff_ffff, u128::MAX);
    let max = Numeric::new(0x8000_0000, 1);
    for _ in 0..20 {
        let numeric = Address::random(&min, &max).expect("no randomness").as_numeric();
        assert!(min <= numeric && numeric < max);
    }
}

#[test]
fn test_random_with_a_generator_is_within_bounds() {
    let mut generator = rand::StdRng::new().expect("no randomness");
    let min = Numeric::new(3, 10);
    let max = Numeric::new(3, 14);
    let mut drawn = Vec::new();
    for _ in 0..100 {
        let numeric = Address::random_with(&mut generator, &min, &max).as_numeric();
        assert!(min <= numeric && numeric < max);
        drawn.push(numeric);
    }
    assert!(drawn.iter().any(|numeric| *numeric != drawn[0]));
    let beyond = Address::random_with(&mut generator, &Numeric::new(1 << 32, 5), &Numeric::new(1 << 32, 6));
    assert_eq!(beyond.as_numeric(), Numeric::new(0, 5));
}

#[test]
fn test_from_str_passes_over_white_space() {
    let address = Address::from_str(" 8b45e4bd1c6acb88bebf\r\n6407d16205f567e62a3e\t").unwrap();
    assert_eq!(address.to_str(), "8b45e4bd1c6acb88bebf6407d16205f567e62a3e");
    assert_eq!(Address::from_str(" \n"), Ok(Address::null()));
    assert_eq!(Address::from_str(""), Ok(Address::null()));
    assert_eq!(Address::from_str("a b"), Ok(Address::from_str("ab").unwrap()));
}

#[test]
fn test_from_str_reports_the_first_stray_character_before_a_digit_left_alone() {
    assert_eq!(Address::from_str("abc"), Err(HexError::InvalidLength));
    assert_eq!(Address::from_str("a c"), Ok(Address::from_str("ac").unwrap()));
    assert_eq!(Address::from_str("ab c"), Err(HexError::InvalidLength));
    assert_eq!(Address::from_str("a-c"), Err(HexError::InvalidCharacter('-', 1)));
    assert_eq!(Address::from_str("ab -c+"), Err(HexError::InvalidCharacter('-', 3)));
    assert_eq!(Address::from_str("zz"), Err(HexError::InvalidCharacter('z', 0)));
    assert_eq!(Address::from_str("0 1\u{e9}"), Err(HexError::InvalidCharacter('\u{e9}', 3)));
    assert_eq!(Address::from_str("0\u{b}1"), Err(HexError::InvalidCharacter('\u{b}', 1)));
}
