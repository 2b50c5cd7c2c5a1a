use biguint::{BigUint, ParseBigIntError};

fn n(x: u64) -> BigUint {
    BigUint::from_u64(x)
}

#[test]
fn render_255_as_hex() {
    assert_eq!(BigUint::from_u32(255).to_str_radix(16), "ff");
}

#[test]
fn bytes_be_construction() {
    assert_eq!(BigUint::from_bytes_be(&[0x01, 0x00]), BigUint::from_u32(256));
}

#[test]
fn checked_sub_underflow_is_none() {
    assert_eq!(BigUint::from_u32(100).checked_sub(&BigUint::from_u32(150)), None);
}

#[test]
fn checked_sub_exact_and_ordinary() {
    assert_eq!(n(150).checked_sub(&n(150)), Some(BigUint::zero()));
    assert_eq!(n(150).checked_sub(&n(100)), Some(n(50)));
}

#[test]
fn modpow_seven_to_128_mod_13() {
    let b = BigUint::from_u32(7);
    let e = BigUint::from_u32(128);
    let m = BigUint::from_u32(13);
    assert_eq!(b.modpow(&e, &m), BigUint::from_u32(3));
}

#[test]
fn shift_one_left_64() {
    let x = BigUint::one().shl(64);
    assert_eq!(x.to_u64_digits().len(), 2);
    assert_eq!(x, BigUint::from_str_radix("18446744073709551616", 10).unwrap());
}

#[test]
fn string_roundtrip_all_radixes() {
    let samples: Vec<u64> = vec![0, 1, 2, 35, 36, 255, 256, 4294967295, 4294967296, 987654321987654321];
    for &v in samples.iter() {
        for radix in 2..=36u32 {
            let x = n(v);
            let s = x.to_str_radix(radix);
            let back = BigUint::from_str_radix(s.as_str(), radix).unwrap();
            assert_eq!(back, x);
        }
    }
}

#[test]
fn bytes_roundtrip_both_endiannesses() {
    let samples: Vec<u64> = vec![0, 1, 255, 256, 65535, 4294967296, 18446744073709551615];
    for &v in samples.iter() {
        let x = n(v);
        assert_eq!(BigUint::from_bytes_be(&x.to_bytes_be()), x);
        assert_eq!(BigUint::from_bytes_le(&x.to_bytes_le()), x);
    }
}

#[test]
fn zero_encodes_as_empty_bytes() {
    assert_eq!(BigUint::zero().to_bytes_be(), Vec::<u8>::new());
    assert_eq!(BigUint::zero().to_bytes_le(), Vec::<u8>::new());
    assert_eq!(BigUint::from_bytes_be(&[]), BigUint::zero());
}

#[test]
fn add_sub_cancel() {
    let a = BigUint::from_str_radix("123456789012345678901234567890", 10).unwrap();
    let b = BigUint::from_str_radix("99999999999999999999", 10).unwrap();
    assert_eq!(a.add(&b).sub(&b), a);
}

#[test]
fn add_carries_across_limbs() {
    let a = n(0xFFFF_FFFF);
    let s = a.add(&BigUint::one());
    assert_eq!(s.to_u64(), Some(0x1_0000_0000));
    let big = n(u64::MAX);
    let s2 = big.add(&BigUint::one());
    assert_eq!(s2.to_u64(), None);
    assert_eq!(s2.to_str_radix(10), "18446744073709551616");
}

#[test]
fn mul_matches_u128() {
    let a: u64 = 0xDEAD_BEEF_CAFE_F00D;
    let b: u64 = 0x1234_5678_9ABC_DEF0;
    let p = (a as u128) * (b as u128);
    let r = n(a).mul(&n(b));
    assert_eq!(r.to_str_radix(10), p.to_string());
}

#[test]
fn div_rem_identity_holds() {
    let a = BigUint::from_str_radix("123456789012345678901234567890123", 10).unwrap();
    let b = BigUint::from_str_radix("9876543210987", 10).unwrap();
    let (q, r) = a.div_rem(&b);
    assert!(r.lt(&b));
    assert_eq!(q.mul(&b).add(&r), a);
    assert_eq!(a.div(&b), q);
    assert_eq!(a.rem(&b), r);
}

#[test]
fn checked_div_by_zero_is_none() {
    assert_eq!(n(5).checked_div(&BigUint::zero()), None);
    assert_eq!(n(5).checked_div(&n(2)), Some(n(2)));
}

#[test]
fn checked_add_and_mul_always_succeed() {
    assert_eq!(n(3).checked_add(&n(4)), Some(n(7)));
    assert_eq!(n(3).checked_mul(&n(4)), Some(n(12)));
}

#[test]
fn parse_error_variants() {
    assert_eq!(BigUint::from_str_radix("10", 1), Err(ParseBigIntError::InvalidRadix));
    assert_eq!(BigUint::from_str_radix("10", 37), Err(ParseBigIntError::InvalidRadix));
    assert_eq!(BigUint::from_str_radix("", 10), Err(ParseBigIntError::Empty));
    assert_eq!(BigUint::from_str_radix("12a", 10), Err(ParseBigIntError::InvalidDigit));
    assert_eq!(BigUint::from_str_radix("12\u{00e9}", 10), Err(ParseBigIntError::InvalidDigit));
    assert_eq!(BigUint::from_str("987654321"), Ok(n(987654321)));
    assert_eq!(BigUint::from_str(""), Err(ParseBigIntError::Empty));
}

#[test]
fn parse_accepts_upper_and_lower_hex() {
    assert_eq!(BigUint::from_str_radix("FF", 16), Ok(n(255)));
    assert_eq!(BigUint::from_str_radix("ff", 16), Ok(n(255)));
    assert_eq!(BigUint::from_str_radix("z", 36), Ok(n(35)));
}

#[test]
fn parse_bytes_matches_str_parse() {
    assert_eq!(BigUint::parse_bytes(b"1234", 10), Some(n(1234)));
    assert_eq!(BigUint::parse_bytes(b"", 10), None);
    assert_eq!(BigUint::parse_bytes(b"12a", 10), None);
    assert_eq!(BigUint::parse_bytes(b"12a", 16), Some(n(0x12a)));
    assert_eq!(BigUint::parse_bytes(b"99", 8), None);
}

#[test]
fn radix_digit_arrays() {
    let x = n(255);
    assert_eq!(x.to_radix_be(16), vec![15, 15]);
    assert_eq!(x.to_radix_le(16), vec![15, 15]);
    let y = n(259);
    assert_eq!(y.to_radix_be(256), vec![1, 3]);
    assert_eq!(y.to_radix_le(256), vec![3, 1]);
    assert_eq!(BigUint::from_radix_be(&[1, 3], 256), Some(n(259)));
    assert_eq!(BigUint::from_radix_le(&[3, 1], 256), Some(n(259)));
    assert_eq!(BigUint::from_radix_be(&[2, 1, 0], 3), Some(n(21)));
    assert_eq!(BigUint::from_radix_be(&[3, 1], 3), None);
    assert_eq!(BigUint::from_radix_le(&[1], 1), None);
    assert_eq!(BigUint::from_radix_le(&[], 10), Some(BigUint::zero()));
}

#[test]
fn bit_get_and_set() {
    let mut x = BigUint::zero();
    x.set_bit(100, true);
    assert!(x.bit(100));
    assert!(!x.bit(99));
    assert!(!x.bit(101));
    assert_eq!(x, BigUint::one().shl(100));
    x.set_bit(100, false);
    assert_eq!(x, BigUint::zero());
    let mut y = n(0b1010);
    y.set_bit(0, true);
    assert_eq!(y.to_u64(), Some(0b1011));
}

#[test]
fn count_ones_and_trailing() {
    assert_eq!(n(0b1011_0100).count_ones(), 4);
    assert_eq!(BigUint::zero().count_ones(), 0);
    assert_eq!(n(8).trailing_zeros(), Some(3));
    assert_eq!(BigUint::one().shl(70).trailing_zeros(), Some(70));
    assert_eq!(BigUint::zero().trailing_zeros(), None);
    assert_eq!(n(7).trailing_ones(), 3);
    assert_eq!(n(8).trailing_ones(), 0);
    assert_eq!(n(u64::MAX).trailing_ones(), 64);
}

#[test]
fn shifts_are_inverse_on_multiples() {
    let x = BigUint::from_str_radix("987654321987654321987654321", 10).unwrap();
    assert_eq!(x.shl(77).shr(77), x);
    assert_eq!(n(0b1101).shr(2), n(0b11));
}

#[test]
fn word_wise_logic() {
    let a = n(0b1100);
    let b = n(0b1010);
    assert_eq!(a.bitand(&b).to_u64(), Some(0b1000));
    assert_eq!(a.bitor(&b).to_u64(), Some(0b1110));
    assert_eq!(a.bitxor(&b).to_u64(), Some(0b0110));
    let big = BigUint::one().shl(100);
    assert_eq!(big.bitand(&a), BigUint::zero());
    assert_eq!(big.bitor(&a).bitxor(&big), a);
}

#[test]
fn bits_counts_significant_bits() {
    assert_eq!(BigUint::zero().bits(), 0);
    assert_eq!(BigUint::one().bits(), 1);
    assert_eq!(n(255).bits(), 8);
    assert_eq!(n(256).bits(), 9);
    assert_eq!(BigUint::one().shl(100).bits(), 101);
}

#[test]
fn gcd_lcm_conventions() {
    assert_eq!(n(12).gcd(&n(18)), n(6));
    assert_eq!(n(17).gcd(&n(5)), n(1));
    assert_eq!(BigUint::zero().gcd(&BigUint::zero()), BigUint::zero());
    assert_eq!(n(12).gcd(&BigUint::zero()), n(12));
    assert_eq!(n(4).lcm(&n(6)), n(12));
    assert_eq!(n(4).lcm(&BigUint::zero()), BigUint::zero());
}

#[test]
fn integer_relations() {
    assert!(n(12).is_multiple_of(&n(4)));
    assert!(!n(12).is_multiple_of(&n(5)));
    assert!(n(12).divides(&n(4)));
    assert!(BigUint::zero().is_multiple_of(&BigUint::zero()));
    assert!(!n(3).is_multiple_of(&BigUint::zero()));
    assert!(n(12).is_even());
    assert!(!n(12).is_odd());
    assert!(n(13).is_odd());
    assert!(BigUint::zero().is_even());
    assert_eq!(n(13).div_floor(&n(4)), n(3));
    assert_eq!(n(13).mod_floor(&n(4)), n(1));
    let (q, r) = n(13).div_rem(&n(4));
    assert_eq!((q, r), (n(3), n(1)));
}

#[test]
fn pow_and_roots() {
    assert_eq!(n(3).pow(5), n(243));
    assert_eq!(n(7).pow(0), BigUint::one());
    assert_eq!(BigUint::zero().pow(0), BigUint::one());
    assert_eq!(n(2).pow(100), BigUint::one().shl(100));
    assert_eq!(n(27).cbrt(), n(3));
    assert_eq!(n(28).cbrt(), n(3));
    assert_eq!(n(26).cbrt(), n(2));
    assert_eq!(n(17).nth_root(2), n(4));
    assert_eq!(n(16).nth_root(2), n(4));
    assert_eq!(n(1000000).nth_root(1), n(1000000));
    assert_eq!(BigUint::zero().nth_root(3), BigUint::zero());
}

#[test]
fn modpow_edge_cases() {
    // any base to any power modulo 1 is 0
    assert_eq!(n(7).modpow(&n(99), &BigUint::one()), BigUint::zero());
    // exponent 0 gives 1 mod m
    assert_eq!(n(7).modpow(&BigUint::zero(), &n(13)), BigUint::one());
    // large exponent spanning several limbs
    let e = BigUint::one().shl(65);
    let got = n(3).modpow(&e, &n(1000000007));
    // 3^(2^65) mod 1000000007 computed by repeated squaring on u128
    let mut acc: u128 = 3;
    for _ in 0..65 {
        acc = acc * acc % 1000000007;
    }
    assert_eq!(got.to_u64(), Some(acc as u64));
}

#[test]
fn ordering_and_equality() {
    let a = n(100);
    let b = n(200);
    assert!(a.lt(&b));
    assert!(!b.lt(&a));
    assert!(a.le(&b));
    assert!(a.le(&a));
    assert!(a == a.clone());
    assert!(a != b);
    let c = BigUint::from_str_radix("123456789012345678901234567890", 10).unwrap();
    let d = BigUint::from_str_radix("123456789012345678901234567891", 10).unwrap();
    assert!(c.lt(&d));
    assert!(!d.lt(&c));
}

#[test]
fn construction_normalizes() {
    assert_eq!(BigUint::new(vec![5, 0, 0]), BigUint::from_u32(5));
    assert_eq!(BigUint::new(vec![]), BigUint::zero());
    assert_eq!(BigUint::from_slice(&[0, 1]), BigUint::one().shl(32));
    let mut x = n(7);
    x.assign_from_slice(&[9]);
    assert_eq!(x, n(9));
    assert_eq!(BigUint::default(), BigUint::zero());
}

#[test]
fn digit_views() {
    let x = BigUint::one().shl(64);
    assert_eq!(x.to_u32_digits(), vec![0, 0, 1]);
    assert_eq!(x.to_u64_digits(), vec![0, 1]);
    assert_eq!(BigUint::zero().to_u32_digits(), Vec::<u32>::new());
}

#[test]
fn to_u64_bounds() {
    assert_eq!(n(u64::MAX).to_u64(), Some(u64::MAX));
    assert_eq!(BigUint::zero().to_u64(), Some(0));
    assert_eq!(n(u64::MAX).add(&BigUint::one()).to_u64(), None);
}

#[test]
fn decimal_rendering_matches_display_of_u64() {
    for v in [0u64, 9, 10, 12345678901234567890] {
        assert_eq!(n(v).to_str_radix(10), v.to_string());
    }
}

#[test]
fn uppercase_rendering() {
    assert_eq!(BigUint::from_u32(255).to_str_radix_uppercase(16), "FF");
    assert_eq!(BigUint::zero().to_str_radix_uppercase(16), "0");
    let x = BigUint::from_str_radix("123456789ABCDEF", 16).unwrap();
    let s = x.to_str_radix_uppercase(16);
    assert_eq!(s, "123456789ABCDEF");
    assert_eq!(BigUint::from_str_radix(s.as_str(), 16).unwrap(), x);
}
