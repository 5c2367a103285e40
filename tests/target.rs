use garlicoin::uint::{CompactError, Uint256};

fn limbs(a: u64, b: u64, c: u64, d: u64) -> Uint256 {
    Uint256::from_limbs([a, b, c, d])
}

#[test]
fn compact_small_exponents() {
    assert_eq!(Uint256::from_compact(0x0112_3456), Ok(Uint256::from_u64(0x12)));
    assert_eq!(Uint256::from_compact(0x0212_3456), Ok(Uint256::from_u64(0x1234)));
    assert_eq!(Uint256::from_compact(0x0312_3456), Ok(Uint256::from_u64(0x12_3456)));
    assert_eq!(Uint256::from_compact(0x0412_3456), Ok(Uint256::from_u64(0x1234_5600)));
    assert_eq!(Uint256::from_compact(0x0012_3456), Ok(Uint256::zero()));
}

#[test]
fn compact_legacy_limit() {
    assert_eq!(Uint256::from_compact(0x1d00_ffff), Ok(limbs(0x0000_0000_ffff_0000, 0, 0, 0)));
}

#[test]
fn compact_rejects_sign_and_overflow() {
    assert_eq!(Uint256::from_compact(0x0480_0000), Err(CompactError::Negative));
    assert_eq!(Uint256::from_compact(0x04ff_ffff), Err(CompactError::Negative));
    assert_eq!(Uint256::from_compact(0x0180_0000), Err(CompactError::Negative));
    assert_eq!(Uint256::from_compact(0xff12_3456), Err(CompactError::Overflow));
    assert_eq!(Uint256::from_compact(0x2101_0000), Err(CompactError::Overflow));
    assert_eq!(Uint256::from_compact(0x2100_ffff), Ok(limbs(0xffff_0000_0000_0000, 0, 0, 0)));
    assert_eq!(Uint256::from_compact(0xff00_0000), Ok(Uint256::zero()));
}

#[test]
fn compact_of_limits() {
    let main = limbs(0x0000_0fff_ffff_ffff, u64::MAX, u64::MAX, u64::MAX);
    assert_eq!(main.to_compact(), 0x1e0f_ffff);
    let back = Uint256::from_compact(0x1e0f_ffff).unwrap();
    assert_eq!(back, limbs(0x0000_0fff_ff00_0000, 0, 0, 0));
    assert!(back.le(&main));
    let regtest = limbs(0x7fff_ffff_ffff_ffff, u64::MAX, u64::MAX, u64::MAX);
    assert_eq!(regtest.to_compact(), 0x207f_ffff);
}

#[test]
fn compact_of_small_values() {
    assert_eq!(Uint256::zero().to_compact(), 0);
    assert_eq!(Uint256::from_u64(0x12).to_compact(), 0x0112_0000);
    assert_eq!(Uint256::from_u64(0x80).to_compact(), 0x0200_8000);
    assert_eq!(Uint256::from_u64(0x1234_5678).to_compact(), 0x0412_3456);
    let v = Uint256::from_u64(0x7f_ffff);
    assert_eq!(Uint256::from_compact(v.to_compact()), Ok(v));
    let legacy = Uint256::from_compact(0x1d00_ffff).unwrap();
    assert_eq!(legacy.to_compact(), 0x1d00_ffff);
}

#[test]
fn multiply_and_divide() {
    assert_eq!(Uint256::from_u64(3).mul_u64(5), (Uint256::from_u64(15), 0));
    let max = limbs(u64::MAX, u64::MAX, u64::MAX, u64::MAX);
    assert_eq!(max.mul_u64(2), (limbs(u64::MAX, u64::MAX, u64::MAX, u64::MAX - 1), 1));
    assert_eq!(limbs(0, 0, 1, 0).mul_u64(u64::MAX), (limbs(0, 0, u64::MAX - 1 + 1, 0), 0));
    assert_eq!(Uint256::from_u64(17).div_rem_u64(0, 5), (Uint256::from_u64(3), 2));
    assert_eq!(Uint256::zero().div_rem_u64(1, 2), (limbs(0x8000_0000_0000_0000, 0, 0, 0), 0));
    assert_eq!(limbs(0, 0, 1, 0).div_rem_u64(0, 2), (limbs(0, 0, 0, 0x8000_0000_0000_0000), 0));
}

#[test]
fn ordering_and_zero() {
    assert!(Uint256::zero().is_zero());
    assert!(!Uint256::from_u64(1).is_zero());
    assert!(limbs(0, 1, 0, 0).le(&limbs(1, 0, 0, 0)));
    assert!(!limbs(1, 0, 0, 0).le(&limbs(0, u64::MAX, u64::MAX, u64::MAX)));
    assert!(limbs(0, 0, 0, 5).le(&limbs(0, 0, 0, 5)));
    assert_eq!(limbs(9, 9, 9, 0x1234).low_u64(), 0x1234);
}

#[test]
fn shifts() {
    let one = Uint256::from_u64(1);
    assert_eq!(one.shl(0), one);
    assert_eq!(one.shl(64), limbs(0, 0, 1, 0));
    assert_eq!(one.shl(255), limbs(0x8000_0000_0000_0000, 0, 0, 0));
    assert_eq!(one.shl(256), Uint256::zero());
    assert_eq!(one.shl(1000), Uint256::zero());
    assert_eq!(limbs(0xffff_0000_0000_0000, 0, 0, 1).shl(8), limbs(0xff00_0000_0000_0000, 0, 0, 0x100));
    let top = limbs(0x8000_0000_0000_0000, 0, 0, 0);
    assert_eq!(top.shr(255), one);
    assert_eq!(top.shr(256), Uint256::zero());
    assert_eq!(top.shr(u32::MAX), Uint256::zero());
    assert_eq!(limbs(0, 0, 1, 0).shr(1), limbs(0, 0, 0, 0x8000_0000_0000_0000));
    assert_eq!(Uint256::from_u64(0x1234).shr(4), Uint256::from_u64(0x123));
}

#[test]
fn compact_round_trip_never_grows() {
    for v in [
        Uint256::from_u64(1),
        Uint256::from_u64(0x7f_ffff),
        Uint256::from_u64(0x80_0000),
        Uint256::from_u64(0xffff_ffff_ffff_ffff),
        limbs(0x0000_0fff_ffff_ffff, u64::MAX, u64::MAX, u64::MAX),
        limbs(u64::MAX, u64::MAX, u64::MAX, u64::MAX),
    ] {
        let bits = v.to_compact();
        assert_eq!(bits & 0x0080_0000, 0);
        let back = Uint256::from_compact(bits).unwrap();
        assert!(back.le(&v));
    }
    assert_eq!(Uint256::from_u64(0x80_0000).to_compact(), 0x0400_8000);
    assert_eq!(limbs(u64::MAX, u64::MAX, u64::MAX, u64::MAX).to_compact(), 0x2100_ffff);
}
