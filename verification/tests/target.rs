use lyrion::cache::TargetCache;
use lyrion::errors::ChainError;
use lyrion::target::{
    compact_to_target, retarget, target_to_compact, target_work, u256_from_be, u256_from_hash,
};
use num_bigint::BigUint;

#[test]
fn test_compact_target_vectors() {
    assert_eq!(compact_to_target(0x1d00ffff).unwrap(), BigUint::from(0xffffu32) << (8 * (0x1d - 3)));
    assert_eq!(target_to_compact(&compact_to_target(0x1d00ffff).unwrap()), 0x1d00ffff);
    let max_target = BigUint::from(1u32) << 256;
    assert_eq!(target_to_compact(&max_target), 0x1d00ffff);
    assert_eq!(target_to_compact(&BigUint::from(0u32)), 0x1d00ffff);
    assert_eq!(compact_to_target(0).unwrap(), BigUint::from(0u32));
}

#[test]
fn small_exponents_drop_bytes() {
    assert_eq!(compact_to_target(0x03123456).unwrap(), BigUint::from(0x123456u32));
    assert_eq!(compact_to_target(0x02123456).unwrap(), BigUint::from(0x1234u32));
    assert_eq!(compact_to_target(0x01123456).unwrap(), BigUint::from(0x12u32));
    assert_eq!(compact_to_target(0x04123456).unwrap(), BigUint::from(0x12345600u32));
}

#[test]
fn exponents_beyond_the_limit_are_refused() {
    assert!(compact_to_target(80 << 24 | 1).is_ok());
    assert_eq!(
        compact_to_target(81 << 24 | 1),
        Err(ChainError::InvalidBlock("target exponent too large".to_string()))
    );
}

#[test]
fn the_compact_form_rounds_down() {
    let target = BigUint::from(0x12345678u32);
    assert_eq!(target_to_compact(&target), 0x04123456);
    assert!(compact_to_target(0x04123456).unwrap() <= target);
    assert_eq!(target_to_compact(&BigUint::from(0x80u32)), 0x02008000);
    assert_eq!(compact_to_target(0x02008000).unwrap(), BigUint::from(0x80u32));
    let largest = (BigUint::from(1u32) << 256) - BigUint::from(1u32);
    assert_eq!(target_to_compact(&largest), 0x2100ffff);
}

#[test]
fn hashes_are_numbers() {
    let mut hash = [0u8; 32];
    hash[0] = 1;
    assert_eq!(u256_from_be(&hash), BigUint::from(1u32) << 248);
    assert_eq!(u256_from_hash(hash), BigUint::from(1u32) << 248);
    hash[31] = 2;
    assert_eq!(u256_from_hash(hash), (BigUint::from(1u32) << 248) + BigUint::from(2u32));
}

#[test]
fn a_smaller_target_is_more_work() {
    let easy = target_work(&compact_to_target(0x1d00ffff).unwrap());
    assert_eq!(easy, BigUint::from(0x1_0001_0001u64));
    let hard = target_work(&compact_to_target(0x1c00ffff).unwrap());
    assert!(hard > easy);
    assert_eq!(target_work(&BigUint::from(0u32)), BigUint::from(1u32) << 256);
}

#[test]
fn the_target_follows_the_time() {
    let bits = 0x1c00ffff;
    let start = 1_000_000;
    assert_eq!(retarget(bits, start, start + 120_960, 0), Ok(bits));
    assert_eq!(retarget(bits, start, start + 2 * 120_960, 0), Ok(0x1c01fffe));
    assert_eq!(retarget(bits, start, start + 60_480, 0), Ok(0x1b7fff80));
    assert_eq!(retarget(bits, start, start + 100 * 120_960, 0), Ok(0x1c03fffc));
    assert_eq!(retarget(bits, start, start, 0), Ok(0x1b3fffc0));
    assert_eq!(retarget(bits, start, start + 60_480, start + 60_480), Ok(bits));
    assert_eq!(retarget(0x1d00ffff, start, start + 2 * 120_960, 0), Ok(0x1d00ffff));
    assert!(retarget(81 << 24, 0, 1, 0).is_err());
}

#[test]
fn targets_are_kept() {
    let mut cache = TargetCache::new();
    for bits in [0x1d00ffff, 0x1c00ffff, 0x1d00ffff, 0x03123456] {
        assert_eq!(cache.target(bits), compact_to_target(bits));
    }
    assert!(cache.target(81 << 24).is_err());
}
