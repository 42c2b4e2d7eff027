//! Difficulty targets and their compact form, and the work they stand for.
use crate::big;
use crate::big::{
    big_add, big_bits, big_clone, big_div, big_from, big_from_be, big_le, big_mul, big_shl, big_shr,
    big_to_digits,
};
use crate::bytes;
use crate::errors::{invalid_block, ChainError, Fault};
use crate::params::EXPECTED_TIME;
use num_bigint::BigUint;
use vstd::arithmetic::div_mod::*;
use vstd::arithmetic::power2::*;
use vstd::prelude::*;

verus! {

/// The compact form of the easiest target, which is also that of the genesis
/// block.
pub const GENESIS_BITS: u32 = 0x1d00ffff;

/// The largest exponent that a compact target may have.
pub const MAX_TARGET_EXPONENT: u32 = 80;

/// The exponent of a compact target.
pub open spec fn exponent(bits: u32) -> nat {
    bits as nat / 0x100_0000
}

/// The mantissa of a compact target.
pub open spec fn mantissa(bits: u32) -> nat {
    bits as nat % 0x100_0000
}

/// The target that a compact form stands for: the mantissa, whose last byte
/// has the weight `256^(exponent - 3)`, rounded down.
pub open spec fn target_of(bits: u32) -> nat {
    if exponent(bits) >= 3 {
        mantissa(bits) * bytes::pow256((exponent(bits) - 3) as nat)
    } else {
        mantissa(bits) / bytes::pow256((3 - exponent(bits)) as nat)
    }
}

/// Whether a compact form is accepted: its exponent is within the limit.
pub open spec fn bits_accepted(bits: u32) -> bool {
    exponent(bits) <= MAX_TARGET_EXPONENT
}

/// The number of bytes that `x` takes.
pub open spec fn byte_len(x: nat) -> nat
    decreases x,
{
    if x == 0 {
        0
    } else {
        1 + byte_len(x / 256)
    }
}

/// The three leading bytes of `x` as a number, filled up with zero bytes
/// where `x` has fewer.
pub open spec fn leading_bytes(x: nat) -> nat {
    if byte_len(x) <= 3 {
        x * bytes::pow256((3 - byte_len(x)) as nat)
    } else {
        x / bytes::pow256((byte_len(x) - 3) as nat)
    }
}

/// The compact form of a target. A target that is zero, or that has more than
/// 32 bytes, gets the compact form of the genesis block. The top bit of the
/// mantissa stays clear: where it would be set, the mantissa gives up its last
/// byte.
#[verifier::opaque]
pub open spec fn compact_of(target: nat) -> u32 {
    if target == 0 || byte_len(target) > 32 {
        GENESIS_BITS
    } else if leading_bytes(target) >= 0x80_0000 {
        ((byte_len(target) + 1) * 0x100_0000 + leading_bytes(target) / 256) as u32
    } else {
        (byte_len(target) * 0x100_0000 + leading_bytes(target)) as u32
    }
}

/// `x` has `n` bytes exactly when it lies between `256^(n-1)` and `256^n`.
pub proof fn lemma_byte_len(x: nat, n: nat)
    ensures
        n > 0 ==> (byte_len(x) == n <==> bytes::pow256((n - 1) as nat) <= x < bytes::pow256(n)),
        byte_len(x) == 0 <==> x == 0,
        x < bytes::pow256(byte_len(x)),
    decreases x,
{
    if x > 0 {
        if n > 0 {
            lemma_byte_len(x / 256, (n - 1) as nat);
            if n == 1 {
                assert(bytes::pow256(1) == 256 * bytes::pow256(0));
            }
        } else {
            lemma_byte_len(x / 256, 0);
        }
    } else {
        if n > 0 {
            bytes::lemma_pow256_pos((n - 1) as nat);
        }
    }
}

/// The three leading bytes fill 24 bits, and all but the first nine bits of
/// them are free.
pub proof fn lemma_leading_bytes(x: nat)
    requires
        x > 0,
    ensures
        0x1_0000 <= leading_bytes(x) < 0x100_0000,
{
    let n = byte_len(x);
    lemma_byte_len(x, n);
    bytes::lemma_pow256_values();
    if n <= 3 {
        bytes::lemma_pow256_add((n - 1) as nat, (3 - n) as nat);
        bytes::lemma_pow256_add(n, (3 - n) as nat);
        let p = bytes::pow256((3 - n) as nat);
        bytes::lemma_pow256_pos((3 - n) as nat);
        let lo = bytes::pow256((n - 1) as nat);
        let hi = bytes::pow256(n);
        assert(lo * p <= x * p < hi * p) by (nonlinear_arith)
            requires
                lo <= x < hi,
                p > 0,
        ;
    } else {
        bytes::lemma_pow256_add(2, (n - 3) as nat);
        bytes::lemma_pow256_add(3, (n - 3) as nat);
        let p = bytes::pow256((n - 3) as nat);
        bytes::lemma_pow256_pos((n - 3) as nat);
        assert(0x1_0000 <= x / p < 0x100_0000) by (nonlinear_arith)
            requires
                0x1_0000 * p <= x < 0x100_0000 * p,
                p > 0,
        ;
    }
}

/// The target that a compact form stands for, or an error where its exponent
/// is too large.
pub fn compact_to_target(bits: u32) -> (r: Result<BigUint, ChainError>)
    ensures
        bits_accepted(bits) ==> r is Ok && big::big(r->Ok_0) == target_of(bits),
        !bits_accepted(bits) ==> r is Err && r->Err_0@ == Fault::InvalidBlock(
            "target exponent too large"@,
        ),
{
    if bits == 0 {
        proof {
            bytes::lemma_pow256_pos(3);
            lemma_small_div_pow(3);
        }
        return Ok(big_from(0));
    }
    let exp: u32 = bits / 0x100_0000;
    if exp > MAX_TARGET_EXPONENT {
        return Err(invalid_block("target exponent too large"));
    }
    let mant = big_from((bits % 0x100_0000) as u128);
    if exp > 3 {
        proof {
            big::lemma_pow2_bytes((exp - 3) as nat);
        }
        let shift: usize = 8 * (exp as usize - 3);
        assert(shift as nat == 8 * ((exp - 3) as nat));
        assert(exponent(bits) == exp);
        let r = big_shl(&mant, shift);
        assert(big::big(r) == mantissa(bits) * bytes::pow256((exp - 3) as nat));
        Ok(r)
    } else if exp < 3 {
        proof {
            big::lemma_pow2_bytes((3 - exp) as nat);
        }
        let shift: u64 = 8 * (3 - exp as u64);
        assert(shift as nat == 8 * ((3 - exp) as nat));
        let r = big_shr(&mant, shift);
        assert(big::big(r) == mantissa(bits) / bytes::pow256((3 - exp) as nat));
        Ok(r)
    } else {
        assert(mantissa(bits) * bytes::pow256(0) == mantissa(bits)) by {
            assert(bytes::pow256(0) == 1);
        }
        Ok(mant)
    }
}

proof fn lemma_small_div_pow(n: nat)
    ensures
        0nat / bytes::pow256(n) == 0,
{
    bytes::lemma_pow256_pos(n);
    lemma_div_basics(bytes::pow256(n) as int);
}

/// The compact form of a target.
pub fn target_to_compact(target: &BigUint) -> (r: u32)
    ensures
        r == compact_of(big::big(*target)),
{
    proof {
        reveal(compact_of);
    }
    let ghost t = big::big(*target);
    let bits = big_bits(target);
    if bits == 0 {
        return GENESIS_BITS;
    }
    let size: u64 = bits / 8 + (if bits % 8 == 0 {
        0
    } else {
        1
    });
    proof {
        big::lemma_pow2_bytes((size - 1) as nat);
        big::lemma_pow2_bytes(size as nat);
        if 8 * (size - 1) < bits - 1 {
            lemma_pow2_strictly_increases((8 * (size - 1)) as nat, (bits - 1) as nat);
        }
        if bits < 8 * size {
            lemma_pow2_strictly_increases(bits as nat, (8 * size) as nat);
        }
        lemma_byte_len(t, size as nat);
        assert(byte_len(t) == size);
        lemma_leading_bytes(t);
        bytes::lemma_pow256_values();
    }
    if size > 32 {
        return GENESIS_BITS;
    }
    let lead: u32;
    if size <= 3 {
        proof {
            bytes::lemma_pow256_mono(size as nat, 3);
            big::lemma_small_digits(big::big_digits(*target));
            bytes::lemma_pow256_values();
        }
        let digits = big_to_digits(target);
        let low: u32 = if digits.len() == 0 {
            0
        } else {
            digits[0]
        };
        lead = if size == 1 {
            assert(t * bytes::pow256(2) == t * 0x1_0000);
            low * 0x1_0000
        } else if size == 2 {
            assert(t * bytes::pow256(1) == t * 0x100);
            low * 0x100
        } else {
            assert(t * bytes::pow256(0) == t);
            low
        };
    } else {
        proof {
            big::lemma_pow2_bytes((size - 3) as nat);
        }
        let shifted = big_shr(target, 8 * (size - 3));
        proof {
            big::lemma_small_digits(big::big_digits(shifted));
        }
        let digits = big_to_digits(&shifted);
        lead = if digits.len() == 0 {
            0
        } else {
            digits[0]
        };
    }
    if lead >= 0x80_0000 {
        (size as u32 + 1) * 0x100_0000 + lead / 256
    } else {
        size as u32 * 0x100_0000 + lead
    }
}

// ---------------------------------------------------------------------------
// Laws of the compact form
// ---------------------------------------------------------------------------

/// Whether a compact form is one that a target gets: the top bit of the
/// mantissa is clear, its first nine bits are not all zero, and the target has
/// at most 32 bytes.
pub open spec fn canonical(bits: u32) -> bool {
    &&& 0x8000 <= mantissa(bits) < 0x80_0000
    &&& 3 <= exponent(bits)
    &&& exponent(bits) <= if mantissa(bits) < 0x1_0000 {
        33
    } else {
        32nat
    }
}

/// The compact form can be read back: a canonical one is the compact form of
/// the target that it stands for.
pub proof fn law_compact_round_trip(bits: u32)
    requires
        canonical(bits),
    ensures
        compact_of(target_of(bits)) == bits,
{
    reveal(compact_of);
    let m = mantissa(bits);
    let e = exponent(bits);
    let k = (e - 3) as nat;
    let p = bytes::pow256(k);
    let t = target_of(bits);
    bytes::lemma_pow256_values();
    bytes::lemma_pow256_pos(k);
    assert(t == m * p);
    assert(bits as nat == e * 0x100_0000 + m);
    if m < 0x1_0000 {
        bytes::lemma_pow256_add(1, k);
        bytes::lemma_pow256_add(2, k);
        assert(0x100 * p <= m * p < 0x1_0000 * p) by (nonlinear_arith)
            requires
                0x8000 <= m < 0x1_0000,
                p > 0,
        ;
        lemma_byte_len(t, k + 2);
        assert(byte_len(t) == k + 2);
        assert(leading_bytes(t) == m * 0x100) by {
            if k + 2 <= 3 {
                if k == 0 {
                    assert(m * p == m) by (nonlinear_arith)
                        requires
                            p == 1,
                    ;
                    assert(t * bytes::pow256(1) == m * 0x100);
                } else {
                    assert(k == 1);
                    assert(t * bytes::pow256(0) == t);
                    assert(m * p == m * 0x100);
                }
            } else {
                let q = bytes::pow256((k - 1) as nat);
                bytes::lemma_pow256_pos((k - 1) as nat);
                assert(p == 256 * q);
                assert(m * p == (m * 0x100) * q) by (nonlinear_arith)
                    requires
                        p == 256 * q,
                ;
                lemma_div_multiples_vanish((m * 0x100) as int, q as int);
                assert((m * 0x100) * q == q * (m * 0x100)) by (nonlinear_arith);
            }
        }
    } else {
        bytes::lemma_pow256_add(2, k);
        bytes::lemma_pow256_add(3, k);
        assert(0x1_0000 * p <= m * p < 0x100_0000 * p) by (nonlinear_arith)
            requires
                0x1_0000 <= m < 0x80_0000,
                p > 0,
        ;
        lemma_byte_len(t, k + 3);
        assert(byte_len(t) == k + 3);
        assert(leading_bytes(t) == m) by {
            if k == 0 {
                assert(m * p == m) by (nonlinear_arith)
                    requires
                        p == 1,
                ;
                assert(t * bytes::pow256(0) == t);
            } else {
                lemma_div_multiples_vanish(m as int, p as int);
                assert(m * p == p * m) by (nonlinear_arith);
            }
        }
    }
}

/// The compact form rounds down: the target that it stands for is never above
/// the target that it was made from, and the three leading bytes, or the two
/// leading ones where the top bit is set, are kept.
pub proof fn law_compact_rounds_down(t: nat)
    requires
        0 < t < bytes::pow256(32),
    ensures
        target_of(compact_of(t)) <= t,
        bits_accepted(compact_of(t)),
{
    reveal(compact_of);
    let n = byte_len(t);
    let lead = leading_bytes(t);
    lemma_byte_len(t, n);
    lemma_leading_bytes(t);
    bytes::lemma_pow256_values();
    assert(n <= 32) by {
        if n > 32 {
            bytes::lemma_pow256_mono(32, (n - 1) as nat);
        }
    }
    let bits = compact_of(t);
    let m = mantissa(bits);
    let e = exponent(bits);
    if n > 3 {
        let q = bytes::pow256((n - 3) as nat);
        bytes::lemma_pow256_pos((n - 3) as nat);
        lemma_fundamental_div_mod(t as int, q as int);
        assert(lead == t / q);
        if lead >= 0x80_0000 {
            assert(e == n + 1 && m == lead / 256);
            let p = bytes::pow256((n - 2) as nat);
            assert(p == 256 * q);
            assert(target_of(bits) == m * p);
            assert(m * p <= t) by (nonlinear_arith)
                requires
                    p == 256 * q,
                    lead == t / q,
                    q * (t / q) <= t,
                    256 * m <= lead,
                    q > 0,
            ;
        } else {
            assert(e == n && m == lead);
            assert(target_of(bits) == m * q);
            assert(m * q <= t) by (nonlinear_arith)
                requires
                    m == t / q,
                    q * (t / q) <= t,
            ;
        }
    } else {
        lemma_rounds_down_small(t);
    }
}

proof fn lemma_rounds_down_small(t: nat)
    requires
        0 < t,
        byte_len(t) <= 3,
    ensures
        target_of(compact_of(t)) <= t,
{
    reveal(compact_of);
    let n = byte_len(t);
    let lead = leading_bytes(t);
    let bits = compact_of(t);
    let m = mantissa(bits);
    let e = exponent(bits);
    lemma_byte_len(t, n);
    lemma_leading_bytes(t);
    bytes::lemma_pow256_values();
    let f = bytes::pow256((3 - n) as nat);
    assert(lead == t * f);
    if n == 1 {
        assert(t * f == t * 0x1_0000) by (nonlinear_arith)
            requires
                f == 0x1_0000,
        ;
    } else if n == 2 {
        assert(t * f == t * 0x100) by (nonlinear_arith)
            requires
                f == 0x100,
        ;
    } else {
        assert(n == 3);
        assert(t * f == t) by (nonlinear_arith)
            requires
                f == 1,
        ;
    }
    if lead >= 0x80_0000 {
        assert(e == n + 1 && m == lead / 256);
        if n == 1 {
            assert(target_of(bits) == m / 0x100);
        } else if n == 2 {
            assert(target_of(bits) == m * 1);
        } else {
            assert(target_of(bits) == m * 0x100);
        }
    } else {
        assert(e == n && m == lead);
        if n == 1 {
            assert(target_of(bits) == m / 0x1_0000);
        } else if n == 2 {
            assert(target_of(bits) == m / 0x100);
        } else {
            assert(target_of(bits) == m * 1);
        }
    }
}

// ---------------------------------------------------------------------------
// Work and difficulty
// ---------------------------------------------------------------------------

/// The number that a hash stands for, its first byte the most significant.
pub fn u256_from_hash(hash: [u8; 32]) -> (r: BigUint)
    ensures
        big::big(r) == bytes::be_value(hash@),
{
    big_from_be(hash.as_slice())
}

/// The number that bytes stand for, the first the most significant.
pub fn u256_from_be(data: &[u8]) -> (r: BigUint)
    ensures
        big::big(r) == bytes::be_value(data@),
{
    big_from_be(data)
}

/// Whether a hash meets a target.
pub open spec fn meets(hash: Seq<u8>, bits: u32) -> bool {
    bytes::be_value(hash) <= target_of(bits)
}

/// The work that a target stands for: how many hashes are expected to be
/// tried until one meets it.
pub open spec fn work_of_target(target: nat) -> nat {
    bytes::pow256(32) / (target + 1)
}

/// The work that a block with a compact target stands for.
pub open spec fn work_of(bits: u32) -> nat {
    work_of_target(target_of(bits))
}

/// The work that a target stands for.
pub fn target_work(target: &BigUint) -> (r: BigUint)
    ensures
        big::big(r) == work_of_target(big::big(*target)),
{
    proof {
        big::lemma_pow2_bytes(32);
    }
    let all = big_shl(&big_from(1), 256);
    big_div(&all, &big_add(target, &big_from(1)))
}

/// A harder target stands for more work.
pub proof fn law_harder_is_more_work(s: nat, t: nat)
    requires
        s <= t,
    ensures
        work_of_target(t) <= work_of_target(s),
{
    lemma_div_is_ordered_by_denominator(
        bytes::pow256(32) as int,
        (s + 1) as int,
        (t + 1) as int,
    );
}

/// The time that the blocks of one target took, kept within a quarter and four
/// times the time that they should take.
pub open spec fn clamped_time(seconds: nat) -> nat {
    if seconds < EXPECTED_TIME as nat / 4 {
        EXPECTED_TIME as nat / 4
    } else if seconds > EXPECTED_TIME * 4 {
        (EXPECTED_TIME * 4) as nat
    } else {
        seconds
    }
}

/// The next target: it moves with the time that the blocks took, by a factor
/// of four at most, and never above that of the genesis block. It stays where
/// the last block is no later than the median of those before it.
#[verifier::opaque]
pub open spec fn next_target(old: nat, start: u32, end: u32, median: u32) -> nat {
    let moved = old * clamped_time((end - start) as nat) / EXPECTED_TIME as nat;
    let low = if moved > old * 4 {
        old * 4
    } else if moved < old / 4 {
        old / 4
    } else {
        moved
    };
    if end <= median {
        old
    } else if low > target_of(GENESIS_BITS) {
        target_of(GENESIS_BITS)
    } else {
        low
    }
}

/// The compact form of the next target, given that of the last blocks, the
/// times of the first and the last of them, and the median time.
pub fn retarget(old_bits: u32, start: u32, end: u32, median: u32) -> (r: Result<u32, ChainError>)
    requires
        start <= end,
    ensures
        bits_accepted(old_bits) ==> r == Ok::<u32, ChainError>(
            compact_of(next_target(target_of(old_bits), start, end, median)),
        ),
        !bits_accepted(old_bits) ==> r is Err && r->Err_0@ == Fault::InvalidBlock(
            "target exponent too large"@,
        ),
{
    proof {
        reveal(next_target);
    }
    let old_target = match compact_to_target(old_bits) {
        Ok(t) => t,
        Err(e) => {
            return Err(e);
        },
    };
    if end <= median {
        return Ok(target_to_compact(&old_target));
    }
    let taken: u128 = (end - start) as u128;
    let actual: u128 = if taken < EXPECTED_TIME / 4 {
        EXPECTED_TIME / 4
    } else if taken > EXPECTED_TIME * 4 {
        EXPECTED_TIME * 4
    } else {
        taken
    };
    let mut new_target = big_div(
        &big_mul(&old_target, &big_from(actual)),
        &big_from(EXPECTED_TIME),
    );
    let four = big_from(4);
    let max_target = big_mul(&old_target, &four);
    let min_target = big_div(&old_target, &four);
    if !big_le(&new_target, &max_target) {
        new_target = max_target;
    }
    if !big_le(&min_target, &new_target) {
        new_target = min_target;
    }
    assert(bits_accepted(GENESIS_BITS));
    let genesis_target = match compact_to_target(GENESIS_BITS) {
        Ok(t) => t,
        Err(e) => {
            return Err(e);
        },
    };
    if !big_le(&new_target, &genesis_target) {
        new_target = genesis_target;
    }
    Ok(target_to_compact(&new_target))
}

/// The target moves by a factor of four at most.
pub proof fn law_target_moves_slowly(old: nat, start: u32, end: u32, median: u32)
    requires
        start <= end,
        old <= target_of(GENESIS_BITS),
    ensures
        old / 4 <= next_target(old, start, end, median) <= old * 4,
        next_target(old, start, end, median) <= target_of(GENESIS_BITS),
{
    reveal(next_target);
    lemma_div_is_ordered_by_denominator(old as int, 1, 4);
    lemma_div_basics(old as int);
}

/// The next target is proportional to the time that the blocks took: where the
/// last block is later than the median, it is the old one times these seconds,
/// but no fewer than 30240 and no more than 483840, over 120960, rounded down;
/// and no more than the target of the genesis block. Otherwise it is the old
/// one.
pub proof fn law_target_follows_time(old: nat, start: u32, end: u32, median: u32)
    requires
        start <= end,
    ensures
        ({
            let new = next_target(old, start, end, median);
            let took = (end - start) as nat;
            let most = 0xffff * vstd::arithmetic::power::pow(256, 26);
            &&& end <= median ==> new == old
            &&& end > median ==> new <= most
            &&& end > median && 30_240 <= took <= 483_840 && new < most ==> new * 120_960 <= old
                * took < (new + 1) * 120_960
            &&& end > median && 30_240 <= took <= 483_840 && old * took < most * 120_960 ==> new
                == old * took / 120_960 && new < most
            &&& end > median && took < 30_240 && old < most * 4 ==> new == old / 4
            &&& end > median && took > 483_840 && old * 4 <= most ==> new == old * 4
        }),
{
    reveal(next_target);
    lemma_genesis_target();
    let took = (end - start) as nat;
    let most = target_of(GENESIS_BITS);
    let t = clamped_time(took);
    let moved = old * t / 120_960;
    assert(30_240 <= t <= 483_840);
    lemma_fundamental_div_mod((old * t) as int, 120_960);
    assert(old * t <= old * 483_840) by (nonlinear_arith)
        requires
            t <= 483_840,
    ;
    assert(old * t >= old * 30_240) by (nonlinear_arith)
        requires
            t >= 30_240,
    ;
    assert(moved * 120_960 <= old * t < (moved + 1) * 120_960);
    assert(old / 4 <= moved <= old * 4);
    if took < 30_240 {
        assert(old * t == old * 30_240);
    }
    if took > 483_840 {
        assert(old * t == old * 483_840);
    }
}

/// The target of the genesis block.
proof fn lemma_genesis_target()
    ensures
        target_of(GENESIS_BITS) == 0xffff * vstd::arithmetic::power::pow(256, 26),
{
    lemma_pow256_is_pow(26);
}

proof fn lemma_pow256_is_pow(n: nat)
    ensures
        bytes::pow256(n) == vstd::arithmetic::power::pow(256, n),
    decreases n,
{
    vstd::arithmetic::power::lemma_pow0(256);
    if n > 0 {
        lemma_pow256_is_pow((n - 1) as nat);
        reveal(vstd::arithmetic::power::pow);
    }
}

/// Blocks that took longer never make the next target harder, and neither does
/// an easier target before.
pub proof fn law_longer_is_easier(
    old: nat,
    easier: nat,
    start: u32,
    end: u32,
    later: u32,
    median: u32,
)
    requires
        start <= end <= later,
        median < end,
        old <= easier,
    ensures
        next_target(old, start, end, median) <= next_target(easier, start, later, median),
{
    reveal(next_target);
    let s = clamped_time((end - start) as nat);
    let t = clamped_time((later - start) as nat);
    assert(s <= t);
    assert(old * s <= easier * t) by (nonlinear_arith)
        requires
            s <= t,
            old <= easier,
    ;
    lemma_div_is_ordered((old * s) as int, (easier * t) as int, EXPECTED_TIME as int);
    lemma_div_is_ordered(old as int, easier as int, 4);
}

/// The work of a target is how often it, and one more, fits into the number of
/// all hashes.
pub proof fn law_work_counts_hashes(target: nat)
    ensures
        ({
            let all = vstd::arithmetic::power::pow(256, 32);
            let w = work_of_target(target);
            w * (target + 1) <= all < (w + 1) * (target + 1)
        }),
{
    lemma_pow256_is_pow(32);
    let all = bytes::pow256(32) as int;
    let w = work_of_target(target) as int;
    let d = (target + 1) as int;
    lemma_fundamental_div_mod(all, d);
    assert(w * d == d * w) by (nonlinear_arith);
    assert((w + 1) * d == d * w + d) by (nonlinear_arith);
}

} // verus!
