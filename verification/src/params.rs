//! The constants of the consensus rules, and the subsidy.
use vstd::arithmetic::div_mod::*;
use vstd::arithmetic::power2::*;
use vstd::prelude::*;

verus! {

/// The largest number of bytes of a block.
pub const MAX_BLOCK_SIZE: usize = 4_000_000;

/// How many blocks a coinbase output has to wait to be spent.
pub const COINBASE_MATURITY: usize = 100;

/// How many blocks have the same subsidy.
pub const HALVING_INTERVAL: usize = 2_100_000;

/// How many blocks have the same target.
pub const DIFFICULTY_ADJUST_INTERVAL: usize = 2016;

/// The seconds that a block should take.
pub const TARGET_BLOCK_TIME: u128 = 60;

/// The seconds that the blocks of one target should take.
pub const EXPECTED_TIME: u128 = 120_960;

/// How many blocks back transactions are kept.
pub const PRUNE_DEPTH: usize = 10080;

/// How many blocks a reorganization may disconnect.
pub const REORG_MAX_DEPTH: usize = 2016;

/// The seconds that a script may take to be checked.
pub const VALIDATION_TIMEOUT_SECS: u64 = 10;

/// The seconds that a peer may take to answer.
pub const PEER_TIMEOUT_SECS: u64 = 20;

/// The milliseconds that a block without its predecessor is kept.
pub const ORPHAN_TTL_MS: u128 = 3_600_000;

/// The number of blocks without their predecessors that are kept.
pub const MAX_ORPHANS: usize = 500;

/// The least fee for each byte.
pub const MIN_FEE_PER_BYTE: u64 = 10;

/// The number of messages that a peer may send in a second.
pub const MSG_RATE_LIMIT: u32 = 10;

/// The number of entries that a cache keeps.
pub const LRU_CACHE_SIZE: usize = 500_000;

/// The largest number of bytes of a message.
pub const MAX_MSG_DECOMPRESSED: usize = 16_777_216;

/// The largest number of bytes of a compressed message.
pub const MAX_COMPRESSED_SIZE: usize = 4_194_304;

/// How many unconfirmed transactions a transaction may depend on.
pub const MAX_PACKAGE_DEPTH: usize = 50;

/// The largest number of bytes of a transaction with those it depends on.
pub const MAX_PACKAGE_SIZE: usize = 1_000_000;

/// The time of the first block: 2025-11-20 00:00:00 UTC.
pub const GENESIS_TIMESTAMP: u32 = 1763596800;

/// The subsidy of the first blocks.
pub const INITIAL_SUBSIDY: u64 = 10_000_000_000;

/// The subsidy after the last halving.
pub const TAIL_SUBSIDY: u64 = 500_000_000;

/// The number of halvings.
pub const MAX_SUBSIDY_HALVINGS: usize = 64;

/// What an anonymous transaction pays for each byte, over what another pays.
pub const ANON_FEE_MULTIPLIER_NUMERATOR: u128 = 3;

/// What another transaction pays, under what an anonymous one pays.
pub const ANON_FEE_MULTIPLIER_DENOMINATOR: u128 = 2;

/// The subsidy of the block at a height: it halves with every interval, and
/// stays at the tail after the last halving.
pub open spec fn subsidy_at(height: nat) -> nat {
    let halvings = height / HALVING_INTERVAL as nat;
    if halvings >= MAX_SUBSIDY_HALVINGS {
        TAIL_SUBSIDY as nat
    } else {
        INITIAL_SUBSIDY as nat / pow2(halvings)
    }
}

/// The subsidy of the block at a height.
pub fn subsidy(height: usize) -> (r: u64)
    ensures
        r == subsidy_at(height as nat),
{
    let halvings: usize = height / HALVING_INTERVAL;
    if halvings >= MAX_SUBSIDY_HALVINGS {
        TAIL_SUBSIDY
    } else {
        let n: u64 = halvings as u64;
        proof {
            vstd::bits::lemma_u64_shr_is_div(INITIAL_SUBSIDY, n);
            assert(n as nat == height as nat / HALVING_INTERVAL as nat);
        }
        INITIAL_SUBSIDY >> n
    }
}

/// The subsidies of the blocks up to a height, without the block at it.
pub open spec fn issued_below(height: nat) -> nat
    decreases height,
{
    if height == 0 {
        0
    } else {
        issued_below((height - 1) as nat) + subsidy_at((height - 1) as nat)
    }
}

/// The largest sum of subsidies before the tail.
pub open spec fn max_issue() -> nat {
    2 * INITIAL_SUBSIDY as nat * HALVING_INTERVAL as nat
}

/// No subsidy is above that of the first blocks.
pub proof fn lemma_subsidy_bound(height: nat)
    ensures
        subsidy_at(height) <= INITIAL_SUBSIDY,
{
    let halvings = height / HALVING_INTERVAL as nat;
    if halvings < MAX_SUBSIDY_HALVINGS {
        lemma_pow2_pos(halvings);
        lemma_div_is_ordered_by_denominator(INITIAL_SUBSIDY as int, 1, pow2(halvings) as int);
        lemma_div_basics(INITIAL_SUBSIDY as int);
    }
}

/// One halving halves the subsidy, rounded down.
proof fn lemma_halving(e: nat)
    ensures
        2 * (INITIAL_SUBSIDY as nat / pow2(e + 1)) <= INITIAL_SUBSIDY as nat / pow2(e),
{
    lemma_pow2_pos(e);
    lemma_pow2_unfold(e + 1);
    assert(pow2(e + 1) == pow2(e) * 2) by {
        vstd::arithmetic::mul::lemma_mul_is_commutative(2, pow2(e) as int);
    }
    lemma_div_denominator(INITIAL_SUBSIDY as int, pow2(e) as int, 2);
}

/// Before the tail the subsidy never rises.
pub proof fn law_subsidy_falls(a: nat, b: nat)
    requires
        a <= b,
        b < MAX_SUBSIDY_HALVINGS * HALVING_INTERVAL,
    ensures
        subsidy_at(b) <= subsidy_at(a),
{
    let x = a / HALVING_INTERVAL as nat;
    let y = b / HALVING_INTERVAL as nat;
    lemma_div_is_ordered(a as int, b as int, HALVING_INTERVAL as int);
    assert(y < 64);
    lemma_pow2_pos(x);
    lemma_pow2_pos(y);
    if x < y {
        lemma_pow2_strictly_increases(x, y);
    }
    lemma_div_is_ordered_by_denominator(INITIAL_SUBSIDY as int, pow2(x) as int, pow2(y) as int);
}

/// Before the tail the subsidies together stay below a fixed sum, that of two
/// intervals at the first subsidy.
pub proof fn law_issue_is_capped(height: nat)
    requires
        height <= MAX_SUBSIDY_HALVINGS * HALVING_INTERVAL,
    ensures
        issued_below(height) <= max_issue(),
{
    if height > 0 {
        lemma_issue(height);
        let e = ((height - 1) as nat) / HALVING_INTERVAL as nat;
        let p = (height - 1) % HALVING_INTERVAL as int;
        let s = INITIAL_SUBSIDY as nat / pow2(e);
        lemma_pow2_pos(e);
        lemma_div_pos_is_pos(INITIAL_SUBSIDY as int, pow2(e) as int);
        assert((2 * HALVING_INTERVAL - (p + 1)) * s >= 0) by (nonlinear_arith)
            requires
                s >= 0,
                p + 1 <= 2 * HALVING_INTERVAL,
        ;
    }
}

/// What is still to come in the current interval and all later ones is at most
/// twice an interval at the current subsidy.
proof fn lemma_issue(height: nat)
    requires
        0 < height <= MAX_SUBSIDY_HALVINGS * HALVING_INTERVAL,
    ensures
        ({
            let e = ((height - 1) as nat) / HALVING_INTERVAL as nat;
            let p = (height - 1) % HALVING_INTERVAL as int;
            let s = INITIAL_SUBSIDY as nat / pow2(e);
            issued_below(height) + (2 * HALVING_INTERVAL - (p + 1)) * s <= max_issue()
        }),
    decreases height,
{
    let h = (height - 1) as nat;
    let n = HALVING_INTERVAL as int;
    let e = h / HALVING_INTERVAL as nat;
    let p = h as int % n;
    let s = (INITIAL_SUBSIDY as nat / pow2(e)) as int;
    assert(e < 64);
    assert(subsidy_at(h) == s);
    if h == 0 {
        lemma2_to64();
        assert(issued_below(0) == 0);
        assert(p == 0);
        assert(pow2(0) == 1);
        assert(s == INITIAL_SUBSIDY);
    } else {
        lemma_issue(h);
        let g = (h - 1) as nat;
        let f = g / HALVING_INTERVAL as nat;
        let q = g as int % n;
        let t = (INITIAL_SUBSIDY as nat / pow2(f)) as int;
        lemma_fundamental_div_mod(h as int, n);
        lemma_fundamental_div_mod(g as int, n);
        let before = issued_below(h) as int;
        if p == 0 {
            assert(f + 1 == e && q == n - 1);
            lemma_halving(f);
            assert(2 * s <= t);
            assert((2 * n - (q + 1)) * t == n * t) by (nonlinear_arith)
                requires
                    q == n - 1,
            ;
            assert(n * t >= 2 * n * s) by (nonlinear_arith)
                requires
                    2 * s <= t,
                    n > 0,
            ;
            assert((2 * n - 1) * s == 2 * n * s - s) by (nonlinear_arith);
            assert(before + s + (2 * n - (p + 1)) * s <= max_issue());
        } else {
            assert(f == e && q == p - 1);
            assert((2 * n - (q + 1)) * s == (2 * n - (p + 1)) * s + s) by (nonlinear_arith)
                requires
                    q == p - 1,
            ;
        }
    }
}

/// The subsidy is 10000000000 in the first 2100000 blocks, half of it, rounded
/// down, as many blocks later, and so on; from block 134400000 on it is
/// 500000000.
pub proof fn law_subsidy_halves(height: nat)
    ensures
        height < 2_100_000 ==> subsidy_at(height) == 10_000_000_000,
        height < 132_300_000 ==> subsidy_at(height + 2_100_000) == subsidy_at(height) / 2,
        height >= 134_400_000 ==> subsidy_at(height) == 500_000_000,
{
    let e = height / 2_100_000;
    lemma2_to64();
    lemma_fundamental_div_mod(height as int, 2_100_000);
    if height < 2_100_000 {
        assert(e == 0);
        assert(pow2(e) == 1);
    }
    if height < 132_300_000 {
        assert((height + 2_100_000) / 2_100_000 == e + 1);
        lemma_pow2_pos(e);
        lemma_pow2_unfold(e + 1);
        assert(pow2(e + 1) == pow2(e) * 2) by {
            vstd::arithmetic::mul::lemma_mul_is_commutative(2, pow2(e) as int);
        }
        lemma_div_denominator(INITIAL_SUBSIDY as int, pow2(e) as int, 2);
    }
}

/// The subsidies up to a height grow by that of each block.
pub proof fn law_issue_grows(height: nat)
    ensures
        issued_below(0) == 0,
        issued_below(height + 1) == issued_below(height) + subsidy_at(height),
{
}

} // verus!
