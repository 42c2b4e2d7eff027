//! Natural numbers of any size, kept in the `num-bigint` crate.
use crate::bytes;
use num_bigint::BigUint;
use vstd::arithmetic::power2::*;
use vstd::prelude::*;

verus! {

/// `num_bigint::BigUint`, a number held as base `2^32` digits.
#[verifier::external_type_specification]
#[verifier::external_body]
pub struct ExBigUint(num_bigint::BigUint);

/// The base `2^32` digits that a `BigUint` holds, least significant first.
pub uninterp spec fn big_digits(b: BigUint) -> Seq<u32>;

/// The number that base `2^32` digits write, least significant digit first.
pub open spec fn digits_value(s: Seq<u32>) -> nat
    decreases s.len(),
{
    if s.len() == 0 {
        0
    } else {
        s[0] as nat + 0x1_0000_0000 * digits_value(s.skip(1))
    }
}

/// The number that a `BigUint` stands for.
pub open spec fn big(b: BigUint) -> nat {
    digits_value(big_digits(b))
}

/// `BigUint::to_u32_digits` hands out the digits themselves.
#[verifier::external_body]
pub(crate) fn big_to_digits(a: &BigUint) -> (r: Vec<u32>)
    ensures
        r@ == big_digits(*a),
{
    a.to_u32_digits()
}

/// `BigUint::from_bytes_be` reads a big-endian number.
#[verifier::external_body]
pub(crate) fn big_from_be(bytes: &[u8]) -> (r: BigUint)
    ensures
        big(r) == bytes::be_value(bytes@),
{
    BigUint::from_bytes_be(bytes)
}

/// `BigUint::to_bytes_be` writes the number big-endian.
#[verifier::external_body]
pub(crate) fn big_to_be(a: &BigUint) -> (r: Vec<u8>)
    ensures
        bytes::be_value(r@) == big(*a),
{
    a.to_bytes_be()
}

/// `BigUint::from` keeps the number.
#[verifier::external_body]
pub(crate) fn big_from(x: u128) -> (r: BigUint)
    ensures
        big(r) == x,
{
    BigUint::from(x)
}

/// `BigUint::clone` keeps the number.
#[verifier::external_body]
pub(crate) fn big_clone(a: &BigUint) -> (r: BigUint)
    ensures
        big(r) == big(*a),
{
    a.clone()
}

/// `BigUint + BigUint` is the sum.
#[verifier::external_body]
pub(crate) fn big_add(a: &BigUint, b: &BigUint) -> (r: BigUint)
    ensures
        big(r) == big(*a) + big(*b),
{
    a + b
}

/// `BigUint * BigUint` is the product.
#[verifier::external_body]
pub(crate) fn big_mul(a: &BigUint, b: &BigUint) -> (r: BigUint)
    ensures
        big(r) == big(*a) * big(*b),
{
    a * b
}

/// `BigUint / BigUint` is the quotient rounded down; the divisor is not zero.
#[verifier::external_body]
pub(crate) fn big_div(a: &BigUint, b: &BigUint) -> (r: BigUint)
    requires
        big(*b) > 0,
    ensures
        big(r) == big(*a) / big(*b),
{
    a / b
}

/// `BigUint << n` multiplies by `2^n`.
#[verifier::external_body]
pub(crate) fn big_shl(a: &BigUint, n: usize) -> (r: BigUint)
    requires
        n <= 4096,
    ensures
        big(r) == big(*a) * pow2(n as nat),
{
    a << n
}

/// `BigUint >> n` divides by `2^n`, rounding down.
#[verifier::external_body]
pub(crate) fn big_shr(a: &BigUint, n: u64) -> (r: BigUint)
    ensures
        big(r) == big(*a) / pow2(n as nat),
{
    a >> n
}

/// `BigUint <= BigUint` compares the numbers.
#[verifier::external_body]
pub(crate) fn big_le(a: &BigUint, b: &BigUint) -> (r: bool)
    ensures
        r == (big(*a) <= big(*b)),
{
    a <= b
}

/// `BigUint::bits` is the length of the number in binary, 0 for zero.
#[verifier::external_body]
pub(crate) fn big_bits(a: &BigUint) -> (r: u64)
    ensures
        r == 0 <==> big(*a) == 0,
        r > 0 ==> pow2((r - 1) as nat) <= big(*a) < pow2(r as nat),
{
    a.bits()
}

/// `2^(8k)` is `256^k`.
pub proof fn lemma_pow2_bytes(k: nat)
    ensures
        pow2(8 * k) == bytes::pow256(k),
    decreases k,
{
    if k == 0 {
        lemma2_to64();
    } else {
        lemma_pow2_bytes((k - 1) as nat);
        lemma2_to64();
        lemma_pow2_adds(8, (8 * (k - 1)) as nat);
        assert(pow2(8) == 256);
        assert(pow2(8 * k) == pow2(8) * pow2((8 * (k - 1)) as nat));
    }
}

/// A number below `2^32` is its lowest digit.
pub(crate) proof fn lemma_small_digits(s: Seq<u32>)
    requires
        digits_value(s) < 0x1_0000_0000,
    ensures
        digits_value(s) == (if s.len() == 0 {
            0
        } else {
            s[0] as nat
        }),
{
    if s.len() > 0 {
        assert(digits_value(s.skip(1)) == 0) by (nonlinear_arith)
            requires
                digits_value(s) == s[0] as nat + 0x1_0000_0000 * digits_value(s.skip(1)),
                digits_value(s) < 0x1_0000_0000,
        ;
    }
}

} // verus!
