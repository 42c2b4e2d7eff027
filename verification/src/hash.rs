//! The hash functions, called in the `sha2` and `ripemd` crates.
use ripemd::Ripemd160;
use sha2::{Digest, Sha256};
use vstd::prelude::*;

verus! {

/// What SHA-256 makes of `data`.
pub uninterp spec fn sha256(data: Seq<u8>) -> Seq<u8>;

/// What RIPEMD-160 makes of `data`.
pub uninterp spec fn ripemd160(data: Seq<u8>) -> Seq<u8>;

/// SHA-256 applied twice.
pub open spec fn sha256d_of(data: Seq<u8>) -> Seq<u8> {
    sha256(sha256(data))
}

/// RIPEMD-160 of SHA-256.
pub open spec fn hash160_of(data: Seq<u8>) -> Seq<u8> {
    ripemd160(sha256(data))
}

/// `sha2::Sha256::digest`: the digest is a function of the data alone.
#[verifier::external_body]
pub(crate) fn sha256_digest(data: &[u8]) -> (r: [u8; 32])
    ensures
        r@ == sha256(data@),
{
    Sha256::digest(data).into()
}

/// `ripemd::Ripemd160::digest`: the digest is a function of the data alone.
#[verifier::external_body]
pub(crate) fn ripemd160_digest(data: &[u8]) -> (r: [u8; 20])
    ensures
        r@ == ripemd160(data@),
{
    Ripemd160::digest(data).into()
}

/// SHA-256 applied twice.
pub fn sha256d(data: &[u8]) -> (r: [u8; 32])
    ensures
        r@ == sha256d_of(data@),
{
    let once = sha256_digest(data);
    sha256_digest(once.as_slice())
}

/// RIPEMD-160 of SHA-256.
pub fn hash160(data: &[u8]) -> (r: [u8; 20])
    ensures
        r@ == hash160_of(data@),
{
    let sha = sha256_digest(data);
    hash_ripemd160(sha.as_slice())
}

/// RIPEMD-160.
pub fn hash_ripemd160(data: &[u8]) -> (r: [u8; 20])
    ensures
        r@ == ripemd160(data@),
{
    ripemd160_digest(data)
}

} // verus!
