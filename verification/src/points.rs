//! Points of the group Ristretto255 by their encoding of 32 bytes, from the
//! `curve25519-dalek` and `bulletproofs` crates. A point has one encoding, so
//! two points are equal where their encodings are.
use bulletproofs::{PedersenGens, RangeProof};
use curve25519_dalek::ristretto::CompressedRistretto;
use curve25519_dalek::scalar::Scalar;
use vstd::prelude::*;

verus! {

/// Whether bytes encode a point.
pub uninterp spec fn is_point(data: Seq<u8>) -> bool;

/// The encoding of the sum of two points.
pub uninterp spec fn point_sum(a: Seq<u8>, b: Seq<u8>) -> Seq<u8>;

/// The encoding of the commitment to an amount without a blinding factor.
pub uninterp spec fn amount_point(amount: u64) -> Seq<u8>;

/// The encoding of the neutral point.
pub open spec fn neutral_point() -> Seq<u8> {
    Seq::new(32, |i: int| 0u8)
}

/// Whether bytes hold a range proof.
pub uninterp spec fn is_range_proof(data: Seq<u8>) -> bool;

/// `CompressedRistretto::from_slice` and `decompress`: whether bytes encode a
/// point depends on the bytes alone, and they are 32 where they do.
#[verifier::external_body]
pub(crate) fn check_point(data: &[u8]) -> (r: bool)
    ensures
        r == is_point(data@),
        r ==> data@.len() == 32,
{
    match CompressedRistretto::from_slice(data) {
        Ok(point) => point.decompress().is_some(),
        Err(_) => false,
    }
}

/// The sum of two `RistrettoPoint`s, given and returned by their encodings: a
/// point, and a function of the two alone. A point has one encoding, that of
/// the neutral point is all zeros, and adding that point changes nothing.
#[verifier::external_body]
pub(crate) fn add_points(a: &[u8; 32], b: &[u8; 32]) -> (r: [u8; 32])
    requires
        is_point(a@),
        is_point(b@),
    ensures
        r@ == point_sum(a@, b@),
        is_point(r@),
        b@ == neutral_point() ==> r@ == a@,
        a@ == neutral_point() ==> r@ == b@,
{
    let left = CompressedRistretto(*a).decompress().expect("an encoded point");
    let right = CompressedRistretto(*b).decompress().expect("an encoded point");
    (left + right).compress().to_bytes()
}

/// `bulletproofs::PedersenGens::commit` with the default generators and no
/// blinding factor: a point, and a function of the amount alone. It is the
/// amount times a generator, so the commitment to nothing is the neutral point.
#[verifier::external_body]
pub(crate) fn commit_amount(amount: u64) -> (r: [u8; 32])
    ensures
        r@ == amount_point(amount),
        is_point(r@),
        amount == 0 ==> r@ == neutral_point(),
{
    PedersenGens::default().commit(Scalar::from(amount), Scalar::ZERO).compress().to_bytes()
}

/// `bincode::deserialize` to a `bulletproofs::RangeProof`: whether it succeeds
/// depends on the bytes alone.
#[verifier::external_body]
pub(crate) fn check_range_proof(data: &[u8]) -> (r: bool)
    ensures
        r == is_range_proof(data@),
{
    bincode::deserialize::<RangeProof>(data).is_ok()
}

/// The sum of points, from the commitment to nothing on.
pub open spec fn total_point(points: Seq<Seq<u8>>) -> Seq<u8>
    decreases points.len(),
{
    if points.len() == 0 {
        amount_point(0)
    } else {
        point_sum(total_point(points.drop_last()), points.last())
    }
}

/// The sum of points.
pub fn sum_points(points: &Vec<[u8; 32]>) -> (r: [u8; 32])
    requires
        forall|i: int| 0 <= i < points@.len() ==> is_point((#[trigger] points@[i])@),
    ensures
        r@ == total_point(crate::tx::ids(points@)),
        is_point(r@),
{
    let ghost all = crate::tx::ids(points@);
    let mut acc = commit_amount(0);
    let mut i: usize = 0;
    assert(all.take(0) =~= Seq::<Seq<u8>>::empty());
    while i < points.len()
        invariant
            i <= points@.len(),
            all == crate::tx::ids(points@),
            forall|j: int| 0 <= j < points@.len() ==> is_point((#[trigger] points@[j])@),
            acc@ == total_point(all.take(i as int)),
            is_point(acc@),
        decreases points@.len() - i,
    {
        acc = add_points(&acc, &points[i]);
        assert(all.take(i + 1).drop_last() =~= all.take(i as int));
        i += 1;
    }
    assert(all.take(all.len() as int) =~= all);
    acc
}

} // verus!
