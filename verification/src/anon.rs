//! The rules for anonymous transactions.
use crate::bytes;
use crate::bytes::{read32, same32, same_bytes};
use crate::errors;
use crate::errors::{other, ChainError, Fault};
use crate::points;
use crate::points::{add_points, check_point, check_range_proof, commit_amount, sum_points};
use crate::store;
use crate::store::{Cf, Snapshot};
use crate::tx;
use crate::tx::{output_total, OutputMap, TXOutput, Transaction};
use vstd::prelude::*;

verus! {

/// The largest number of members that a ring may have.
pub const MAX_RING_SIZE: usize = 20;

/// What is known of the ring signature of one input, as the library for ring
/// signatures found it.
#[derive(Debug, Clone, Copy, PartialEq, Eq)]
pub struct RingProof {
    /// Whether the first 32 bytes of the input's script are a key image.
    pub key_image_valid: bool,
    /// The number of members of the ring; `None` where the rest of the script
    /// is no ring signature.
    pub ring_len: Option<usize>,
    /// Whether the ring signature signs the transaction under the key image.
    pub verifies: bool,
}

/// What verifying range proofs together came to.
#[derive(Debug, Clone, Copy, PartialEq, Eq, Structural)]
pub enum BatchVerdict {
    /// It failed.
    Failed,
    /// It ran, and the proofs do not hold.
    Rejected,
    /// It ran, and the proofs hold.
    Accepted,
}

/// What verifying `queued` proofs together comes to, given what the verifier
/// says: without a proof nothing is proved.
pub open spec fn batch_outcome(queued: nat, verdict: BatchVerdict) -> BatchVerdict {
    if queued == 0 {
        BatchVerdict::Rejected
    } else {
        verdict
    }
}

/// The key image that an input's script begins with.
pub open spec fn key_image(i: tx::InputView) -> Seq<u8> {
    i.script_sig.subrange(0, 32)
}

/// Whether an input before `i` has the key image of input `i`.
pub open spec fn image_seen(inputs: Seq<tx::InputView>, i: int) -> bool {
    exists|j: int| 0 <= j < i && key_image(#[trigger] inputs[j]) == key_image(inputs[i])
}

/// What is wrong with input `i`, where nothing is with those before it.
pub open spec fn ring_fault(
    t: tx::TxView,
    outputs: Map<tx::OutPoint, tx::OutputView>,
    db: store::Db,
    rings: Seq<RingProof>,
    i: int,
) -> Option<Fault> {
    let vin = t.inputs[i];
    let at = (vin.txid@, vin.vout);
    if vin.script_sig.len() < 32 {
        Some(Fault::InvalidScript)
    } else if !rings[i].key_image_valid {
        Some(Fault::InvalidKeyImage)
    } else if image_seen(t.inputs, i) {
        Some(Fault::DoubleSpend)
    } else if store::read(db, Cf::KeyImages, key_image(vin)) is Some {
        Some(Fault::DoubleSpend)
    } else if rings[i].ring_len is None {
        Some(Fault::Other("Deserialize clsag error"@))
    } else if rings[i].ring_len->0 > MAX_RING_SIZE || rings[i].ring_len->0 == 0 {
        Some(Fault::InvalidScript)
    } else if !rings[i].verifies {
        Some(Fault::Other("Clsag verify error"@))
    } else if !outputs.dom().contains(at) {
        Some(Fault::MissingUTXO)
    } else if tx::sum(tx::input_values(t.inputs, outputs).take(i + 1)) > u64::MAX {
        Some(Fault::ValueOverflow)
    } else {
        commitment_fault(outputs[at])
    }
}

/// What is wrong with the commitment of an output.
pub open spec fn commitment_fault(o: tx::OutputView) -> Option<Fault> {
    match o.commitment {
        Some(c) => if points::is_point(c) {
            None
        } else {
            Some(Fault::InvalidCommitment)
        },
        None => Some(Fault::InvalidCommitment),
    }
}

/// The number of outputs that come with a range proof.
pub open spec fn proved(t: tx::TxView) -> nat {
    if t.outputs.len() <= t.range_proofs.len() {
        t.outputs.len()
    } else {
        t.range_proofs.len()
    }
}

/// What is wrong with range proof `i` and its output.
pub open spec fn proof_fault(t: tx::TxView, i: int) -> Option<Fault> {
    if !points::is_range_proof(t.range_proofs[i]) {
        Some(Fault::Other("Deserialize proof error"@))
    } else {
        commitment_fault(t.outputs[i])
    }
}

/// The commitments of the outputs that the inputs spend.
pub open spec fn input_commitments(
    t: tx::TxView,
    outputs: Map<tx::OutPoint, tx::OutputView>,
) -> Seq<Seq<u8>> {
    t.inputs.map_values(|i: tx::InputView| outputs[(i.txid@, i.vout)].commitment->0)
}

/// The commitments of the outputs.
pub open spec fn output_commitments(t: tx::TxView) -> Seq<Seq<u8>> {
    t.outputs.map_values(|o: tx::OutputView| o.commitment->0)
}

/// Whether commitments balance: those of the inputs sum to those of the
/// outputs and the commitment to the fee.
pub open spec fn balanced(ins: Seq<Seq<u8>>, outs: Seq<Seq<u8>>, fee: u64) -> bool {
    points::total_point(ins) == points::point_sum(
        points::total_point(outs),
        points::amount_point(fee),
    )
}

/// Whether an anonymous transaction is valid, given the outputs that its
/// inputs name, the key images spent so far, its ring signatures and what
/// verifying its range proofs came to.
pub open spec fn anonymous_verdict(
    t: tx::TxView,
    outputs: Map<tx::OutPoint, tx::OutputView>,
    db: store::Db,
    rings: Seq<RingProof>,
    batch: BatchVerdict,
) -> Result<(), Fault> {
    let ins = tx::sum(tx::input_values(t.inputs, outputs));
    let outs = tx::sum(tx::values(t.outputs));
    match errors::first_fault(|i: int| ring_fault(t, outputs, db, rings, i), t.inputs.len()) {
        Some(e) => Err(e),
        None => if outs > u64::MAX || ins < outs {
            Err(Fault::ValueOverflow)
        } else {
            match errors::first_fault(|i: int| proof_fault(t, i), proved(t)) {
                Some(e) => Err(e),
                None => if batch_outcome(proved(t), batch) != BatchVerdict::Accepted {
                    Err(Fault::InvalidRangeProof)
                } else {
                    match errors::first_fault(
                        |i: int| commitment_fault(t.outputs[i]),
                        t.outputs.len(),
                    ) {
                        Some(e) => Err(e),
                        None => if balanced(
                            input_commitments(t, outputs),
                            output_commitments(t),
                            (ins - outs) as u64,
                        ) {
                            Ok(())
                        } else {
                            Err(Fault::InvalidCommitment)
                        },
                    }
                },
            }
        },
    }
}

/// Whether the script of input `i` begins with a key image that an input
/// before it has.
fn seen_before(tx: &Transaction, i: usize, image: &[u8; 32]) -> (r: bool)
    requires
        i < tx.inputs@.len(),
        forall|j: int| 0 <= j <= i ==> (#[trigger] tx.inputs@[j]).script_sig@.len() >= 32,
        image@ == key_image(tx@.inputs[i as int]),
    ensures
        r == image_seen(tx@.inputs, i as int),
{
    let mut j: usize = 0;
    while j < i
        invariant
            j <= i < tx.inputs@.len(),
            image@ == key_image(tx@.inputs[i as int]),
            forall|k: int| 0 <= k <= i ==> (#[trigger] tx.inputs@[k]).script_sig@.len() >= 32,
            forall|k: int| 0 <= k < j ==> key_image(#[trigger] tx@.inputs[k]) != image@,
        decreases i - j,
    {
        let other_image = &tx.inputs[j].script_sig.as_slice()[0..32];
        assert(other_image@ == key_image(tx@.inputs[j as int]));
        if same_bytes(other_image, image.as_slice()) {
            assert(image_seen(tx@.inputs, i as int));
            return true;
        }
        j += 1;
    }
    false
}

/// The commitment of an output, where it has one and it is a point.
pub(crate) fn commitment_point(o: &TXOutput) -> (r: Result<[u8; 32], ChainError>)
    ensures
        match r {
            Ok(c) => commitment_fault(o@) is None && o@.commitment == Some(c@) && points::is_point(
                c@,
            ),
            Err(e) => commitment_fault(o@) == Some(e@),
        },
{
    match &o.commitment {
        None => Err(ChainError::InvalidCommitment),
        Some(c) => {
            if check_point(c.as_slice()) {
                let p = read32(c.as_slice(), 0);
                assert(p@ =~= c@);
                Ok(p)
            } else {
                Err(ChainError::InvalidCommitment)
            }
        },
    }
}

/// Checks input `i`, the inputs before it having passed with the sum `acc`:
/// the sum with this input, and the commitment of what it spends.
fn check_ring_input(
    tx: &Transaction,
    outputs: &OutputMap,
    db: &Snapshot,
    rings: &Vec<RingProof>,
    i: usize,
    acc: u64,
) -> (r: Result<(u64, [u8; 32]), ChainError>)
    requires
        i < tx.inputs@.len(),
        rings@.len() == tx.inputs@.len(),
        forall|j: int| 0 <= j < i ==> (#[trigger] tx.inputs@[j]).script_sig@.len() >= 32,
        acc == tx::sum(tx::input_values(tx@.inputs, outputs@).take(i as int)),
    ensures
        match r {
            Ok((s, c)) => {
                &&& ring_fault(tx@, outputs@, db@, rings@, i as int) is None
                &&& s == tx::sum(tx::input_values(tx@.inputs, outputs@).take(i + 1))
                &&& c@ == input_commitments(tx@, outputs@)[i as int]
                &&& points::is_point(c@)
            },
            Err(e) => ring_fault(tx@, outputs@, db@, rings@, i as int) == Some(e@),
        },
{
    let vin = &tx.inputs[i];
    assert(tx@.inputs[i as int] == vin@);
    if vin.script_sig.len() < 32 {
        return Err(ChainError::InvalidScript);
    }
    let ring = &rings[i];
    if !ring.key_image_valid {
        return Err(ChainError::InvalidKeyImage);
    }
    let image = read32(vin.script_sig.as_slice(), 0);
    if seen_before(tx, i, &image) {
        return Err(ChainError::DoubleSpend);
    }
    if db.get(Cf::KeyImages, image.as_slice()).is_some() {
        return Err(ChainError::DoubleSpend);
    }
    match ring.ring_len {
        None => {
            return Err(other("Deserialize clsag error"));
        },
        Some(n) => {
            if n > MAX_RING_SIZE || n == 0 {
                return Err(ChainError::InvalidScript);
            }
        },
    }
    if !ring.verifies {
        return Err(other("Clsag verify error"));
    }
    match outputs.get(&vin.txid, vin.vout) {
        None => Err(ChainError::MissingUTXO),
        Some(out) => {
            let ghost all = tx::input_values(tx@.inputs, outputs@);
            proof {
                assert(all.take(i + 1).drop_last() =~= all.take(i as int));
                assert(all.take(i + 1).last() == out.value);
            }
            match acc.checked_add(out.value) {
                None => Err(ChainError::ValueOverflow),
                Some(s) => match commitment_point(out) {
                    Ok(c) => Ok((s, c)),
                    Err(e) => Err(e),
                },
            }
        },
    }
}

/// Checks the inputs: what they bring in, and the commitments they spend.
fn check_ring_inputs(
    tx: &Transaction,
    outputs: &OutputMap,
    db: &Snapshot,
    rings: &Vec<RingProof>,
) -> (r: Result<(u64, Vec<[u8; 32]>), ChainError>)
    requires
        rings@.len() == tx.inputs@.len(),
    ensures
        ({
            let fault = errors::first_fault(
                |i: int| ring_fault(tx@, outputs@, db@, rings@, i),
                tx.inputs@.len(),
            );
            match r {
                Ok((s, cs)) => {
                    &&& fault is None
                    &&& s == tx::sum(tx::input_values(tx@.inputs, outputs@))
                    &&& tx::ids(cs@) == input_commitments(tx@, outputs@)
                    &&& forall|j: int| 0 <= j < cs@.len() ==> points::is_point((#[trigger] cs@[j])@)
                },
                Err(e) => fault == Some(e@),
            }
        }),
{
    let ghost check = |i: int| ring_fault(tx@, outputs@, db@, rings@, i);
    let ghost all = tx::input_values(tx@.inputs, outputs@);
    let mut acc: u64 = 0;
    let mut commitments: Vec<[u8; 32]> = Vec::new();
    let mut i: usize = 0;
    assert(all.take(0) =~= Seq::<u64>::empty());
    while i < tx.inputs.len()
        invariant
            i <= tx.inputs@.len(),
            rings@.len() == tx.inputs@.len(),
            check == (|i: int| ring_fault(tx@, outputs@, db@, rings@, i)),
            all == tx::input_values(tx@.inputs, outputs@),
            errors::first_fault(check, i as nat) is None,
            acc == tx::sum(all.take(i as int)),
            commitments@.len() == i,
            forall|j: int| 0 <= j < i ==> (#[trigger] tx.inputs@[j]).script_sig@.len() >= 32,
            forall|j: int|
                0 <= j < i ==> (#[trigger] commitments@[j])@ == input_commitments(tx@, outputs@)[j]
                    && points::is_point(commitments@[j]@),
        decreases tx.inputs@.len() - i,
    {
        match check_ring_input(tx, outputs, db, rings, i, acc) {
            Ok((s, c)) => {
                acc = s;
                commitments.push(c);
                assert(check(i as int) is None);
                assert(tx@.inputs[i as int].script_sig == tx.inputs@[i as int].script_sig@);
            },
            Err(e) => {
                proof {
                    assert(check(i as int) == Some(e@));
                    assert(errors::first_fault(check, (i + 1) as nat) == Some(e@));
                    errors::lemma_first_fault(check, (i + 1) as nat, tx.inputs@.len());
                }
                return Err(e);
            },
        }
        i += 1;
    }
    assert(all.take(i as int) =~= all);
    assert(tx::ids(commitments@) =~= input_commitments(tx@, outputs@));
    Ok((acc, commitments))
}

/// Checks the range proofs and the commitments that they are for.
pub(crate) fn check_proofs(tx: &Transaction) -> (r: Result<(), ChainError>)
    ensures
        match r {
            Ok(_) => errors::first_fault(|i: int| proof_fault(tx@, i), proved(tx@)) is None,
            Err(e) => errors::first_fault(|i: int| proof_fault(tx@, i), proved(tx@)) == Some(e@),
        },
{
    let ghost check = |i: int| proof_fault(tx@, i);
    let mut i: usize = 0;
    while i < tx.outputs.len() && i < tx.range_proofs.len()
        invariant
            i <= proved(tx@),
            check == (|i: int| proof_fault(tx@, i)),
            errors::first_fault(check, i as nat) is None,
        decreases tx.outputs@.len() - i,
    {
        assert(tx@.range_proofs[i as int] == tx.range_proofs@[i as int]@);
        assert(tx@.outputs[i as int] == tx.outputs@[i as int]@);
        let fault: Option<ChainError> = if !check_range_proof(tx.range_proofs[i].as_slice()) {
            Some(other("Deserialize proof error"))
        } else {
            match commitment_point(&tx.outputs[i]) {
                Ok(_) => None,
                Err(e) => Some(e),
            }
        };
        match fault {
            Some(e) => {
                proof {
                    assert(check(i as int) == Some(e@));
                    assert(errors::first_fault(check, (i + 1) as nat) == Some(e@));
                    errors::lemma_first_fault(check, (i + 1) as nat, proved(tx@));
                }
                return Err(e);
            },
            None => {
                assert(check(i as int) is None);
            },
        }
        i += 1;
    }
    Ok(())
}

/// The commitments of the outputs, where each has one.
fn check_output_commitments(tx: &Transaction) -> (r: Result<Vec<[u8; 32]>, ChainError>)
    ensures
        ({
            let fault = errors::first_fault(
                |i: int| commitment_fault(tx@.outputs[i]),
                tx.outputs@.len(),
            );
            match r {
                Ok(cs) => {
                    &&& fault is None
                    &&& tx::ids(cs@) == output_commitments(tx@)
                    &&& forall|j: int| 0 <= j < cs@.len() ==> points::is_point((#[trigger] cs@[j])@)
                },
                Err(e) => fault == Some(e@),
            }
        }),
{
    let ghost check = |i: int| commitment_fault(tx@.outputs[i]);
    let mut commitments: Vec<[u8; 32]> = Vec::new();
    let mut i: usize = 0;
    while i < tx.outputs.len()
        invariant
            i <= tx.outputs@.len(),
            check == (|i: int| commitment_fault(tx@.outputs[i])),
            errors::first_fault(check, i as nat) is None,
            commitments@.len() == i,
            forall|j: int|
                0 <= j < i ==> (#[trigger] commitments@[j])@ == output_commitments(tx@)[j]
                    && points::is_point(commitments@[j]@),
        decreases tx.outputs@.len() - i,
    {
        assert(tx@.outputs[i as int] == tx.outputs@[i as int]@);
        match commitment_point(&tx.outputs[i]) {
            Ok(c) => {
                commitments.push(c);
                assert(check(i as int) is None);
            },
            Err(e) => {
                proof {
                    assert(check(i as int) == Some(e@));
                    assert(errors::first_fault(check, (i + 1) as nat) == Some(e@));
                    errors::lemma_first_fault(check, (i + 1) as nat, tx.outputs@.len());
                }
                return Err(e);
            },
        }
        i += 1;
    }
    assert(tx::ids(commitments@) =~= output_commitments(tx@));
    Ok(commitments)
}

/// Whether commitments balance. Without a fee they do where those of the inputs
/// sum to those of the outputs; none and none balance.
pub fn commitments_balance(ins: &Vec<[u8; 32]>, outs: &Vec<[u8; 32]>, fee: u64) -> (r: bool)
    requires
        forall|i: int| 0 <= i < ins@.len() ==> points::is_point((#[trigger] ins@[i])@),
        forall|i: int| 0 <= i < outs@.len() ==> points::is_point((#[trigger] outs@[i])@),
    ensures
        r == balanced(tx::ids(ins@), tx::ids(outs@), fee),
        fee == 0 ==> r == (points::total_point(tx::ids(ins@)) == points::total_point(
            tx::ids(outs@),
        )),
{
    let left = sum_points(ins);
    let right = add_points(&sum_points(outs), &commit_amount(fee));
    proof {
        bytes::lemma_id_ext(left, right);
    }
    same32(&left, &right)
}

/// Whether verifying `queued` proofs together found that they hold, given what
/// the verifier says.
pub fn batch_accepted(queued: usize, verdict: BatchVerdict) -> (r: bool)
    ensures
        r == (batch_outcome(queued as nat, verdict) == BatchVerdict::Accepted),
{
    queued > 0 && verdict == BatchVerdict::Accepted
}

/// Whether an anonymous transaction is valid.
pub fn validate_anonymous_tx(
    tx: &Transaction,
    anonymous_outputs: &OutputMap,
    db: &Snapshot,
    rings: &Vec<RingProof>,
    batch: BatchVerdict,
) -> (r: Result<(), ChainError>)
    requires
        rings@.len() == tx.inputs@.len(),
    ensures
        errors::verdict(r) == anonymous_verdict(tx@, anonymous_outputs@, db@, rings@, batch),
{
    let (input_sum, spent) = match check_ring_inputs(tx, anonymous_outputs, db, rings) {
        Ok(x) => x,
        Err(e) => {
            return Err(e);
        },
    };
    let output_sum: u64 = match output_total(&tx.outputs) {
        Some(s) => s,
        None => {
            return Err(ChainError::ValueOverflow);
        },
    };
    let fee: u64 = match input_sum.checked_sub(output_sum) {
        Some(f) => f,
        None => {
            return Err(ChainError::ValueOverflow);
        },
    };
    match check_proofs(tx) {
        Ok(_) => {},
        Err(e) => {
            return Err(e);
        },
    }
    let queued: usize = if tx.outputs.len() <= tx.range_proofs.len() {
        tx.outputs.len()
    } else {
        tx.range_proofs.len()
    };
    if !batch_accepted(queued, batch) {
        return Err(ChainError::InvalidRangeProof);
    }
    let made = match check_output_commitments(tx) {
        Ok(x) => x,
        Err(e) => {
            return Err(e);
        },
    };
    if commitments_balance(&spent, &made, fee) {
        Ok(())
    } else {
        Err(ChainError::InvalidCommitment)
    }
}

/// A key image is spent once: a transaction that names one that was spent, or
/// names one twice, is not valid.
pub proof fn law_key_image_spent_once(
    t: tx::TxView,
    outputs: Map<tx::OutPoint, tx::OutputView>,
    db: store::Db,
    rings: Seq<RingProof>,
    batch: BatchVerdict,
    i: int,
)
    requires
        0 <= i < t.inputs.len(),
        t.inputs[i].script_sig.len() >= 32,
        store::read(db, Cf::KeyImages, key_image(t.inputs[i])) is Some || image_seen(t.inputs, i),
    ensures
        anonymous_verdict(t, outputs, db, rings, batch) is Err,
{
    let check = |i: int| ring_fault(t, outputs, db, rings, i);
    assert(check(i) is Some);
    assert(errors::first_fault(check, (i + 1) as nat) is Some);
    errors::lemma_first_fault(check, (i + 1) as nat, t.inputs.len());
}

/// What an anonymous transaction has to be: every input has a script of 32
/// bytes or more, that begins with a valid key image which is recorded nowhere
/// and differs from those of the inputs before, a ring of one to 20 members
/// that verifies, and names an output with a commitment; the outputs take out
/// no more than the inputs bring in; there is a range proof, all of them can
/// be read and verify; every output has a commitment; and the commitments of
/// the inputs are those of the outputs and the fee. Such a transaction is
/// valid, and no other.
pub proof fn law_anonymous_valid(
    t: tx::TxView,
    outputs: Map<tx::OutPoint, tx::OutputView>,
    db: store::Db,
    rings: Seq<RingProof>,
    batch: BatchVerdict,
)
    ensures
        anonymous_verdict(t, outputs, db, rings, batch) is Ok <==> {
            let ins = tx::sum(tx::input_values(t.inputs, outputs));
            let outs = tx::sum(tx::values(t.outputs));
            &&& forall|i: int|
                0 <= i < t.inputs.len() ==> {
                    let vin = #[trigger] t.inputs[i];
                    &&& vin.script_sig.len() >= 32
                    &&& rings[i].key_image_valid
                    &&& rings[i].verifies
                    &&& rings[i].ring_len is Some && 1 <= rings[i].ring_len->0 <= 20
                    &&& store::read(db, Cf::KeyImages, vin.script_sig.take(32)) is None
                    &&& outputs.dom().contains((vin.txid@, vin.vout))
                    &&& outputs[(vin.txid@, vin.vout)].commitment is Some
                    &&& points::is_point(outputs[(vin.txid@, vin.vout)].commitment->0)
                }
            &&& forall|i: int, j: int|
                0 <= i < j < t.inputs.len() ==> (#[trigger] t.inputs[i]).script_sig.take(32) != (
                #[trigger] t.inputs[j]).script_sig.take(32)
            &&& outs <= ins <= u64::MAX
            &&& t.outputs.len() > 0 && t.range_proofs.len() > 0
            &&& batch == BatchVerdict::Accepted
            &&& forall|i: int|
                0 <= i < t.outputs.len() && i < t.range_proofs.len() ==> points::is_range_proof(
                    #[trigger] t.range_proofs[i],
                )
            &&& forall|i: int|
                0 <= i < t.outputs.len() ==> (#[trigger] t.outputs[i]).commitment is Some
                    && points::is_point(t.outputs[i].commitment->0)
            &&& points::total_point(
                t.inputs.map_values(
                    |i: tx::InputView| outputs[(i.txid@, i.vout)].commitment->0,
                ),
            ) == points::point_sum(
                points::total_point(t.outputs.map_values(|o: tx::OutputView| o.commitment->0)),
                points::amount_point((ins - outs) as u64),
            )
        },
{
    let all = tx::input_values(t.inputs, outputs);
    let ring = |i: int| ring_fault(t, outputs, db, rings, i);
    let proof_check = |i: int| proof_fault(t, i);
    let made = |i: int| commitment_fault(t.outputs[i]);
    let n = t.inputs.len();
    let r = anonymous_verdict(t, outputs, db, rings, batch);
    assert(all.take(n as int) =~= all);
    assert forall|i: int| 0 <= i < n implies (#[trigger] t.inputs[i]).script_sig.len() >= 32
        ==> key_image(t.inputs[i]) == t.inputs[i].script_sig.take(32) by {
        assert(t.inputs[i].script_sig.subrange(0, 32) =~= t.inputs[i].script_sig.take(32));
    }
    let a = errors::law_first_fault(ring, n);
    let b = errors::law_first_fault(proof_check, proved(t));
    let c = errors::law_first_fault(made, t.outputs.len());
    if r is Ok {
        assert forall|i: int| 0 <= i < n implies {
            let vin = #[trigger] t.inputs[i];
            &&& vin.script_sig.len() >= 32
            &&& rings[i].key_image_valid
            &&& rings[i].verifies
            &&& rings[i].ring_len is Some && 1 <= rings[i].ring_len->0 <= 20
            &&& store::read(db, Cf::KeyImages, vin.script_sig.take(32)) is None
            &&& outputs.dom().contains((vin.txid@, vin.vout))
            &&& outputs[(vin.txid@, vin.vout)].commitment is Some
            &&& points::is_point(outputs[(vin.txid@, vin.vout)].commitment->0)
        } by {
            assert(ring(i) is None);
        }
        assert forall|i: int, j: int| 0 <= i < j < n implies (
        #[trigger] t.inputs[i]).script_sig.take(32) != (#[trigger] t.inputs[j]).script_sig.take(
            32,
        ) by {
            assert(ring(i) is None);
            assert(ring(j) is None);
            assert(!image_seen(t.inputs, j));
            assert(key_image(t.inputs[i]) != key_image(t.inputs[j]));
        }
        if n > 0 {
            assert(ring(n - 1) is None);
            assert(tx::sum(all.take(n as int)) <= u64::MAX);
        } else {
            assert(all =~= Seq::<u64>::empty());
        }
        assert forall|i: int| 0 <= i < t.outputs.len() && i < t.range_proofs.len() implies
            points::is_range_proof(#[trigger] t.range_proofs[i]) by {
            assert(proof_check(i) is None);
        }
        assert forall|i: int| 0 <= i < t.outputs.len() implies (
        #[trigger] t.outputs[i]).commitment is Some && points::is_point(
            t.outputs[i].commitment->0,
        ) by {
            assert(made(i) is None);
        }
    } else {
        if errors::first_fault(ring, n) is Some {
            let vin = t.inputs[a];
            assert(ring(a) is Some);
            if image_seen(t.inputs, a) && vin.script_sig.len() >= 32 {
                let j = choose|j: int|
                    0 <= j < a && key_image(#[trigger] t.inputs[j]) == key_image(t.inputs[a]);
                assert(ring(j) is None);
                assert(t.inputs[j].script_sig.len() >= 32);
                assert(t.inputs[j].script_sig.take(32) == vin.script_sig.take(32));
            } else if tx::sum(all.take(a + 1)) > u64::MAX {
                tx::lemma_sum_take(all, a + 1);
            }
        } else if errors::first_fault(proof_check, proved(t)) is Some {
            assert(proof_check(b) is Some);
            assert(t.range_proofs[b] == t.range_proofs[b]);
            assert(t.outputs[b] == t.outputs[b]);
        } else if errors::first_fault(made, t.outputs.len()) is Some {
            assert(made(c) is Some);
        }
    }
}

} // verus!
