//! The rules for blocks.
use crate::anon;
use crate::anon::{check_proofs, commitments_balance, BatchVerdict};
use crate::bytes;
use crate::bytes::same32;
use crate::codec;
use crate::codec::deserialize_output;
use crate::errors;
use crate::errors::{invalid_block, other, ChainError, Fault};
use crate::ledger;
use crate::ledger::{calculate_next_bits, get_median_timestamp};
use crate::params;
use crate::params::{subsidy, MAX_BLOCK_SIZE};
use crate::points;
use crate::points::check_point;
use crate::store;
use crate::store::Snapshot;
use crate::target;
use crate::target::{compact_to_target, u256_from_be};
use crate::tx;
use crate::tx::{Block, OutputMap, TXOutput, Transaction};
use crate::utxo;
use crate::validate;
use crate::validate::{get_record, validate_transaction, TxProofs};
use std::collections::HashMap;
use vstd::prelude::*;

verus! {

/// How many seconds the time of a block may be ahead of the clock.
pub const MAX_TIME_AHEAD: u32 = 7200;

/// Outputs by their place.
pub type Known = Map<tx::OutPoint, tx::OutputView>;

// ---------------------------------------------------------------------------
// Size and proof of work
// ---------------------------------------------------------------------------

/// Whether a block is small enough and its hash meets its target.
pub open spec fn work_verdict(b: tx::BlockView, hash: Seq<u8>) -> Result<(), Fault> {
    if codec::enc_block(b).len() > MAX_BLOCK_SIZE {
        Err(Fault::InvalidBlock("Block too large"@))
    } else if !target::bits_accepted(b.header.bits) {
        Err(Fault::InvalidBlock("target exponent too large"@))
    } else if !target::meets(hash, b.header.bits) {
        Err(Fault::InsufficientPoW)
    } else {
        Ok(())
    }
}

/// Whether a block is small enough and its hash meets its target.
pub fn check_work(block: &Block, hash: &[u8; 32]) -> (r: Result<(), ChainError>)
    ensures
        errors::verdict(r) == work_verdict(block@, hash@),
{
    if block.size() > MAX_BLOCK_SIZE {
        return Err(invalid_block("Block too large"));
    }
    let goal = match compact_to_target(block.header.bits) {
        Ok(t) => t,
        Err(e) => {
            return Err(e);
        },
    };
    if !crate::big::big_le(&u256_from_be(hash.as_slice()), &goal) {
        Err(ChainError::InsufficientPoW)
    } else {
        Ok(())
    }
}

// ---------------------------------------------------------------------------
// The outputs that a block spends
// ---------------------------------------------------------------------------

/// What is wrong with the record of the output that an input names: only that
/// it is there and not readable.
pub open spec fn record_fault(db: store::Db, t: tx::TxView, i: int) -> Option<Fault> {
    match validate::record(db, t.is_anonymous, t.inputs[i]) {
        Some(b) => if codec::read_output(b) is None {
            Some(Fault::Other("Deserialize output failed"@))
        } else {
            None
        },
        None => None,
    }
}

/// What is wrong with the records that transaction `k` of a block names; the
/// first transaction names none.
pub open spec fn records_fault(db: store::Db, txs: Seq<tx::TxView>, k: int) -> Option<Fault> {
    if k == 0 {
        None
    } else {
        errors::first_fault(|i: int| record_fault(db, txs[k], i), txs[k].inputs.len())
    }
}

/// The stored outputs that the first `n` transactions of a block name, the
/// first left out, either the anonymous ones or the others.
pub open spec fn block_outputs(
    db: store::Db,
    txs: Seq<tx::TxView>,
    anonymous: bool,
    n: nat,
) -> Known
    decreases n,
{
    if n <= 1 {
        Map::empty()
    } else {
        let before = block_outputs(db, txs, anonymous, (n - 1) as nat);
        let t = txs[n - 1];
        if t.is_anonymous == anonymous {
            validate::stored_outputs(before, db, anonymous, t.inputs, t.inputs.len())
        } else {
            before
        }
    }
}

/// Adds the stored outputs that a transaction names to those known.
fn load_tx_outputs(tx: &Transaction, db: &Snapshot, known: &mut OutputMap) -> (r: Result<
    (),
    ChainError,
>)
    ensures
        ({
            let fault = errors::first_fault(
                |i: int| record_fault(db@, tx@, i),
                tx.inputs@.len(),
            );
            match r {
                Ok(_) => fault is None && final(known)@ == validate::stored_outputs(
                    old(known)@,
                    db@,
                    tx.is_anonymous,
                    tx@.inputs,
                    tx.inputs@.len(),
                ),
                Err(e) => fault == Some(e@),
            }
        }),
{
    let ghost check = |i: int| record_fault(db@, tx@, i);
    let ghost start = known@;
    let mut i: usize = 0;
    while i < tx.inputs.len()
        invariant
            i <= tx.inputs@.len(),
            start == old(known)@,
            check == (|i: int| record_fault(db@, tx@, i)),
            errors::first_fault(check, i as nat) is None,
            known@ == validate::stored_outputs(
                start,
                db@,
                tx.is_anonymous,
                tx@.inputs,
                i as nat,
            ),
        decreases tx.inputs@.len() - i,
    {
        let vin = &tx.inputs[i];
        assert(tx@.inputs[i as int] == vin@);
        match get_record(db, tx.is_anonymous, &vin.txid, vin.vout) {
            None => {
                assert(check(i as int) is None);
            },
            Some(b) => match deserialize_output(b.as_slice()) {
                None => {
                    let e = other("Deserialize output failed");
                    proof {
                        assert(check(i as int) == Some(e@));
                        assert(errors::first_fault(check, (i + 1) as nat) == Some(e@));
                        errors::lemma_first_fault(check, (i + 1) as nat, tx.inputs@.len());
                    }
                    return Err(e);
                },
                Some(o) => {
                    known.insert(vin.txid, vin.vout, o);
                    assert(check(i as int) is None);
                },
            },
        }
        i += 1;
    }
    Ok(())
}

/// The stored outputs that a block spends: the transparent ones, and the
/// anonymous ones.
fn load_block_outputs(block: &Block, db: &Snapshot) -> (r: Result<
    (OutputMap, OutputMap),
    ChainError,
>)
    ensures
        ({
            let txs = block@.txs;
            let fault = errors::first_fault(|k: int| records_fault(db@, txs, k), txs.len());
            match r {
                Ok((utxos, anons)) => {
                    &&& fault is None
                    &&& utxos@ == block_outputs(db@, txs, false, txs.len())
                    &&& anons@ == block_outputs(db@, txs, true, txs.len())
                },
                Err(e) => fault == Some(e@),
            }
        }),
{
    let ghost txs = block@.txs;
    let ghost check = |k: int| records_fault(db@, txs, k);
    let mut utxos = OutputMap::new();
    let mut anons = OutputMap::new();
    let mut k: usize = 0;
    while k < block.txs.len()
        invariant
            k <= block.txs@.len(),
            txs == block@.txs,
            check == (|k: int| records_fault(db@, txs, k)),
            errors::first_fault(check, k as nat) is None,
            utxos@ == block_outputs(db@, txs, false, k as nat),
            anons@ == block_outputs(db@, txs, true, k as nat),
        decreases block.txs@.len() - k,
    {
        if k > 0 {
            let t = &block.txs[k];
            assert(txs[k as int] == t@);
            let res = if t.is_anonymous {
                load_tx_outputs(t, db, &mut anons)
            } else {
                load_tx_outputs(t, db, &mut utxos)
            };
            match res {
                Ok(_) => {
                    assert(check(k as int) is None);
                },
                Err(e) => {
                    proof {
                        assert(check(k as int) == Some(e@));
                        assert(errors::first_fault(check, (k + 1) as nat) == Some(e@));
                        errors::lemma_first_fault(check, (k + 1) as nat, txs.len());
                    }
                    return Err(e);
                },
            }
        } else {
            assert(check(0) is None);
        }
        k += 1;
    }
    Ok((utxos, anons))
}

// ---------------------------------------------------------------------------
// Transactions and fees
// ---------------------------------------------------------------------------

/// What is wrong with transaction `k` of a block; the first is not checked.
pub open spec fn tx_fault(
    txs: Seq<tx::TxView>,
    best_height: usize,
    db: store::Db,
    height: usize,
    proofs: Seq<TxProofs>,
    k: int,
) -> Option<Fault> {
    if k == 0 {
        None
    } else {
        match validate::transaction_verdict(
            txs[k],
            best_height,
            db,
            height,
            proofs[k].rings@,
            proofs[k].batch,
        ) {
            Ok(_) => None,
            Err(e) => Some(e),
        }
    }
}

fn check_txs(
    block: &Block,
    best_height: usize,
    db: &Snapshot,
    height: usize,
    proofs: &Vec<TxProofs>,
) -> (r: Result<(), ChainError>)
    requires
        utxo::block_proofs_fit(block@, proofs@),
    ensures
        ({
            let txs = block@.txs;
            let fault = errors::first_fault(
                |k: int| tx_fault(txs, best_height, db@, height, proofs@, k),
                txs.len(),
            );
            match r {
                Ok(_) => fault is None,
                Err(e) => fault == Some(e@),
            }
        }),
{
    let ghost txs = block@.txs;
    let ghost check = |k: int| tx_fault(txs, best_height, db@, height, proofs@, k);
    let mut k: usize = 0;
    while k < block.txs.len()
        invariant
            k <= block.txs@.len(),
            txs == block@.txs,
            utxo::block_proofs_fit(block@, proofs@),
            check == (|k: int| tx_fault(txs, best_height, db@, height, proofs@, k)),
            errors::first_fault(check, k as nat) is None,
        decreases block.txs@.len() - k,
    {
        if k > 0 {
            let t = &block.txs[k];
            assert(txs[k as int] == t@);
            assert(validate::proofs_fit(block@.txs[k as int], proofs@[k as int]));
            match validate_transaction(t, best_height, db, height, &proofs[k]) {
                Ok(_) => {
                    assert(check(k as int) is None);
                },
                Err(e) => {
                    proof {
                        assert(check(k as int) == Some(e@));
                        assert(errors::first_fault(check, (k + 1) as nat) == Some(e@));
                        errors::lemma_first_fault(check, (k + 1) as nat, txs.len());
                    }
                    return Err(e);
                },
            }
        } else {
            assert(check(0) is None);
        }
        k += 1;
    }
    Ok(())
}

/// The fees of the transactions of a block, 0 for the first.
pub open spec fn block_fees(txs: Seq<tx::TxView>, utxos: Known, anons: Known) -> Seq<u64> {
    Seq::new(
        txs.len(),
        |k: int|
            if k == 0 {
                0
            } else {
                tx::fee_of(
                    txs[k],
                    if txs[k].is_anonymous {
                        anons
                    } else {
                        utxos
                    },
                )
            },
    )
}

fn total_fees(block: &Block, utxos: &OutputMap, anons: &OutputMap) -> (r: Option<u64>)
    ensures
        r == tx::checked_sum(block_fees(block@.txs, utxos@, anons@)),
{
    let ghost txs = block@.txs;
    let ghost all = block_fees(txs, utxos@, anons@);
    let mut acc: u64 = 0;
    let mut k: usize = 0;
    assert(all.take(0) =~= Seq::<u64>::empty());
    while k < block.txs.len()
        invariant
            k <= block.txs@.len(),
            txs == block@.txs,
            all == block_fees(txs, utxos@, anons@),
            acc == tx::sum(all.take(k as int)),
        decreases block.txs@.len() - k,
    {
        let t = &block.txs[k];
        assert(txs[k as int] == t@);
        let fee: u64 = if k == 0 {
            0
        } else if t.is_anonymous {
            t.fee(anons)
        } else {
            t.fee(utxos)
        };
        proof {
            assert(all.take(k + 1).drop_last() =~= all.take(k as int));
            tx::lemma_sum_take(all, k + 1);
        }
        match acc.checked_add(fee) {
            Some(s) => {
                acc = s;
            },
            None => {
                return None;
            },
        }
        k += 1;
    }
    assert(all.take(all.len() as int) =~= all);
    Some(acc)
}

/// Whether the coinbase of a block pays itself the subsidy and the fees, in
/// its first output.
pub open spec fn reward_verdict(
    txs: Seq<tx::TxView>,
    height: usize,
    fees: nat,
) -> Result<(), Fault> {
    let expected = params::subsidy_at(height as nat) + fees;
    if fees > u64::MAX || expected > u64::MAX {
        Err(Fault::InvalidCoinbaseFee)
    } else if txs[0].outputs.len() == 0 || txs[0].outputs[0].value != expected {
        Err(Fault::InvalidCoinbaseFee)
    } else {
        Ok(())
    }
}

// ---------------------------------------------------------------------------
// Commitments
// ---------------------------------------------------------------------------

/// What is wrong with a commitment that may be missing.
pub open spec fn point_fault(c: Option<Seq<u8>>) -> Option<Fault> {
    if c is Some && !points::is_point(c->0) {
        Some(Fault::InvalidCommitment)
    } else {
        None
    }
}

/// The commitment of the output that an input names, where both are there.
pub open spec fn spent_commitment(i: tx::InputView, anons: Known) -> Option<Seq<u8>> {
    if anons.dom().contains((i.txid@, i.vout)) {
        anons[(i.txid@, i.vout)].commitment
    } else {
        None
    }
}

/// What the inputs of a transaction name as commitments.
pub open spec fn ins_of(t: tx::TxView, anons: Known) -> Seq<Option<Seq<u8>>> {
    t.inputs.map_values(|i: tx::InputView| spent_commitment(i, anons))
}

/// What the outputs of a transaction name as commitments.
pub open spec fn outs_of(t: tx::TxView) -> Seq<Option<Seq<u8>>> {
    t.outputs.map_values(|o: tx::OutputView| o.commitment)
}

/// The ones that are there.
pub open spec fn present(s: Seq<Option<Seq<u8>>>) -> Seq<Seq<u8>>
    decreases s.len(),
{
    if s.len() == 0 {
        Seq::empty()
    } else {
        match s.last() {
            Some(c) => present(s.drop_last()).push(c),
            None => present(s.drop_last()),
        }
    }
}

/// What is wrong with the commitments and the range proofs of an anonymous
/// transaction.
pub open spec fn points_fault(t: tx::TxView, anons: Known) -> Option<Fault> {
    match errors::first_fault(|i: int| point_fault(ins_of(t, anons)[i]), t.inputs.len()) {
        Some(e) => Some(e),
        None => match errors::first_fault(|i: int| point_fault(outs_of(t)[i]), t.outputs.len()) {
            Some(e) => Some(e),
            None => errors::first_fault(|i: int| anon::proof_fault(t, i), anon::proved(t)),
        },
    }
}

/// What is wrong with the commitments and the range proofs of transaction `k`
/// of a block.
pub open spec fn block_points_fault(txs: Seq<tx::TxView>, anons: Known, k: int) -> Option<Fault> {
    if txs[k].is_anonymous {
        points_fault(txs[k], anons)
    } else {
        None
    }
}

/// The commitments that the first `n` transactions of a block spend.
pub open spec fn block_ins(txs: Seq<tx::TxView>, anons: Known, n: nat) -> Seq<Seq<u8>>
    decreases n,
{
    if n == 0 {
        Seq::empty()
    } else {
        let before = block_ins(txs, anons, (n - 1) as nat);
        if txs[n - 1].is_anonymous {
            before + present(ins_of(txs[n - 1], anons))
        } else {
            before
        }
    }
}

/// The commitments that the first `n` transactions of a block make.
pub open spec fn block_outs(txs: Seq<tx::TxView>, n: nat) -> Seq<Seq<u8>>
    decreases n,
{
    if n == 0 {
        Seq::empty()
    } else {
        let before = block_outs(txs, (n - 1) as nat);
        if txs[n - 1].is_anonymous {
            before + present(outs_of(txs[n - 1]))
        } else {
            before
        }
    }
}

/// The number of range proofs of the first `n` transactions of a block.
pub open spec fn block_proved(txs: Seq<tx::TxView>, n: nat) -> nat
    decreases n,
{
    if n == 0 {
        0
    } else {
        block_proved(txs, (n - 1) as nat) + if txs[n - 1].is_anonymous {
            anon::proved(txs[n - 1])
        } else {
            0
        }
    }
}

/// Adds a commitment to a list where it is there.
fn add_commitment(v: &mut Vec<[u8; 32]>, c: &Option<Vec<u8>>) -> (r: Result<(), ChainError>)
    requires
        all_points(old(v)@),
    ensures
        match r {
            Ok(_) => {
                &&& point_fault(tx::opt_view(*c)) is None
                &&& all_points(final(v)@)
                &&& tx::ids(final(v)@) == (match tx::opt_view(*c) {
                    Some(p) => tx::ids(old(v)@).push(p),
                    None => tx::ids(old(v)@),
                })
            },
            Err(e) => point_fault(tx::opt_view(*c)) == Some(e@),
        },
{
    match c {
        None => Ok(()),
        Some(b) => {
            if !check_point(b.as_slice()) {
                return Err(ChainError::InvalidCommitment);
            }
            let p = bytes::read32(b.as_slice(), 0);
            assert(p@ =~= b@);
            let ghost before = v@;
            v.push(p);
            assert(tx::ids(v@) =~= tx::ids(before).push(b@));
            Ok(())
        },
    }
}

/// Whether every entry of a list encodes a point.
pub open spec fn all_points(v: Seq<[u8; 32]>) -> bool {
    forall|i: int| 0 <= i < v.len() ==> points::is_point((#[trigger] v[i])@)
}

fn gather_inputs(tx: &Transaction, anons: &OutputMap, v: &mut Vec<[u8; 32]>) -> (r: Result<
    (),
    ChainError,
>)
    requires
        all_points(old(v)@),
    ensures
        ({
            let fault = errors::first_fault(
                |i: int| point_fault(ins_of(tx@, anons@)[i]),
                tx.inputs@.len(),
            );
            match r {
                Ok(_) => {
                    &&& fault is None
                    &&& all_points(final(v)@)
                    &&& tx::ids(final(v)@) == tx::ids(old(v)@) + present(ins_of(tx@, anons@))
                },
                Err(e) => fault == Some(e@),
            }
        }),
{
    let ghost all = ins_of(tx@, anons@);
    let ghost check = |i: int| point_fault(ins_of(tx@, anons@)[i]);
    let ghost start = tx::ids(v@);
    let none: Option<Vec<u8>> = None;
    let mut i: usize = 0;
    assert(all.take(0) =~= Seq::<Option<Seq<u8>>>::empty());
    assert(start + present(all.take(0)) =~= start);
    while i < tx.inputs.len()
        invariant
            i <= tx.inputs@.len(),
            all == ins_of(tx@, anons@),
            start == tx::ids(old(v)@),
            none is None,
            check == (|i: int| point_fault(ins_of(tx@, anons@)[i])),
            errors::first_fault(check, i as nat) is None,
            all_points(v@),
            tx::ids(v@) == start + present(all.take(i as int)),
        decreases tx.inputs@.len() - i,
    {
        let vin = &tx.inputs[i];
        assert(tx@.inputs[i as int] == vin@);
        let ghost before = tx::ids(v@);
        let res = match anons.get(&vin.txid, vin.vout) {
            Some(o) => {
                assert(all[i as int] == tx::opt_view(o.commitment));
                add_commitment(v, &o.commitment)
            },
            None => {
                assert(all[i as int] == tx::opt_view(none));
                add_commitment(v, &none)
            },
        };
        match res {
            Ok(_) => {
                proof {
                    assert(check(i as int) is None);
                    assert(all.take(i + 1).drop_last() =~= all.take(i as int));
                    assert(tx::ids(v@) =~= start + present(all.take(i + 1)));
                }
            },
            Err(e) => {
                proof {
                    assert(check(i as int) == Some(e@));
                    assert(errors::first_fault(check, (i + 1) as nat) == Some(e@));
                    errors::lemma_first_fault(check, (i + 1) as nat, tx.inputs@.len());
                }
                return Err(e);
            },
        }
        i += 1;
    }
    assert(all.take(i as int) =~= all);
    Ok(())
}

fn gather_outputs(tx: &Transaction, v: &mut Vec<[u8; 32]>) -> (r: Result<(), ChainError>)
    requires
        all_points(old(v)@),
    ensures
        ({
            let fault = errors::first_fault(
                |i: int| point_fault(outs_of(tx@)[i]),
                tx.outputs@.len(),
            );
            match r {
                Ok(_) => {
                    &&& fault is None
                    &&& all_points(final(v)@)
                    &&& tx::ids(final(v)@) == tx::ids(old(v)@) + present(outs_of(tx@))
                },
                Err(e) => fault == Some(e@),
            }
        }),
{
    let ghost all = outs_of(tx@);
    let ghost check = |i: int| point_fault(outs_of(tx@)[i]);
    let ghost start = tx::ids(v@);
    let mut i: usize = 0;
    assert(all.take(0) =~= Seq::<Option<Seq<u8>>>::empty());
    assert(start + present(all.take(0)) =~= start);
    while i < tx.outputs.len()
        invariant
            i <= tx.outputs@.len(),
            all == outs_of(tx@),
            start == tx::ids(old(v)@),
            check == (|i: int| point_fault(outs_of(tx@)[i])),
            errors::first_fault(check, i as nat) is None,
            all_points(v@),
            tx::ids(v@) == start + present(all.take(i as int)),
        decreases tx.outputs@.len() - i,
    {
        assert(all[i as int] == tx::opt_view(tx.outputs@[i as int].commitment));
        match add_commitment(v, &tx.outputs[i].commitment) {
            Ok(_) => {
                proof {
                    assert(check(i as int) is None);
                    assert(all.take(i + 1).drop_last() =~= all.take(i as int));
                    assert(tx::ids(v@) =~= start + present(all.take(i + 1)));
                }
            },
            Err(e) => {
                proof {
                    assert(check(i as int) == Some(e@));
                    assert(errors::first_fault(check, (i + 1) as nat) == Some(e@));
                    errors::lemma_first_fault(check, (i + 1) as nat, tx.outputs@.len());
                }
                return Err(e);
            },
        }
        i += 1;
    }
    assert(all.take(i as int) =~= all);
    Ok(())
}

fn gather_tx(
    tx: &Transaction,
    anons: &OutputMap,
    ins: &mut Vec<[u8; 32]>,
    outs: &mut Vec<[u8; 32]>,
) -> (r: Result<(), ChainError>)
    requires
        all_points(old(ins)@),
        all_points(old(outs)@),
    ensures
        match r {
            Ok(_) => {
                &&& points_fault(tx@, anons@) is None
                &&& all_points(final(ins)@)
                &&& all_points(final(outs)@)
                &&& tx::ids(final(ins)@) == tx::ids(old(ins)@) + present(ins_of(tx@, anons@))
                &&& tx::ids(final(outs)@) == tx::ids(old(outs)@) + present(outs_of(tx@))
            },
            Err(e) => points_fault(tx@, anons@) == Some(e@),
        },
{
    match gather_inputs(tx, anons, ins) {
        Ok(_) => {},
        Err(e) => {
            return Err(e);
        },
    }
    match gather_outputs(tx, outs) {
        Ok(_) => {},
        Err(e) => {
            return Err(e);
        },
    }
    check_proofs(tx)
}

/// Whether the range proofs of a block can be verified and its commitments
/// balance, with all fees as what is left.
pub open spec fn commitments_verdict(
    txs: Seq<tx::TxView>,
    anons: Known,
    fees: u64,
    batch: BatchVerdict,
) -> Result<(), Fault> {
    match errors::first_fault(|k: int| block_points_fault(txs, anons, k), txs.len()) {
        Some(e) => Err(e),
        None => if anon::batch_outcome(block_proved(txs, txs.len()), batch)
            == BatchVerdict::Failed {
            Err(Fault::InvalidRangeProof)
        } else if anon::balanced(
            block_ins(txs, anons, txs.len()),
            block_outs(txs, txs.len()),
            fees,
        ) {
            Ok(())
        } else {
            Err(Fault::InvalidCommitment)
        },
    }
}

/// Whether every transaction of a block shows its amounts.
pub open spec fn all_transparent(txs: Seq<tx::TxView>) -> bool {
    forall|k: int| 0 <= k < txs.len() ==> !(#[trigger] txs[k]).is_anonymous
}

proof fn lemma_transparent_points(txs: Seq<tx::TxView>, anons: Known, n: nat)
    requires
        all_transparent(txs),
        n <= txs.len(),
    ensures
        errors::first_fault(|k: int| block_points_fault(txs, anons, k), n) is None,
        block_ins(txs, anons, n) == Seq::<Seq<u8>>::empty(),
        block_outs(txs, n) == Seq::<Seq<u8>>::empty(),
        block_proved(txs, n) == 0,
    decreases n,
{
    if n > 0 {
        lemma_transparent_points(txs, anons, (n - 1) as nat);
        assert(!txs[n - 1].is_anonymous);
    }
}

/// Whether the range proofs of a block can be verified and its commitments
/// balance. They do in a block in which every transaction shows its amounts and
/// none pays a fee.
pub fn check_commitments(
    block: &Block,
    anons: &OutputMap,
    fees: u64,
    batch: BatchVerdict,
) -> (r: Result<(), ChainError>)
    ensures
        errors::verdict(r) == commitments_verdict(block@.txs, anons@, fees, batch),
        all_transparent(block@.txs) && fees == 0 ==> r is Ok,
{
    let ghost txs = block@.txs;
    proof {
        if all_transparent(txs) {
            lemma_transparent_points(txs, anons@, txs.len());
        }
    }
    let ghost check = |k: int| block_points_fault(txs, anons@, k);
    let mut ins: Vec<[u8; 32]> = Vec::new();
    let mut outs: Vec<[u8; 32]> = Vec::new();
    let mut queued: bool = false;
    let mut k: usize = 0;
    assert(tx::ids(ins@) =~= block_ins(txs, anons@, 0));
    assert(tx::ids(outs@) =~= block_outs(txs, 0));
    while k < block.txs.len()
        invariant
            k <= block.txs@.len(),
            txs == block@.txs,
            check == (|k: int| block_points_fault(txs, anons@, k)),
            errors::first_fault(check, k as nat) is None,
            all_points(ins@),
            all_points(outs@),
            tx::ids(ins@) == block_ins(txs, anons@, k as nat),
            tx::ids(outs@) == block_outs(txs, k as nat),
            queued == (block_proved(txs, k as nat) > 0),
        decreases block.txs@.len() - k,
    {
        let t = &block.txs[k];
        assert(txs[k as int] == t@);
        if t.is_anonymous {
            match gather_tx(t, anons, &mut ins, &mut outs) {
                Ok(_) => {
                    assert(check(k as int) is None);
                },
                Err(e) => {
                    proof {
                        assert(check(k as int) == Some(e@));
                        assert(errors::first_fault(check, (k + 1) as nat) == Some(e@));
                        errors::lemma_first_fault(check, (k + 1) as nat, txs.len());
                    }
                    return Err(e);
                },
            }
            if t.outputs.len() > 0 && t.range_proofs.len() > 0 {
                queued = true;
            }
        } else {
            assert(check(k as int) is None);
        }
        k += 1;
    }
    if queued && batch == BatchVerdict::Failed {
        return Err(ChainError::InvalidRangeProof);
    }
    if commitments_balance(&ins, &outs, fees) {
        Ok(())
    } else {
        Err(ChainError::InvalidCommitment)
    }
}

// ---------------------------------------------------------------------------
// The whole block
// ---------------------------------------------------------------------------

/// Whether the contents of a block are valid: its target, its tree, its
/// transactions, what its coinbase pays and its commitments.
pub open spec fn body_verdict(
    b: tx::BlockView,
    best_height: usize,
    db: store::Db,
    height: usize,
    proofs: Seq<TxProofs>,
    batch: BatchVerdict,
) -> Result<(), Fault> {
    let txs = b.txs;
    let utxos = block_outputs(db, txs, false, txs.len());
    let anons = block_outputs(db, txs, true, txs.len());
    let fees = tx::sum(block_fees(txs, utxos, anons));
    match ledger::next_bits(db, height) {
        Err(e) => Err(e),
        Ok(bits) => if b.header.bits != bits {
            Err(Fault::InvalidBlock("Invalid bits"@))
        } else if b.header.merkle_root@ != tx::merkle_root_of(tx::txids(txs)) {
            Err(Fault::InvalidBlock("Invalid Merkle root"@))
        } else if txs.len() == 0 || !tx::coinbase(txs[0]) {
            Err(Fault::InvalidBlock("No coinbase"@))
        } else {
            match errors::first_fault(|k: int| records_fault(db, txs, k), txs.len()) {
                Some(e) => Err(e),
                None => match errors::first_fault(
                    |k: int| tx_fault(txs, best_height, db, height, proofs, k),
                    txs.len(),
                ) {
                    Some(e) => Err(e),
                    None => match reward_verdict(txs, height, fees) {
                        Err(e) => Err(e),
                        Ok(_) => commitments_verdict(txs, anons, fees as u64, batch),
                    },
                },
            }
        },
    }
}

/// Whether the time of a block is later than the median of those before it
/// and not too far ahead of the clock, and whether its hash is the one that a
/// checkpoint names.
pub open spec fn time_verdict(
    header_time: u32,
    hash: Seq<u8>,
    median: u32,
    now: u32,
    checkpoint: Option<[u8; 32]>,
) -> Result<(), Fault> {
    if header_time <= median || header_time > now + MAX_TIME_AHEAD {
        Err(Fault::InvalidTimestamp)
    } else if checkpoint is Some && checkpoint->0@ != hash {
        Err(Fault::AttackDetected)
    } else {
        Ok(())
    }
}

/// The hash that a checkpoint names at a height.
pub open spec fn checkpoint_at(checkpoints: Map<usize, [u8; 32]>, height: usize) -> Option<
    [u8; 32],
> {
    if checkpoints.dom().contains(height) {
        Some(checkpoints[height])
    } else {
        None
    }
}

/// What is known around a block that is checked: the height of the chain, the
/// height of the block, the clock, and the checkpoints.
pub struct BlockContext<'a> {
    /// The height of the chain.
    pub best_height: usize,
    /// The height of the block.
    pub height: usize,
    /// The seconds since the Unix epoch.
    pub now: u32,
    /// The hashes that blocks at some heights have to have.
    pub checkpoints: &'a HashMap<usize, [u8; 32]>,
}

/// Whether a block may be put on the chain.
pub open spec fn block_verdict(
    b: tx::BlockView,
    hash: Seq<u8>,
    c: BlockContext,
    db: store::Db,
    proofs: Seq<TxProofs>,
    batch: BatchVerdict,
) -> Result<(), Fault> {
    match work_verdict(b, hash) {
        Err(e) => Err(e),
        Ok(_) => match body_verdict(b, c.best_height, db, c.height, proofs, batch) {
            Err(e) => Err(e),
            Ok(_) => time_verdict(
                b.header.timestamp,
                hash,
                ledger::median_at(db, (c.height - 1) as usize),
                c.now,
                checkpoint_at(c.checkpoints@, c.height),
            ),
        },
    }
}

/// Whether a block can be checked to the end: where the check comes to its
/// target, that can be computed; where it comes to its time, the median can be
/// taken and the latest allowed time is a time.
pub open spec fn block_checkable(
    b: tx::BlockView,
    hash: Seq<u8>,
    c: BlockContext,
    db: store::Db,
    proofs: Seq<TxProofs>,
    batch: BatchVerdict,
) -> bool {
    &&& work_verdict(b, hash) is Ok ==> ledger::bits_computable(db, c.height)
    &&& work_verdict(b, hash) is Ok && body_verdict(
        b,
        c.best_height,
        db,
        c.height,
        proofs,
        batch,
    ) is Ok ==> time_checkable(c, db)
}

/// Whether the time of a block can be checked.
pub open spec fn time_checkable(c: BlockContext, db: store::Db) -> bool {
    &&& c.height >= 1
    &&& ledger::times_readable(db, (c.height - 1) as usize)
    &&& c.now + MAX_TIME_AHEAD <= u32::MAX
}

/// Whether the contents of a block are valid.
pub fn check_body(
    block: &Block,
    best_height: usize,
    db: &Snapshot,
    height: usize,
    proofs: &Vec<TxProofs>,
    batch: BatchVerdict,
) -> (r: Result<(), ChainError>)
    requires
        ledger::bits_computable(db@, height),
        utxo::block_proofs_fit(block@, proofs@),
    ensures
        errors::verdict(r) == body_verdict(block@, best_height, db@, height, proofs@, batch),
{
    let bits: u32 = match calculate_next_bits(db, height) {
        Ok(b) => b,
        Err(e) => {
            return Err(e);
        },
    };
    if block.header.bits != bits {
        return Err(invalid_block("Invalid bits"));
    }
    let root = Block::compute_merkle_root(block.txs.as_slice());
    proof {
        bytes::lemma_id_ext(block.header.merkle_root, root);
    }
    if !same32(&block.header.merkle_root, &root) {
        return Err(invalid_block("Invalid Merkle root"));
    }
    if block.txs.len() == 0 || !block.txs[0].is_coinbase() {
        return Err(invalid_block("No coinbase"));
    }
    let (utxos, anons) = match load_block_outputs(block, db) {
        Ok(x) => x,
        Err(e) => {
            return Err(e);
        },
    };
    match check_txs(block, best_height, db, height, proofs) {
        Ok(_) => {},
        Err(e) => {
            return Err(e);
        },
    }
    let fees: u64 = match total_fees(block, &utxos, &anons) {
        Some(f) => f,
        None => {
            return Err(ChainError::InvalidCoinbaseFee);
        },
    };
    let expected: u64 = match subsidy(height).checked_add(fees) {
        Some(x) => x,
        None => {
            return Err(ChainError::InvalidCoinbaseFee);
        },
    };
    assert(block@.txs[0] == block.txs@[0]@);
    if block.txs[0].outputs.len() == 0 || block.txs[0].outputs[0].value != expected {
        return Err(ChainError::InvalidCoinbaseFee);
    }
    check_commitments(block, &anons, fees, batch)
}

/// Whether the time and the hash of a block are in order.
pub fn check_time(
    block: &Block,
    hash: &[u8; 32],
    context: &BlockContext<'_>,
    db: &Snapshot,
) -> (r: Result<(), ChainError>)
    requires
        time_checkable(*context, db@),
    ensures
        errors::verdict(r) == time_verdict(
            block@.header.timestamp,
            hash@,
            ledger::median_at(db@, (context.height - 1) as usize),
            context.now,
            checkpoint_at(context.checkpoints@, context.height),
        ),
{
    broadcast use vstd::std_specs::hash::group_hash_axioms;

    let median_time = get_median_timestamp(db, context.height - 1);
    let time = block.header.timestamp;
    if time <= median_time || time > context.now + MAX_TIME_AHEAD {
        return Err(ChainError::InvalidTimestamp);
    }
    match context.checkpoints.get(&context.height) {
        Some(expected) => {
            proof {
                bytes::lemma_id_ext(*expected, *hash);
            }
            if !same32(expected, hash) {
                Err(ChainError::AttackDetected)
            } else {
                Ok(())
            }
        },
        None => Ok(()),
    }
}

/// Whether a block may be put on the chain.
pub fn validate_block(
    block: &Block,
    hash: &[u8; 32],
    context: &BlockContext<'_>,
    db: &Snapshot,
    proofs: &Vec<TxProofs>,
    batch: BatchVerdict,
) -> (r: Result<(), ChainError>)
    requires
        block_checkable(block@, hash@, *context, db@, proofs@, batch),
        utxo::block_proofs_fit(block@, proofs@),
    ensures
        errors::verdict(r) == block_verdict(block@, hash@, *context, db@, proofs@, batch),
{
    match check_work(block, hash) {
        Ok(_) => {},
        Err(e) => {
            return Err(e);
        },
    }
    match check_body(block, context.best_height, db, context.height, proofs, batch) {
        Ok(_) => {},
        Err(e) => {
            return Err(e);
        },
    }
    check_time(block, hash, context, db)
}

/// No block pays itself more than is due: the first output of the coinbase of
/// a valid block is the subsidy and the fees exactly.
pub proof fn law_reward_is_exact(
    b: tx::BlockView,
    hash: Seq<u8>,
    c: BlockContext,
    db: store::Db,
    proofs: Seq<TxProofs>,
    batch: BatchVerdict,
)
    requires
        block_verdict(b, hash, c, db, proofs, batch) is Ok,
    ensures
        b.txs.len() > 0,
        b.txs[0].outputs.len() > 0,
        b.txs[0].outputs[0].value == params::subsidy_at(c.height as nat) + tx::sum(
            block_fees(
                b.txs,
                block_outputs(db, b.txs, false, b.txs.len()),
                block_outputs(db, b.txs, true, b.txs.len()),
            ),
        ),
{
}

/// A valid block has done its work and says what it holds: its hash meets the
/// target that is due at its height, its root is that of its transactions, and
/// each but the first of these is valid by itself.
pub proof fn law_valid_block(
    b: tx::BlockView,
    hash: Seq<u8>,
    c: BlockContext,
    db: store::Db,
    proofs: Seq<TxProofs>,
    batch: BatchVerdict,
    k: int,
)
    requires
        block_verdict(b, hash, c, db, proofs, batch) is Ok,
        1 <= k < b.txs.len(),
    ensures
        target::meets(hash, b.header.bits),
        ledger::next_bits(db, c.height) == Ok::<u32, Fault>(b.header.bits),
        b.header.merkle_root@ == tx::merkle_root_of(tx::txids(b.txs)),
        validate::transaction_verdict(
            b.txs[k],
            c.best_height,
            db,
            c.height,
            proofs[k].rings@,
            proofs[k].batch,
        ) is Ok,
{
    let check = |j: int| tx_fault(b.txs, c.best_height, db, c.height, proofs, j);
    validate::lemma_all_pass(check, b.txs.len(), k);
    assert(check(k) is None);
}

/// A valid block has a time later than the median of the times of the eleven
/// blocks before it, as far as there are eleven, and no more than 7200 seconds
/// ahead of the clock; and its hash is that of the checkpoint at its height,
/// where there is one.
pub proof fn law_valid_block_is_in_time(
    b: tx::BlockView,
    hash: Seq<u8>,
    c: BlockContext,
    db: store::Db,
    proofs: Seq<TxProofs>,
    batch: BatchVerdict,
) -> (s: Seq<u32>)
    requires
        block_verdict(b, hash, c, db, proofs, batch) is Ok,
        c.height >= 1,
        forall|h: usize| c.height - 12 < h < c.height ==> #[trigger] ledger::block_at(db, h) is Ok,
    ensures
        ({
            let n: nat = if c.height < 11 {
                c.height as nat
            } else {
                11
            };
            &&& s.len() == n
            &&& s.to_multiset() == Seq::new(
                n,
                |i: int|
                    ledger::block_at(
                        db,
                        (c.height - 1 - i) as usize,
                    )->Ok_0.header.timestamp,
            ).to_multiset()
            &&& forall|i: int, j: int| 0 <= i <= j < n ==> #[trigger] s[i] <= #[trigger] s[j]
            &&& s[(n / 2) as int] < b.header.timestamp <= c.now + 7200
            &&& c.checkpoints@.dom().contains(c.height) ==> c.checkpoints@[c.height]@ == hash
        }),
{
    ledger::law_median_of_eleven(db, (c.height - 1) as usize)
}

/// The time and the hash of a block are in order exactly where the time is
/// later than the median and no more than 7200 seconds ahead of the clock, and
/// the checkpoint at its height, where there is one, names the hash; a time out
/// of these bounds is refused as that.
pub proof fn law_time_in_bounds(
    time: u32,
    hash: Seq<u8>,
    median: u32,
    now: u32,
    checkpoints: Map<usize, [u8; 32]>,
    height: usize,
)
    ensures
        ({
            let r = time_verdict(time, hash, median, now, checkpoint_at(checkpoints, height));
            let in_time = median < time && time - now <= 7200;
            let named = checkpoints.dom().contains(height) ==> checkpoints[height]@ == hash;
            &&& r is Ok <==> in_time && named
            &&& r == Err::<(), Fault>(Fault::InvalidTimestamp) <==> !in_time
            &&& r == Err::<(), Fault>(Fault::AttackDetected) <==> in_time && !named
        }),
{
}

/// What a block has to be: no more than 4000000 bytes, with an exponent of its
/// target of 80 at most and a hash that is no more than the target, which is
/// the one due at its height; with the root of its transactions, the first of
/// which has one input that names nothing; each other is valid, and the
/// outputs that it names are readable where they are stored; the first output
/// of the first pays the subsidy and the fees; the commitments are in order;
/// the time is later than the median and no more than 7200 seconds ahead; and
/// the hash is that of the checkpoint, where there is one. Such a block is
/// valid, and no other.
pub proof fn law_block_valid(
    b: tx::BlockView,
    hash: Seq<u8>,
    c: BlockContext,
    db: store::Db,
    proofs: Seq<TxProofs>,
    batch: BatchVerdict,
)
    ensures
        block_verdict(b, hash, c, db, proofs, batch) is Ok <==> {
            let txs = b.txs;
            let anons = block_outputs(db, txs, true, txs.len());
            let fees = tx::sum(
                block_fees(txs, block_outputs(db, txs, false, txs.len()), anons),
            );
            let pay = params::subsidy_at(c.height as nat) + fees;
            let time = b.header.timestamp;
            &&& codec::enc_block(b).len() <= 4_000_000
            &&& b.header.bits < 0x5100_0000
            &&& bytes::be_value(hash) <= target::target_of(b.header.bits)
            &&& ledger::next_bits(db, c.height) == Ok::<u32, Fault>(b.header.bits)
            &&& b.header.merkle_root@ == tx::merkle_root_of(
                Seq::new(txs.len(), |k: int| tx::txid_of(txs[k])),
            )
            &&& txs.len() > 0 && txs[0].inputs.len() == 1
            &&& txs[0].inputs[0].vout == 0xffff_ffff
            &&& forall|i: int| 0 <= i < 32 ==> #[trigger] txs[0].inputs[0].txid@[i] == 0
            &&& forall|k: int, i: int|
                1 <= k < txs.len() && 0 <= i < txs[k].inputs.len() ==> {
                    let rec = validate::record(
                        db,
                        txs[k].is_anonymous,
                        #[trigger] txs[k].inputs[i],
                    );
                    rec is Some ==> codec::read_output(rec->0) is Some
                }
            &&& forall|k: int|
                1 <= k < txs.len() ==> validate::transaction_verdict(
                    #[trigger] txs[k],
                    c.best_height,
                    db,
                    c.height,
                    proofs[k].rings@,
                    proofs[k].batch,
                ) is Ok
            &&& pay <= u64::MAX && txs[0].outputs.len() > 0 && txs[0].outputs[0].value == pay
            &&& commitments_verdict(txs, anons, fees as u64, batch) is Ok
            &&& ledger::median_at(db, (c.height - 1) as usize) < time && time - c.now <= 7200
            &&& c.checkpoints@.dom().contains(c.height) ==> c.checkpoints@[c.height]@ == hash
        },
{
    let txs = b.txs;
    let records = |k: int| records_fault(db, txs, k);
    let valid = |k: int| tx_fault(txs, c.best_height, db, c.height, proofs, k);
    let n = txs.len();
    let p = errors::law_first_fault(records, n);
    let q = errors::law_first_fault(valid, n);
    assert(tx::txids(txs) =~= Seq::new(txs.len(), |k: int| tx::txid_of(txs[k])));
    if n > 0 && txs[0].inputs.len() == 1 {
        let id = txs[0].inputs[0].txid@;
        if forall|i: int| 0 <= i < 32 ==> #[trigger] id[i] == 0 {
            assert(id =~= tx::zero_id());
        }
        if id == tx::zero_id() {
            assert forall|i: int| 0 <= i < 32 implies #[trigger] id[i] == 0 by {
                assert(tx::zero_id()[i] == 0);
            }
        }
    }
    if block_verdict(b, hash, c, db, proofs, batch) is Ok {
        assert forall|k: int, i: int| 1 <= k < n && 0 <= i < txs[k].inputs.len() implies {
            let rec = validate::record(db, txs[k].is_anonymous, #[trigger] txs[k].inputs[i]);
            rec is Some ==> codec::read_output(rec->0) is Some
        } by {
            assert(records(k) is None);
            let check = |i: int| record_fault(db, txs[k], i);
            errors::law_first_fault(check, txs[k].inputs.len());
            assert(check(i) is None);
        }
        assert forall|k: int| 1 <= k < n implies validate::transaction_verdict(
            #[trigger] txs[k],
            c.best_height,
            db,
            c.height,
            proofs[k].rings@,
            proofs[k].batch,
        ) is Ok by {
            assert(valid(k) is None);
        }
    } else {
        if errors::first_fault(records, n) is Some {
            assert(records(p) is Some);
            let check = |i: int| record_fault(db, txs[p], i);
            let i = errors::law_first_fault(check, txs[p].inputs.len());
            assert(check(i) is Some);
            assert(txs[p].inputs[i] == txs[p].inputs[i]);
        } else if errors::first_fault(valid, n) is Some {
            assert(valid(q) is Some);
            assert(txs[q] == txs[q]);
        }
    }
}

/// The outputs that a block spends are what is stored: one that a transaction
/// after the first names is known exactly where it is stored and readable, and
/// known as that.
pub proof fn law_block_outputs_are_stored(
    db: store::Db,
    txs: Seq<tx::TxView>,
    anonymous: bool,
    n: nat,
    k: int,
    i: int,
)
    requires
        1 <= k < n <= txs.len(),
        txs[k].is_anonymous == anonymous,
        0 <= i < txs[k].inputs.len(),
    ensures
        ({
            let vin = txs[k].inputs[i];
            let at = (vin.txid@, vin.vout);
            let known = block_outputs(db, txs, anonymous, n);
            let cf = if anonymous {
                store::Cf::Anonymous
            } else {
                store::Cf::Utxo
            };
            let rec = store::read(
                db,
                cf,
                crate::keys::outpoint_key(anonymous, vin.txid@, vin.vout),
            );
            &&& known.dom().contains(at) <==> rec is Some && codec::read_output(rec->0) is Some
            &&& known.dom().contains(at) ==> Some(known[at]) == codec::read_output(rec->0)
        }),
{
    lemma_known_is_stored(db, txs, anonymous, n, txs[k].inputs[i]);
    if validate::stored_output(db, anonymous, txs[k].inputs[i]) is Some {
        lemma_named_is_known(db, txs, anonymous, n, k, i);
    }
}

proof fn lemma_known_is_stored(
    db: store::Db,
    txs: Seq<tx::TxView>,
    anonymous: bool,
    n: nat,
    vin: tx::InputView,
)
    ensures
        ({
            let at = (vin.txid@, vin.vout);
            let known = block_outputs(db, txs, anonymous, n);
            known.dom().contains(at) ==> validate::stored_output(db, anonymous, vin) == Some(
                known[at],
            )
        }),
    decreases n,
{
    if n > 1 {
        lemma_known_is_stored(db, txs, anonymous, (n - 1) as nat, vin);
        let t = txs[n - 1];
        if t.is_anonymous == anonymous {
            let before = block_outputs(db, txs, anonymous, (n - 1) as nat);
            lemma_load_known(before, db, anonymous, t.inputs, t.inputs.len(), vin);
        }
    }
}

proof fn lemma_load_known(
    before: Known,
    db: store::Db,
    anonymous: bool,
    inputs: Seq<tx::InputView>,
    m: nat,
    vin: tx::InputView,
)
    requires
        m <= inputs.len(),
    ensures
        ({
            let at = (vin.txid@, vin.vout);
            let known = validate::stored_outputs(before, db, anonymous, inputs, m);
            let same = before.dom().contains(at) ==> validate::stored_output(db, anonymous, vin)
                == Some(before[at]);
            &&& before.dom().contains(at) ==> known.dom().contains(at)
            &&& same && known.dom().contains(at) ==> validate::stored_output(db, anonymous, vin)
                == Some(known[at])
            &&& forall|i: int|
                0 <= i < m && validate::stored_output(db, anonymous, #[trigger] inputs[i]) is Some
                    ==> known.dom().contains((inputs[i].txid@, inputs[i].vout))
        }),
    decreases m,
{
    if m > 0 {
        lemma_load_known(before, db, anonymous, inputs, (m - 1) as nat, vin);
        assert forall|i: int|
            0 <= i < m && validate::stored_output(
                db,
                anonymous,
                #[trigger] inputs[i],
            ) is Some implies validate::stored_outputs(
            before,
            db,
            anonymous,
            inputs,
            m,
        ).dom().contains((inputs[i].txid@, inputs[i].vout)) by {
            if i < m - 1 {
                assert(validate::stored_outputs(
                    before,
                    db,
                    anonymous,
                    inputs,
                    (m - 1) as nat,
                ).dom().contains((inputs[i].txid@, inputs[i].vout)));
            }
        }
    }
}

proof fn lemma_named_is_known(
    db: store::Db,
    txs: Seq<tx::TxView>,
    anonymous: bool,
    n: nat,
    k: int,
    i: int,
)
    requires
        1 <= k < n <= txs.len(),
        txs[k].is_anonymous == anonymous,
        0 <= i < txs[k].inputs.len(),
        validate::stored_output(db, anonymous, txs[k].inputs[i]) is Some,
    ensures
        block_outputs(db, txs, anonymous, n).dom().contains(
            (txs[k].inputs[i].txid@, txs[k].inputs[i].vout),
        ),
    decreases n,
{
    let t = txs[n - 1];
    let before = block_outputs(db, txs, anonymous, (n - 1) as nat);
    if k < n - 1 {
        lemma_named_is_known(db, txs, anonymous, (n - 1) as nat, k, i);
    }
    if t.is_anonymous == anonymous {
        lemma_load_known(before, db, anonymous, t.inputs, t.inputs.len(), txs[k].inputs[i]);
    }
}

/// The fees of a block are what its transactions after the first leave: with
/// the amounts that the inputs of one bring in, each stored and readable, these
/// and what its outputs take out differ by its fee.
pub proof fn law_block_fee_is_difference(
    db: store::Db,
    txs: Seq<tx::TxView>,
    k: int,
    brought: Seq<u64>,
)
    requires
        1 <= k < txs.len(),
        brought.len() == txs[k].inputs.len(),
        forall|i: int|
            0 <= i < txs[k].inputs.len() ==> {
                let vin = #[trigger] txs[k].inputs[i];
                let rec = validate::record(db, txs[k].is_anonymous, vin);
                rec is Some && codec::read_output(rec->0) is Some && codec::read_output(
                    rec->0,
                )->0.value == brought[i]
            },
        tx::sum(tx::values(txs[k].outputs)) <= tx::sum(brought) <= u64::MAX,
    ensures
        ({
            let fees = block_fees(
                txs,
                block_outputs(db, txs, false, txs.len()),
                block_outputs(db, txs, true, txs.len()),
            );
            &&& fees.len() == txs.len()
            &&& fees[0] == 0
            &&& tx::sum(tx::values(txs[k].outputs)) + fees[k] == tx::sum(brought)
        }),
{
    let t = txs[k];
    let known = block_outputs(db, txs, t.is_anonymous, txs.len());
    assert forall|i: int| 0 <= i < t.inputs.len() implies {
        let at = ((#[trigger] t.inputs[i]).txid@, t.inputs[i].vout);
        known.dom().contains(at) && brought[i] == known[at].value
    } by {
        assert(txs[k].inputs[i] == t.inputs[i]);
        law_block_outputs_are_stored(db, txs, t.is_anonymous, txs.len(), k, i);
    }
    tx::law_fee_is_difference(t, known, brought);
}

/// In a block in which every transaction shows its amounts, the commitments
/// are in order exactly where the commitment to the fees is that to nothing.
pub proof fn law_transparent_commitments(
    txs: Seq<tx::TxView>,
    anons: Known,
    fees: u64,
    batch: BatchVerdict,
)
    requires
        forall|k: int| 0 <= k < txs.len() ==> !(#[trigger] txs[k]).is_anonymous,
    ensures
        commitments_verdict(txs, anons, fees, batch) is Ok <==> points::total_point(Seq::empty())
            == points::point_sum(
            points::total_point(Seq::empty()),
            points::amount_point(fees),
        ),
{
    lemma_transparent_points(txs, anons, txs.len());
}

} // verus!
