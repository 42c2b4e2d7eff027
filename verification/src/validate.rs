//! The rules for transactions.
use crate::anon;
use crate::anon::{validate_anonymous_tx, BatchVerdict, RingProof};
use crate::bytes;
use crate::bytes::{from_be, same32};
use crate::codec;
use crate::codec::deserialize_output;
use crate::errors;
use crate::errors::{invalid_tx, other, ChainError, Fault};
use crate::keys;
use crate::keys::make_outpoint_key;
use crate::params::{
    ANON_FEE_MULTIPLIER_DENOMINATOR, ANON_FEE_MULTIPLIER_NUMERATOR, COINBASE_MATURITY,
    MIN_FEE_PER_BYTE,
};
use crate::store;
use crate::store::{Cf, Snapshot};
use crate::tx;
use crate::tx::{output_total, OutputMap, TXOutput, Transaction};
use vstd::prelude::*;

verus! {

/// What the libraries for ring signatures and range proofs found of one
/// transaction.
#[derive(Debug)]
pub struct TxProofs {
    /// One entry for each input of an anonymous transaction.
    pub rings: Vec<RingProof>,
    /// What verifying the range proofs came to.
    pub batch: BatchVerdict,
}

/// Whether the findings are about the transaction: an anonymous one has one
/// for each input.
pub open spec fn proofs_fit(t: tx::TxView, proofs: TxProofs) -> bool {
    t.is_anonymous ==> proofs.rings@.len() == t.inputs.len()
}

/// The column family of the outputs of a transaction.
pub open spec fn family(anonymous: bool) -> Cf {
    if anonymous {
        Cf::Anonymous
    } else {
        Cf::Utxo
    }
}

/// The column family of the outputs of a transaction.
pub fn output_family(anonymous: bool) -> (r: Cf)
    ensures
        r == family(anonymous),
{
    if anonymous {
        Cf::Anonymous
    } else {
        Cf::Utxo
    }
}

/// The stored record of the output that an input names.
pub open spec fn record(db: store::Db, anonymous: bool, i: tx::InputView) -> Option<Seq<u8>> {
    store::read(db, family(anonymous), keys::outpoint_key(anonymous, i.txid@, i.vout))
}

/// The output that an input names, where it is stored and readable.
pub open spec fn stored_output(db: store::Db, anonymous: bool, i: tx::InputView) -> Option<
    tx::OutputView,
> {
    match record(db, anonymous, i) {
        Some(b) => codec::read_output(b),
        None => None,
    }
}

/// What is known of outputs, with those that the first `n` inputs name, as
/// far as they are stored.
pub open spec fn stored_outputs(
    known: Map<tx::OutPoint, tx::OutputView>,
    db: store::Db,
    anonymous: bool,
    inputs: Seq<tx::InputView>,
    n: nat,
) -> Map<tx::OutPoint, tx::OutputView>
    decreases n,
{
    if n == 0 {
        known
    } else {
        let before = stored_outputs(known, db, anonymous, inputs, (n - 1) as nat);
        let i = inputs[n - 1];
        match stored_output(db, anonymous, i) {
            Some(o) => before.insert((i.txid@, i.vout), o),
            None => before,
        }
    }
}

/// The amounts that the inputs bring in, 0 for one whose output is not
/// stored.
pub open spec fn stored_values(
    db: store::Db,
    anonymous: bool,
    inputs: Seq<tx::InputView>,
) -> Seq<u64> {
    inputs.map_values(
        |i: tx::InputView|
            match stored_output(db, anonymous, i) {
                Some(o) => o.value,
                None => 0,
            },
    )
}

/// Whether an input before `i` names the output that input `i` names.
pub open spec fn named_before(inputs: Seq<tx::InputView>, i: int) -> bool {
    exists|j: int|
        0 <= j < i && (#[trigger] inputs[j]).txid == inputs[i].txid && inputs[j].vout
            == inputs[i].vout
}

/// What is wrong with spending a coinbase output at `height`, given the
/// record of the coinbase: its height has eight bytes, and has to be far
/// enough back.
pub open spec fn maturity_fault(rec: Option<Seq<u8>>, height: usize) -> Option<Fault> {
    match rec {
        None => None,
        Some(b) => if b.len() != 8 {
            Some(Fault::Other("Invalid cb height bytes"@))
        } else if height - bytes::be_value(b) < COINBASE_MATURITY {
            Some(Fault::CoinbaseImmature)
        } else {
            None
        },
    }
}

/// What is wrong with the place that input `i` names, where nothing is with
/// those before it.
pub open spec fn place_fault(
    inputs: Seq<tx::InputView>,
    db: store::Db,
    height: usize,
    i: int,
) -> Option<Fault> {
    if named_before(inputs, i) {
        Some(Fault::DoubleSpend)
    } else {
        maturity_fault(store::read(db, Cf::Coinbase, inputs[i].txid@), height)
    }
}

/// What is wrong with the transparent output that input `i` names.
pub open spec fn utxo_fault(inputs: Seq<tx::InputView>, db: store::Db, i: int) -> Option<Fault> {
    match record(db, false, inputs[i]) {
        None => Some(Fault::MissingUTXO),
        Some(b) => match codec::read_output(b) {
            None => Some(Fault::Other("Deserialize utxo failed"@)),
            Some(o) => if tx::sum(stored_values(db, false, inputs).take(i + 1)) > u64::MAX {
                Some(Fault::ValueOverflow)
            } else {
                None
            },
        },
    }
}

/// What is wrong with the anonymous output that input `i` names: only that it
/// is stored and not readable.
pub open spec fn anon_record_fault(
    inputs: Seq<tx::InputView>,
    db: store::Db,
    i: int,
) -> Option<Fault> {
    match record(db, true, inputs[i]) {
        Some(b) => if codec::read_output(b) is None {
            Some(Fault::Other("Deserialize anon failed"@))
        } else {
            None
        },
        None => None,
    }
}

/// Whether the lock time holds a transaction back: the chain, its height taken
/// in 32 bits, has not reached it, and an input minds it.
pub open spec fn locked(t: tx::TxView, best_height: usize) -> bool {
    &&& t.lock_time > best_height as nat % 0x1_0000_0000
    &&& exists|i: int| 0 <= i < t.inputs.len() && (#[trigger] t.inputs[i]).sequence != u32::MAX
}

/// The least fee, `None` where it is no amount. For an anonymous transaction
/// it is one and a half times that of another, rounded up, and taken in 64
/// bits.
pub open spec fn required_fee(t: tx::TxView) -> Option<u64> {
    let size = codec::enc_tx(t).len();
    if t.is_anonymous {
        Some(
            (((size * MIN_FEE_PER_BYTE * ANON_FEE_MULTIPLIER_NUMERATOR + (
            ANON_FEE_MULTIPLIER_DENOMINATOR - 1)) / ANON_FEE_MULTIPLIER_DENOMINATOR as int)
                % 0x1_0000_0000_0000_0000) as u64,
        )
    } else if size * MIN_FEE_PER_BYTE <= u64::MAX {
        Some((size * MIN_FEE_PER_BYTE) as u64)
    } else {
        None
    }
}

/// Whether amounts are in order: the outputs take out no more than `ins`, and
/// what is left is the fee at least.
pub open spec fn amounts_verdict(t: tx::TxView, ins: nat) -> Result<(), Fault> {
    let outs = tx::sum(tx::values(t.outputs));
    if outs > u64::MAX {
        Err(Fault::ValueOverflow)
    } else if outs > ins {
        Err(Fault::InvalidTx("Outputs exceed inputs"@))
    } else {
        match required_fee(t) {
            None => Err(Fault::ValueOverflow),
            Some(f) => if ins - outs < f {
                Err(Fault::InsufficientFee)
            } else {
                Ok(())
            },
        }
    }
}

/// Whether a transaction may stand in the block at `height`, given the height
/// of the chain and what the database holds. What an anonymous one brings in
/// is not counted.
pub open spec fn transaction_verdict(
    t: tx::TxView,
    best_height: usize,
    db: store::Db,
    height: usize,
    rings: Seq<RingProof>,
    batch: BatchVerdict,
) -> Result<(), Fault> {
    if tx::coinbase(t) {
        Ok(())
    } else if locked(t, best_height) {
        Err(Fault::InvalidLockTime)
    } else {
        match errors::first_fault(
            |i: int| place_fault(t.inputs, db, height, i),
            t.inputs.len(),
        ) {
            Some(e) => Err(e),
            None => if !t.is_anonymous {
                match errors::first_fault(|i: int| utxo_fault(t.inputs, db, i), t.inputs.len()) {
                    Some(e) => Err(e),
                    None => amounts_verdict(t, tx::sum(stored_values(db, false, t.inputs))),
                }
            } else {
                match errors::first_fault(
                    |i: int| anon_record_fault(t.inputs, db, i),
                    t.inputs.len(),
                ) {
                    Some(e) => Err(e),
                    None => match anon::anonymous_verdict(
                        t,
                        stored_outputs(Map::empty(), db, true, t.inputs, t.inputs.len()),
                        db,
                        rings,
                        batch,
                    ) {
                        Err(e) => Err(e),
                        Ok(_) => amounts_verdict(t, 0),
                    },
                }
            },
        }
    }
}

/// The stored record of the output that an input names.
pub(crate) fn get_record(db: &Snapshot, anonymous: bool, txid: &[u8; 32], vout: u32) -> (r: Option<
    Vec<u8>,
>)
    ensures
        tx::opt_view(r) == store::read(
            db@,
            family(anonymous),
            keys::outpoint_key(anonymous, txid@, vout),
        ),
{
    let key = make_outpoint_key(anonymous, txid, vout);
    db.get(output_family(anonymous), key.as_slice())
}

fn is_locked(tx: &Transaction, best_height: usize) -> (r: bool)
    ensures
        r == locked(tx@, best_height),
{
    let tip: u64 = (best_height as u64) % 0x1_0000_0000;
    if tx.lock_time as u64 <= tip {
        return false;
    }
    let mut i: usize = 0;
    while i < tx.inputs.len()
        invariant
            i <= tx.inputs@.len(),
            tx.lock_time > best_height as nat % 0x1_0000_0000,
            forall|j: int| 0 <= j < i ==> (#[trigger] tx@.inputs[j]).sequence == u32::MAX,
        decreases tx.inputs@.len() - i,
    {
        assert(tx@.inputs[i as int] == tx.inputs@[i as int]@);
        if tx.inputs[i].sequence != u32::MAX {
            assert(tx@.inputs[i as int].sequence != u32::MAX);
            return true;
        }
        i += 1;
    }
    false
}

fn is_named_before(tx: &Transaction, i: usize) -> (r: bool)
    requires
        i < tx.inputs@.len(),
    ensures
        r == named_before(tx@.inputs, i as int),
{
    let vin = &tx.inputs[i];
    assert(tx@.inputs[i as int] == vin@);
    let mut j: usize = 0;
    while j < i
        invariant
            j <= i < tx.inputs@.len(),
            vin == tx.inputs@[i as int],
            forall|k: int|
                0 <= k < j ==> !((#[trigger] tx@.inputs[k]).txid == vin.txid && tx@.inputs[k].vout
                    == vin.vout),
        decreases i - j,
    {
        assert(tx@.inputs[j as int] == tx.inputs@[j as int]@);
        if tx.inputs[j].vout == vin.vout && same32(&tx.inputs[j].txid, &vin.txid) {
            assert(tx@.inputs[i as int] == vin@);
            return true;
        }
        j += 1;
    }
    false
}

fn check_maturity(rec: Option<Vec<u8>>, height: usize) -> (r: Result<(), ChainError>)
    ensures
        match r {
            Ok(_) => maturity_fault(tx::opt_view(rec), height) is None,
            Err(e) => maturity_fault(tx::opt_view(rec), height) == Some(e@),
        },
{
    match rec {
        None => Ok(()),
        Some(b) => {
            if b.len() != 8 {
                return Err(other("Invalid cb height bytes"));
            }
            proof {
                bytes::lemma_be_write_read(b@);
                bytes::lemma_pow256_values();
            }
            let at: u64 = from_be(b.as_slice()) as u64;
            if (height as u64).saturating_sub(at) < COINBASE_MATURITY as u64 {
                Err(ChainError::CoinbaseImmature)
            } else {
                Ok(())
            }
        },
    }
}

/// Checks the places that the inputs name.
fn check_places(tx: &Transaction, db: &Snapshot, height: usize) -> (r: Result<(), ChainError>)
    ensures
        ({
            let fault = errors::first_fault(
                |i: int| place_fault(tx@.inputs, db@, height, i),
                tx.inputs@.len(),
            );
            match r {
                Ok(_) => fault is None,
                Err(e) => fault == Some(e@),
            }
        }),
{
    let ghost check = |i: int| place_fault(tx@.inputs, db@, height, i);
    let mut i: usize = 0;
    while i < tx.inputs.len()
        invariant
            i <= tx.inputs@.len(),
            check == (|i: int| place_fault(tx@.inputs, db@, height, i)),
            errors::first_fault(check, i as nat) is None,
        decreases tx.inputs@.len() - i,
    {
        assert(tx@.inputs[i as int] == tx.inputs@[i as int]@);
        let res: Result<(), ChainError> = if is_named_before(tx, i) {
            Err(ChainError::DoubleSpend)
        } else {
            check_maturity(db.get(Cf::Coinbase, tx.inputs[i].txid.as_slice()), height)
        };
        match res {
            Ok(_) => {
                assert(check(i as int) is None);
            },
            Err(e) => {
                proof {
                    assert(check(i as int) == Some(e@));
                    assert(errors::first_fault(check, (i + 1) as nat) == Some(e@));
                    errors::lemma_first_fault(check, (i + 1) as nat, tx.inputs@.len());
                }
                return Err(e);
            },
        }
        i += 1;
    }
    Ok(())
}

/// What the inputs of a transparent transaction bring in.
fn check_utxos(tx: &Transaction, db: &Snapshot) -> (r: Result<u64, ChainError>)
    ensures
        ({
            let fault = errors::first_fault(
                |i: int| utxo_fault(tx@.inputs, db@, i),
                tx.inputs@.len(),
            );
            match r {
                Ok(s) => fault is None && s == tx::sum(stored_values(db@, false, tx@.inputs)),
                Err(e) => fault == Some(e@),
            }
        }),
{
    let ghost check = |i: int| utxo_fault(tx@.inputs, db@, i);
    let ghost all = stored_values(db@, false, tx@.inputs);
    let mut acc: u64 = 0;
    let mut i: usize = 0;
    assert(all.take(0) =~= Seq::<u64>::empty());
    while i < tx.inputs.len()
        invariant
            i <= tx.inputs@.len(),
            check == (|i: int| utxo_fault(tx@.inputs, db@, i)),
            all == stored_values(db@, false, tx@.inputs),
            errors::first_fault(check, i as nat) is None,
            acc == tx::sum(all.take(i as int)),
        decreases tx.inputs@.len() - i,
    {
        let vin = &tx.inputs[i];
        assert(tx@.inputs[i as int] == vin@);
        let res: Result<u64, ChainError> = match get_record(db, false, &vin.txid, vin.vout) {
            None => Err(ChainError::MissingUTXO),
            Some(b) => match deserialize_output(b.as_slice()) {
                None => Err(other("Deserialize utxo failed")),
                Some(o) => {
                    proof {
                        assert(all.take(i + 1).drop_last() =~= all.take(i as int));
                        assert(all.take(i + 1).last() == o.value);
                    }
                    match acc.checked_add(o.value) {
                        Some(s) => Ok(s),
                        None => Err(ChainError::ValueOverflow),
                    }
                },
            },
        };
        match res {
            Ok(s) => {
                acc = s;
                assert(check(i as int) is None);
            },
            Err(e) => {
                proof {
                    assert(check(i as int) == Some(e@));
                    assert(errors::first_fault(check, (i + 1) as nat) == Some(e@));
                    errors::lemma_first_fault(check, (i + 1) as nat, tx.inputs@.len());
                }
                return Err(e);
            },
        }
        i += 1;
    }
    assert(all.take(i as int) =~= all);
    Ok(acc)
}

/// The anonymous outputs that the inputs name, as far as they are stored.
fn load_anonymous(tx: &Transaction, db: &Snapshot) -> (r: Result<OutputMap, ChainError>)
    ensures
        ({
            let fault = errors::first_fault(
                |i: int| anon_record_fault(tx@.inputs, db@, i),
                tx.inputs@.len(),
            );
            match r {
                Ok(m) => fault is None && m@ == stored_outputs(
                    Map::empty(),
                    db@,
                    true,
                    tx@.inputs,
                    tx.inputs@.len(),
                ),
                Err(e) => fault == Some(e@),
            }
        }),
{
    let ghost check = |i: int| anon_record_fault(tx@.inputs, db@, i);
    let mut out = OutputMap::new();
    let mut i: usize = 0;
    while i < tx.inputs.len()
        invariant
            i <= tx.inputs@.len(),
            check == (|i: int| anon_record_fault(tx@.inputs, db@, i)),
            errors::first_fault(check, i as nat) is None,
            out@ == stored_outputs(Map::empty(), db@, true, tx@.inputs, i as nat),
        decreases tx.inputs@.len() - i,
    {
        let vin = &tx.inputs[i];
        assert(tx@.inputs[i as int] == vin@);
        match get_record(db, true, &vin.txid, vin.vout) {
            None => {
                assert(check(i as int) is None);
            },
            Some(b) => match deserialize_output(b.as_slice()) {
                None => {
                    let e = other("Deserialize anon failed");
                    proof {
                        assert(check(i as int) == Some(e@));
                        assert(errors::first_fault(check, (i + 1) as nat) == Some(e@));
                        errors::lemma_first_fault(check, (i + 1) as nat, tx.inputs@.len());
                    }
                    return Err(e);
                },
                Some(o) => {
                    out.insert(vin.txid, vin.vout, o);
                    assert(check(i as int) is None);
                },
            },
        }
        i += 1;
    }
    Ok(out)
}

/// The least fee of a transaction, `None` where it is no amount.
pub fn least_fee(tx: &Transaction) -> (r: Option<u64>)
    ensures
        r == required_fee(tx@),
{
    let size: usize = tx.size();
    if tx.is_anonymous {
        let total: u128 = (size as u128 * MIN_FEE_PER_BYTE as u128 * ANON_FEE_MULTIPLIER_NUMERATOR
            + (ANON_FEE_MULTIPLIER_DENOMINATOR - 1)) / ANON_FEE_MULTIPLIER_DENOMINATOR;
        Some((total % 0x1_0000_0000_0000_0000) as u64)
    } else {
        (size as u64).checked_mul(MIN_FEE_PER_BYTE)
    }
}

fn check_amounts(tx: &Transaction, input_sum: u64) -> (r: Result<(), ChainError>)
    ensures
        errors::verdict(r) == amounts_verdict(tx@, input_sum as nat),
{
    let output_sum: u64 = match output_total(&tx.outputs) {
        Some(s) => s,
        None => {
            return Err(ChainError::ValueOverflow);
        },
    };
    if output_sum > input_sum {
        return Err(invalid_tx("Outputs exceed inputs"));
    }
    let fee: u64 = input_sum - output_sum;
    match least_fee(tx) {
        None => Err(ChainError::ValueOverflow),
        Some(f) => if fee < f {
            Err(ChainError::InsufficientFee)
        } else {
            Ok(())
        },
    }
}

/// Whether a transaction may stand in the block at `height`.
pub fn validate_transaction(
    tx: &Transaction,
    best_height: usize,
    db: &Snapshot,
    height: usize,
    proofs: &TxProofs,
) -> (r: Result<(), ChainError>)
    requires
        proofs_fit(tx@, *proofs),
    ensures
        errors::verdict(r) == transaction_verdict(
            tx@,
            best_height,
            db@,
            height,
            proofs.rings@,
            proofs.batch,
        ),
{
    if tx.is_coinbase() {
        return Ok(());
    }
    if is_locked(tx, best_height) {
        return Err(ChainError::InvalidLockTime);
    }
    match check_places(tx, db, height) {
        Ok(_) => {},
        Err(e) => {
            return Err(e);
        },
    }
    if !tx.is_anonymous {
        match check_utxos(tx, db) {
            Ok(s) => check_amounts(tx, s),
            Err(e) => Err(e),
        }
    } else {
        let outputs = match load_anonymous(tx, db) {
            Ok(m) => m,
            Err(e) => {
                return Err(e);
            },
        };
        match validate_anonymous_tx(tx, &outputs, db, &proofs.rings, proofs.batch) {
            Ok(_) => check_amounts(tx, 0),
            Err(e) => Err(e),
        }
    }
}

/// No money is made: a transparent transaction that is accepted pays out no
/// more than the stored outputs it names hold, and leaves the least fee.
pub proof fn law_no_money_made(
    t: tx::TxView,
    best_height: usize,
    db: store::Db,
    height: usize,
    rings: Seq<RingProof>,
    batch: BatchVerdict,
)
    requires
        !tx::coinbase(t),
        !t.is_anonymous,
        transaction_verdict(t, best_height, db, height, rings, batch) is Ok,
    ensures
        required_fee(t) is Some,
        tx::sum(tx::values(t.outputs)) + required_fee(t)->0 <= tx::sum(
            stored_values(db, false, t.inputs),
        ),
{
}

/// What a transparent transaction that is accepted spends is there: each input
/// names an output that is stored, and no two name the same.
pub proof fn law_spends_stored_once(
    t: tx::TxView,
    best_height: usize,
    db: store::Db,
    height: usize,
    rings: Seq<RingProof>,
    batch: BatchVerdict,
    i: int,
    j: int,
)
    requires
        !tx::coinbase(t),
        !t.is_anonymous,
        transaction_verdict(t, best_height, db, height, rings, batch) is Ok,
        0 <= i <= j < t.inputs.len(),
    ensures
        stored_output(db, false, t.inputs[i]) is Some,
        stored_output(db, false, t.inputs[j]) is Some,
        i < j ==> t.inputs[i].txid != t.inputs[j].txid || t.inputs[i].vout != t.inputs[j].vout,
{
    let places = |k: int| place_fault(t.inputs, db, height, k);
    let utxos = |k: int| utxo_fault(t.inputs, db, k);
    lemma_all_pass(places, t.inputs.len(), j);
    lemma_all_pass(utxos, t.inputs.len(), i);
    lemma_all_pass(utxos, t.inputs.len(), j);
    assert(places(j) is None);
    assert(utxos(i) is None);
    assert(utxos(j) is None);
    if i < j && t.inputs[i].txid == t.inputs[j].txid && t.inputs[i].vout == t.inputs[j].vout {
        assert(named_before(t.inputs, j));
    }
}

/// A coinbase output waits: a transaction that spends one before it is mature
/// is refused.
pub proof fn law_coinbase_waits(
    t: tx::TxView,
    best_height: usize,
    db: store::Db,
    height: usize,
    rings: Seq<RingProof>,
    batch: BatchVerdict,
    i: int,
    at: usize,
)
    requires
        !tx::coinbase(t),
        0 <= i < t.inputs.len(),
        store::read(db, Cf::Coinbase, t.inputs[i].txid@) == Some(keys::height_bytes(at)),
        height < at + COINBASE_MATURITY,
    ensures
        transaction_verdict(t, best_height, db, height, rings, batch) is Err,
{
    let places = |k: int| place_fault(t.inputs, db, height, k);
    bytes::lemma_be_bytes_len(at as nat, 8);
    bytes::lemma_pow256_values();
    bytes::lemma_be_read_write(at as nat, 8);
    assert(places(i) is Some);
    assert(errors::first_fault(places, (i + 1) as nat) is Some);
    errors::lemma_first_fault(places, (i + 1) as nat, t.inputs.len());
}

/// Where no check of several fails, none of them does.
pub proof fn lemma_all_pass(check: spec_fn(int) -> Option<Fault>, n: nat, i: int)
    requires
        errors::first_fault(check, n) is None,
        0 <= i < n,
    ensures
        check(i) is None,
    decreases n,
{
    if i < n - 1 {
        lemma_all_pass(check, (n - 1) as nat, i);
    }
}

// ---------------------------------------------------------------------------
// Which transactions are accepted
// ---------------------------------------------------------------------------

/// The least fee is 10 for each byte, and 15 for an anonymous transaction.
pub proof fn law_least_fee(t: tx::TxView)
    requires
        15 * codec::enc_tx(t).len() <= u64::MAX,
    ensures
        required_fee(t) == Some(
            (codec::enc_tx(t).len() * if t.is_anonymous {
                15
            } else {
                10int
            }) as u64,
        ),
{
    let size = codec::enc_tx(t).len();
    assert(size * MIN_FEE_PER_BYTE * ANON_FEE_MULTIPLIER_NUMERATOR == size * 30)
        by (nonlinear_arith)
        requires
            MIN_FEE_PER_BYTE == 10,
            ANON_FEE_MULTIPLIER_NUMERATOR == 3,
    ;
}

/// Whether a transparent transaction is accepted depends on its amounts alone
/// where it is not held back by its lock time, its inputs name outputs that
/// differ in the transaction or the position, and each of these is stored,
/// readable, and not made by a coinbase of the last 100 blocks: it is accepted
/// exactly where they bring in what the outputs take out and 10 for each byte.
pub proof fn law_payable_is_accepted(
    t: tx::TxView,
    best_height: usize,
    db: store::Db,
    height: usize,
    rings: Seq<RingProof>,
    batch: BatchVerdict,
    brought: Seq<u64>,
)
    requires
        !tx::coinbase(t),
        !t.is_anonymous,
        t.lock_time <= best_height <= u32::MAX || forall|i: int|
            0 <= i < t.inputs.len() ==> (#[trigger] t.inputs[i]).sequence == 0xffff_ffff,
        forall|i: int, j: int|
            0 <= i < j < t.inputs.len() ==> (#[trigger] t.inputs[i]).txid != (
            #[trigger] t.inputs[j]).txid || t.inputs[i].vout != t.inputs[j].vout,
        brought.len() == t.inputs.len(),
        forall|i: int|
            0 <= i < t.inputs.len() ==> {
                let vin = #[trigger] t.inputs[i];
                let rec = store::read(db, Cf::Utxo, keys::outpoint_key(false, vin.txid@, vin.vout));
                let made = store::read(db, Cf::Coinbase, vin.txid@);
                &&& rec is Some
                &&& codec::read_output(rec->0) is Some
                &&& codec::read_output(rec->0)->0.value == brought[i]
                &&& made is None || (made->0.len() == 8 && bytes::be_value(made->0) + 100
                    <= height)
            },
        tx::sum(brought) <= u64::MAX,
        10 * codec::enc_tx(t).len() <= u64::MAX,
    ensures
        ({
            let ins = tx::sum(brought);
            let outs = tx::sum(tx::values(t.outputs));
            let fee = 10 * codec::enc_tx(t).len();
            let r = transaction_verdict(t, best_height, db, height, rings, batch);
            &&& r is Ok <==> outs + fee <= ins
            &&& r == Err::<(), Fault>(Fault::InsufficientFee) <==> outs <= ins < outs + fee
            &&& ins < outs <= u64::MAX ==> r == Err::<(), Fault>(
                Fault::InvalidTx("Outputs exceed inputs"@),
            )
            &&& outs > u64::MAX ==> r == Err::<(), Fault>(Fault::ValueOverflow)
        }),
{
    let places = |i: int| place_fault(t.inputs, db, height, i);
    let utxos = |i: int| utxo_fault(t.inputs, db, i);
    assert(stored_values(db, false, t.inputs) =~= brought);
    assert(!locked(t, best_height)) by {
        assert(best_height <= u32::MAX ==> best_height as nat % 0x1_0000_0000 == best_height);
    }
    assert forall|i: int| 0 <= i < t.inputs.len() implies #[trigger] places(i) is None by {
        assert(!named_before(t.inputs, i));
    }
    assert forall|i: int| 0 <= i < t.inputs.len() implies #[trigger] utxos(i) is None by {
        tx::lemma_sum_take(brought, i + 1);
    }
    errors::lemma_no_fault(places, t.inputs.len());
    errors::lemma_no_fault(utxos, t.inputs.len());
}

/// A transparent transaction spends twice only where two of its inputs name
/// the same position of the same transaction; and one with such inputs that is
/// not held back by its lock time, and whose inputs name nothing that a
/// coinbase made, does.
pub proof fn law_double_spend_names_twice(
    t: tx::TxView,
    best_height: usize,
    db: store::Db,
    height: usize,
    rings: Seq<RingProof>,
    batch: BatchVerdict,
)
    requires
        !tx::coinbase(t),
        !t.is_anonymous,
    ensures
        ({
            let r = transaction_verdict(t, best_height, db, height, rings, batch);
            let twice = exists|i: int, j: int|
                0 <= i < j < t.inputs.len() && (#[trigger] t.inputs[i]).txid == (
                #[trigger] t.inputs[j]).txid && t.inputs[i].vout == t.inputs[j].vout;
            &&& r == Err::<(), Fault>(Fault::DoubleSpend) ==> twice
            &&& twice && t.lock_time == 0 && (forall|i: int|
                0 <= i < t.inputs.len() ==> store::read(
                    db,
                    Cf::Coinbase,
                    (#[trigger] t.inputs[i]).txid@,
                ) is None) ==> r == Err::<(), Fault>(Fault::DoubleSpend)
        }),
{
    let n = t.inputs.len();
    let places = |i: int| place_fault(t.inputs, db, height, i);
    let utxos = |i: int| utxo_fault(t.inputs, db, i);
    let p = errors::law_first_fault(places, n);
    let u = errors::law_first_fault(utxos, n);
    let r = transaction_verdict(t, best_height, db, height, rings, batch);
    if errors::first_fault(utxos, n) is Some {
        assert(utxos(u) is Some);
    }
    if errors::first_fault(places, n) is Some {
        assert(places(p) is Some);
    }
    if r == Err::<(), Fault>(Fault::DoubleSpend) {
        assert(named_before(t.inputs, p));
        let j = choose|j: int|
            0 <= j < p && (#[trigger] t.inputs[j]).txid == t.inputs[p].txid && t.inputs[j].vout
                == t.inputs[p].vout;
        assert(0 <= j < p < n && t.inputs[j].txid == t.inputs[p].txid && t.inputs[j].vout
            == t.inputs[p].vout);
    }
    if exists|i: int, j: int|
        0 <= i < j < n && (#[trigger] t.inputs[i]).txid == (#[trigger] t.inputs[j]).txid
            && t.inputs[i].vout == t.inputs[j].vout {
        let (i, j) = choose|i: int, j: int|
            0 <= i < j < n && (#[trigger] t.inputs[i]).txid == (#[trigger] t.inputs[j]).txid
                && t.inputs[i].vout == t.inputs[j].vout;
        assert(named_before(t.inputs, j));
        assert(places(j) is Some);
        assert(errors::first_fault(places, n) is Some);
    }
}

/// The lock time holds a transparent transaction back exactly where the chain
/// has not reached it and an input minds it.
pub proof fn law_lock_time_holds_back(
    t: tx::TxView,
    best_height: usize,
    db: store::Db,
    height: usize,
    rings: Seq<RingProof>,
    batch: BatchVerdict,
)
    requires
        !tx::coinbase(t),
        best_height <= u32::MAX,
    ensures
        ({
            let r = transaction_verdict(t, best_height, db, height, rings, batch);
            let held = t.lock_time > best_height && exists|i: int|
                0 <= i < t.inputs.len() && (#[trigger] t.inputs[i]).sequence != 0xffff_ffff;
            &&& held ==> r == Err::<(), Fault>(Fault::InvalidLockTime)
            &&& !t.is_anonymous && r == Err::<(), Fault>(Fault::InvalidLockTime) ==> held
        }),
{
    let n = t.inputs.len();
    let places = |i: int| place_fault(t.inputs, db, height, i);
    let utxos = |i: int| utxo_fault(t.inputs, db, i);
    let p = errors::law_first_fault(places, n);
    let u = errors::law_first_fault(utxos, n);
    assert(best_height as nat % 0x1_0000_0000 == best_height);
    if errors::first_fault(utxos, n) is Some {
        assert(utxos(u) is Some);
    }
    if errors::first_fault(places, n) is Some {
        assert(places(p) is Some);
    }
}

/// A transaction is too early for what a coinbase made only where one of its
/// inputs names a coinbase of the last 100 blocks; and one that names such a
/// coinbase, is not held back and names nothing twice, is.
pub proof fn law_immature_is_recent(
    t: tx::TxView,
    best_height: usize,
    db: store::Db,
    height: usize,
    rings: Seq<RingProof>,
    batch: BatchVerdict,
)
    requires
        !tx::coinbase(t),
        !t.is_anonymous,
        forall|i: int|
            0 <= i < t.inputs.len() && store::read(
                db,
                Cf::Coinbase,
                (#[trigger] t.inputs[i]).txid@,
            ) is Some ==> store::read(db, Cf::Coinbase, t.inputs[i].txid@)->0.len() == 8,
    ensures
        ({
            let r = transaction_verdict(t, best_height, db, height, rings, batch);
            let recent = exists|i: int|
                0 <= i < t.inputs.len() && store::read(
                    db,
                    Cf::Coinbase,
                    (#[trigger] t.inputs[i]).txid@,
                ) is Some && height < bytes::be_value(
                    store::read(db, Cf::Coinbase, t.inputs[i].txid@)->0,
                ) + 100;
            let once = forall|i: int, j: int|
                0 <= i < j < t.inputs.len() ==> (#[trigger] t.inputs[i]).txid != (
                #[trigger] t.inputs[j]).txid || t.inputs[i].vout != t.inputs[j].vout;
            &&& r == Err::<(), Fault>(Fault::CoinbaseImmature) ==> recent
            &&& recent && once && t.lock_time == 0 ==> r == Err::<(), Fault>(
                Fault::CoinbaseImmature,
            )
        }),
{
    let n = t.inputs.len();
    let places = |i: int| place_fault(t.inputs, db, height, i);
    let utxos = |i: int| utxo_fault(t.inputs, db, i);
    let p = errors::law_first_fault(places, n);
    let u = errors::law_first_fault(utxos, n);
    if errors::first_fault(utxos, n) is Some {
        assert(utxos(u) is Some);
    }
    if errors::first_fault(places, n) is Some {
        assert(places(p) is Some);
        assert(t.inputs[p] == t.inputs[p]);
    }
    if exists|i: int|
        0 <= i < n && store::read(db, Cf::Coinbase, (#[trigger] t.inputs[i]).txid@) is Some
            && height < bytes::be_value(store::read(db, Cf::Coinbase, t.inputs[i].txid@)->0)
            + 100 {
        let i = choose|i: int|
            0 <= i < n && store::read(db, Cf::Coinbase, (#[trigger] t.inputs[i]).txid@) is Some
                && height < bytes::be_value(store::read(db, Cf::Coinbase, t.inputs[i].txid@)->0)
                + 100;
        assert(places(i) is Some);
        assert(errors::first_fault(places, n) is Some);
    }
}

/// A transparent transaction that names an output which is not stored is
/// refused for it, where nothing is wrong with the places that it names and
/// the outputs named before that are readable and come to an amount.
pub proof fn law_missing_is_refused(
    t: tx::TxView,
    best_height: usize,
    db: store::Db,
    height: usize,
    rings: Seq<RingProof>,
    batch: BatchVerdict,
    k: int,
    brought: Seq<u64>,
)
    requires
        !tx::coinbase(t),
        !t.is_anonymous,
        t.lock_time == 0,
        forall|i: int, j: int|
            0 <= i < j < t.inputs.len() ==> (#[trigger] t.inputs[i]).txid != (
            #[trigger] t.inputs[j]).txid || t.inputs[i].vout != t.inputs[j].vout,
        forall|i: int|
            0 <= i < t.inputs.len() ==> store::read(
                db,
                Cf::Coinbase,
                (#[trigger] t.inputs[i]).txid@,
            ) is None,
        0 <= k < t.inputs.len(),
        store::read(
            db,
            Cf::Utxo,
            keys::outpoint_key(false, t.inputs[k].txid@, t.inputs[k].vout),
        ) is None,
        brought.len() == k,
        forall|i: int|
            0 <= i < k ==> {
                let vin = #[trigger] t.inputs[i];
                let rec = store::read(db, Cf::Utxo, keys::outpoint_key(false, vin.txid@, vin.vout));
                &&& rec is Some
                &&& codec::read_output(rec->0) is Some
                &&& codec::read_output(rec->0)->0.value == brought[i]
            },
        tx::sum(brought) <= u64::MAX,
    ensures
        transaction_verdict(t, best_height, db, height, rings, batch) == Err::<(), Fault>(
            Fault::MissingUTXO,
        ),
{
    let n = t.inputs.len();
    let places = |i: int| place_fault(t.inputs, db, height, i);
    let utxos = |i: int| utxo_fault(t.inputs, db, i);
    let all = stored_values(db, false, t.inputs);
    assert(all.take(k) =~= brought);
    assert forall|i: int| 0 <= i < n implies #[trigger] places(i) is None by {
        assert(!named_before(t.inputs, i));
    }
    errors::lemma_no_fault(places, n);
    assert forall|i: int| 0 <= i < k implies #[trigger] utxos(i) is None by {
        tx::lemma_sum_take(brought, i + 1);
        assert(all.take(i + 1) =~= brought.take(i + 1));
    }
    errors::lemma_no_fault(utxos, k as nat);
    assert(utxos(k) == Some(Fault::MissingUTXO));
    assert(errors::first_fault(utxos, (k + 1) as nat) == Some(Fault::MissingUTXO));
    errors::lemma_first_fault(utxos, (k + 1) as nat, n);
}

} // verus!
