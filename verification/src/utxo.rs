//! What connecting and disconnecting blocks does to the unspent outputs.
use crate::anon;
use crate::anon::RingProof;
use crate::bytes;
use crate::bytes::{append_bytes, copy_bytes, read32, to_be};
use crate::codec;
use crate::codec::{deserialize_output, serialize_output};
use crate::errors::{other, ChainError, Fault};
use crate::hash;
use crate::hash::{hash160, sha256d};
use crate::keys;
use crate::keys::{
    make_addr_key, make_height_bytes, make_outpoint_key, make_set_hash_key, make_supply_key,
};
use crate::store;
use crate::store::{del_op, push_op, put_op, Cf, Op, Snapshot};
use crate::tx;
use crate::tx::{Block, TXInput, TXOutput, Transaction};
use crate::validate;
use crate::validate::{output_family, TxProofs};
use vstd::prelude::*;

verus! {

/// What is done with a block.
#[derive(Debug, Clone, Copy, PartialEq, Eq, Structural)]
pub enum BlockAction {
    /// It is put on the chain.
    Connect,
    /// It is taken off the chain.
    Disconnect,
}

// ---------------------------------------------------------------------------
// The combined hash of the unspent outputs
// ---------------------------------------------------------------------------

/// The hash of one unspent output.
pub open spec fn entry_hash(txid: Seq<u8>, vout: u32, o: tx::OutputView) -> Seq<u8> {
    hash::sha256d_of(
        txid + bytes::be_bytes(vout as nat, 4) + bytes::be_bytes(o.value as nat, 8)
            + o.script_pubkey + (match o.commitment {
            Some(c) => c,
            None => Seq::empty(),
        }),
    )
}

/// Two hashes combined: adding an output and taking it out are the same.
pub open spec fn xor(a: Seq<u8>, b: Seq<u8>) -> Seq<u8> {
    Seq::new(32, |i: int| a[i] ^ b[i])
}

/// A hash combined with several others.
pub open spec fn xor_all(a: Seq<u8>, hs: Seq<Seq<u8>>) -> Seq<u8>
    decreases hs.len(),
{
    if hs.len() == 0 {
        a
    } else {
        xor(xor_all(a, hs.drop_last()), hs.last())
    }
}

/// Combining twice with the same hash changes nothing.
pub proof fn law_xor_undoes(a: Seq<u8>, b: Seq<u8>)
    requires
        a.len() == 32,
    ensures
        xor(xor(a, b), b) == a,
{
    assert forall|i: int| 0 <= i < 32 implies xor(xor(a, b), b)[i] == a[i] by {
        let x = a[i];
        let y = b[i];
        assert((x ^ y) ^ y == x) by (bit_vector);
    }
    assert(xor(xor(a, b), b) =~= a);
}

/// The order of combining does not matter.
pub proof fn law_xor_commutes(a: Seq<u8>, b: Seq<u8>, c: Seq<u8>)
    ensures
        xor(xor(a, b), c) == xor(xor(a, c), b),
{
    assert forall|i: int| 0 <= i < 32 implies xor(xor(a, b), c)[i] == xor(xor(a, c), b)[i] by {
        let x = a[i];
        let y = b[i];
        let z = c[i];
        assert((x ^ y) ^ z == (x ^ z) ^ y) by (bit_vector);
    }
    assert(xor(xor(a, b), c) =~= xor(xor(a, c), b));
}

proof fn lemma_xor_all_first(a: Seq<u8>, x: Seq<u8>, hs: Seq<Seq<u8>>)
    ensures
        xor_all(xor(a, x), hs) == xor(xor_all(a, hs), x),
    decreases hs.len(),
{
    if hs.len() > 0 {
        lemma_xor_all_first(a, x, hs.drop_last());
        law_xor_commutes(xor_all(a, hs.drop_last()), x, hs.last());
    }
}

/// Combining twice with the same hashes changes nothing: the combined hash
/// does not depend on how the set of unspent outputs came about.
pub proof fn law_xor_all_undoes(a: Seq<u8>, hs: Seq<Seq<u8>>)
    requires
        a.len() == 32,
    ensures
        xor_all(xor_all(a, hs), hs) == a,
    decreases hs.len(),
{
    if hs.len() > 0 {
        let init = hs.drop_last();
        lemma_xor_all_first(xor_all(a, init), hs.last(), init);
        law_xor_all_undoes(a, init);
        law_xor_undoes(a, hs.last());
    }
}

/// The hash of one unspent output.
pub fn hash_utxo_entry(txid: &[u8; 32], vout: u32, output: &TXOutput) -> (r: [u8; 32])
    ensures
        r@ == entry_hash(txid@, vout, output@),
{
    let mut data = copy_bytes(txid.as_slice());
    let v = to_be(vout as u128, 4);
    append_bytes(&mut data, v.as_slice());
    let w = to_be(output.value as u128, 8);
    append_bytes(&mut data, w.as_slice());
    append_bytes(&mut data, output.script_pubkey.as_slice());
    match &output.commitment {
        Some(c) => {
            append_bytes(&mut data, c.as_slice());
        },
        None => {
            assert(data@ + Seq::<u8>::empty() =~= data@);
        },
    }
    sha256d(data.as_slice())
}

/// Combines the hash `b` into `a`.
pub fn xor_hash(a: &mut [u8; 32], b: &[u8; 32])
    ensures
        final(a)@ == xor(old(a)@, b@),
{
    let ghost before = a@;
    let mut i: usize = 0;
    while i < 32
        invariant
            i <= 32,
            before == old(a)@,
            forall|j: int| 0 <= j < i ==> a@[j] == before[j] ^ b@[j],
            forall|j: int| i <= j < 32 ==> a@[j] == before[j],
        decreases 32 - i,
    {
        a[i] = a[i] ^ b[i];
        i += 1;
    }
    assert(a@ =~= xor(before, b@));
}

// ---------------------------------------------------------------------------
// What an action writes
// ---------------------------------------------------------------------------

/// What an action on blocks does: the writes, the writes that take them back
/// in the opposite order, and the hash and the sum of the unspent outputs.
pub struct Delta {
    /// The writes.
    pub ops: Vec<Op>,
    /// What takes them back, the last first.
    pub undo: Vec<Op>,
    /// The combined hash of the unspent outputs.
    pub set_hash: [u8; 32],
    /// The sum of the unspent outputs.
    pub supply: u64,
}

/// What a [`Delta`] says.
pub struct DeltaView {
    pub ops: Seq<store::OpView>,
    pub undo: Seq<store::OpView>,
    pub set_hash: Seq<u8>,
    pub supply: u64,
}

impl View for Delta {
    type V = DeltaView;

    open spec fn view(&self) -> DeltaView {
        DeltaView {
            ops: store::ops_view(self.ops@),
            undo: store::ops_view(self.undo@),
            set_hash: self.set_hash@,
            supply: self.supply,
        }
    }
}

/// Nothing written yet.
pub open spec fn no_change(set_hash: Seq<u8>, supply: u64) -> DeltaView {
    DeltaView { ops: Seq::empty(), undo: Seq::empty(), set_hash, supply }
}

/// A key that is new gets a value; deleting it takes that back.
pub open spec fn create(d: DeltaView, cf: Cf, key: Seq<u8>, value: Seq<u8>) -> DeltaView {
    DeltaView {
        ops: d.ops.push(store::put(cf, key, value)),
        undo: d.undo.push(store::del(cf, key)),
        ..d
    }
}

/// A key loses its value; what it held is put back to take that back.
pub open spec fn erase(d: DeltaView, db: store::Db, cf: Cf, key: Seq<u8>) -> DeltaView {
    DeltaView {
        ops: d.ops.push(store::del(cf, key)),
        undo: match store::read(db, cf, key) {
            Some(v) => d.undo.push(store::put(cf, key, v)),
            None => d.undo,
        },
        ..d
    }
}

/// A record that a block makes: connecting creates it, disconnecting erases
/// it.
pub open spec fn mark(
    d: DeltaView,
    db: store::Db,
    action: BlockAction,
    cf: Cf,
    key: Seq<u8>,
    value: Seq<u8>,
) -> DeltaView {
    match action {
        BlockAction::Connect => create(d, cf, key, value),
        BlockAction::Disconnect => erase(d, db, cf, key),
    }
}

/// An output comes into the set of unspent outputs or leaves it.
pub open spec fn count(d: DeltaView, h: Seq<u8>, value: u64, into: bool) -> Result<
    DeltaView,
    Fault,
> {
    let supply = if into {
        d.supply + value
    } else {
        d.supply - value
    };
    if 0 <= supply <= u64::MAX {
        Ok(DeltaView { set_hash: xor(d.set_hash, h), supply: supply as u64, ..d })
    } else {
        Err(Fault::ValueOverflow)
    }
}

/// The key image of an anonymous input is recorded or forgotten.
pub open spec fn image_step(
    db: store::Db,
    action: BlockAction,
    height: usize,
    vin: tx::InputView,
    valid: bool,
    d: DeltaView,
) -> Result<DeltaView, Fault> {
    let image = anon::key_image(vin);
    if vin.script_sig.len() < 32 {
        Err(Fault::InvalidScript)
    } else if !valid {
        Err(Fault::InvalidKeyImage)
    } else if action is Connect && store::read(db, Cf::KeyImages, image) is Some {
        Err(Fault::DoubleSpend)
    } else {
        Ok(mark(d, db, action, Cf::KeyImages, image, keys::height_bytes(height)))
    }
}

/// The output that an input names is spent, or is there again.
pub open spec fn spend_step(
    db: store::Db,
    action: BlockAction,
    anonymous: bool,
    vin: tx::InputView,
    d: DeltaView,
) -> Result<DeltaView, Fault> {
    let cf = validate::family(anonymous);
    let key = keys::outpoint_key(anonymous, vin.txid@, vin.vout);
    match store::read(db, cf, key) {
        None => Err(Fault::MissingUTXO),
        Some(prev) => match codec::read_output(prev) {
            None => Err(Fault::Other("Deserialize prev_out failed"@)),
            Some(o) => match count(
                d,
                entry_hash(vin.txid@, vin.vout, o),
                o.value,
                action is Disconnect,
            ) {
                Err(e) => Err(e),
                Ok(d) => match action {
                    BlockAction::Connect => Ok(erase(d, db, cf, key)),
                    BlockAction::Disconnect => Ok(create(d, cf, key, prev)),
                },
            },
        },
    }
}

/// What an input does.
pub open spec fn input_step(
    db: store::Db,
    action: BlockAction,
    height: usize,
    t: tx::TxView,
    rings: Seq<RingProof>,
    i: int,
    d: DeltaView,
) -> Result<DeltaView, Fault> {
    if t.is_anonymous {
        match image_step(db, action, height, t.inputs[i], rings[i].key_image_valid, d) {
            Err(e) => Err(e),
            Ok(d) => spend_step(db, action, true, t.inputs[i], d),
        }
    } else {
        spend_step(db, action, false, t.inputs[i], d)
    }
}

/// What the first `n` inputs do.
pub open spec fn inputs_step(
    db: store::Db,
    action: BlockAction,
    height: usize,
    t: tx::TxView,
    rings: Seq<RingProof>,
    n: nat,
    d: DeltaView,
) -> Result<DeltaView, Fault>
    decreases n,
{
    if n == 0 {
        Ok(d)
    } else {
        match inputs_step(db, action, height, t, rings, (n - 1) as nat, d) {
            Err(e) => Err(e),
            Ok(d) => input_step(db, action, height, t, rings, n - 1, d),
        }
    }
}

/// The output that is handled at position `i`: connecting goes through the
/// outputs forwards, disconnecting backwards, while the position counts up
/// either way.
pub open spec fn handled(t: tx::TxView, action: BlockAction, i: int) -> tx::OutputView {
    match action {
        BlockAction::Connect => t.outputs[i],
        BlockAction::Disconnect => t.outputs[t.outputs.len() - 1 - i],
    }
}

/// A position as it is stored, in 32 bits.
pub open spec fn position(i: int) -> u32 {
    (i % 0x1_0000_0000) as u32
}

/// What the output handled at position `i` does.
pub open spec fn output_step(
    db: store::Db,
    action: BlockAction,
    t: tx::TxView,
    i: int,
    d: DeltaView,
) -> Result<DeltaView, Fault> {
    let o = handled(t, action, i);
    let txid = tx::txid_of(t);
    let vout = position(i);
    let key = keys::outpoint_key(t.is_anonymous, txid, vout);
    match count(d, entry_hash(txid, vout, o), o.value, action is Connect) {
        Err(e) => Err(e),
        Ok(d) => {
            let d = mark(
                d,
                db,
                action,
                validate::family(t.is_anonymous),
                key,
                codec::enc_output(o),
            );
            if t.is_anonymous {
                Ok(d)
            } else {
                Ok(
                    mark(
                        d,
                        db,
                        action,
                        Cf::AddrIndex,
                        keys::addr_key(hash::hash160_of(o.script_pubkey), txid, vout),
                        bytes::be_bytes(o.value as nat, 8),
                    ),
                )
            }
        },
    }
}

/// What the outputs handled at the first `n` positions do.
pub open spec fn outputs_step(
    db: store::Db,
    action: BlockAction,
    t: tx::TxView,
    n: nat,
    d: DeltaView,
) -> Result<DeltaView, Fault>
    decreases n,
{
    if n == 0 {
        Ok(d)
    } else {
        match outputs_step(db, action, t, (n - 1) as nat, d) {
            Err(e) => Err(e),
            Ok(d) => output_step(db, action, t, n - 1, d),
        }
    }
}

/// What a transaction does: a coinbase is only recorded with its height.
pub open spec fn tx_step(
    db: store::Db,
    action: BlockAction,
    height: usize,
    t: tx::TxView,
    rings: Seq<RingProof>,
    d: DeltaView,
) -> Result<DeltaView, Fault> {
    if tx::coinbase(t) {
        Ok(mark(d, db, action, Cf::Coinbase, tx::txid_of(t), keys::height_bytes(height)))
    } else {
        match inputs_step(db, action, height, t, rings, t.inputs.len(), d) {
            Err(e) => Err(e),
            Ok(d) => outputs_step(db, action, t, t.outputs.len(), d),
        }
    }
}

/// The ring signatures of transaction `i`.
pub open spec fn rings_of(proofs: Seq<TxProofs>, i: int) -> Seq<RingProof> {
    proofs[i].rings@
}

/// What the first `n` transactions of a block do.
pub open spec fn txs_step(
    db: store::Db,
    action: BlockAction,
    height: usize,
    txs: Seq<tx::TxView>,
    proofs: Seq<TxProofs>,
    n: nat,
    d: DeltaView,
) -> Result<DeltaView, Fault>
    decreases n,
{
    if n == 0 {
        Ok(d)
    } else {
        match txs_step(db, action, height, txs, proofs, (n - 1) as nat, d) {
            Err(e) => Err(e),
            Ok(d) => tx_step(db, action, height, txs[n - 1], rings_of(proofs, n - 1), d),
        }
    }
}

/// The hash and the sum of the unspent outputs are recorded.
pub open spec fn record_totals(d: DeltaView) -> DeltaView {
    DeltaView {
        ops: d.ops.push(store::put(Cf::Default, keys::set_hash_key(), d.set_hash)).push(
            store::put(Cf::Default, keys::supply_key(), bytes::be_bytes(d.supply as nat, 8)),
        ),
        ..d
    }
}

/// What a block does to the unspent outputs.
pub open spec fn block_step(
    db: store::Db,
    action: BlockAction,
    height: usize,
    b: tx::BlockView,
    proofs: Seq<TxProofs>,
    d: DeltaView,
) -> Result<DeltaView, Fault> {
    match txs_step(db, action, height, b.txs, proofs, b.txs.len(), d) {
        Err(e) => Err(e),
        Ok(d) => Ok(record_totals(d)),
    }
}

/// Whether the findings are about the transactions of a block.
pub open spec fn block_proofs_fit(b: tx::BlockView, proofs: Seq<TxProofs>) -> bool {
    &&& proofs.len() == b.txs.len()
    &&& forall|i: int|
        0 <= i < b.txs.len() ==> validate::proofs_fit(#[trigger] b.txs[i], proofs[i])
}

/// What a step came to, with the error taken by its view.
pub open spec fn stepped(r: Result<(), ChainError>, d: Delta) -> Result<DeltaView, Fault> {
    match r {
        Ok(_) => Ok(d@),
        Err(e) => Err(e@),
    }
}

impl Delta {
    /// Nothing written yet.
    pub fn new(set_hash: [u8; 32], supply: u64) -> (r: Self)
        ensures
            r@ == no_change(set_hash@, supply),
    {
        let r = Delta { ops: Vec::new(), undo: Vec::new(), set_hash, supply };
        assert(r@.ops =~= Seq::<store::OpView>::empty());
        assert(r@.undo =~= Seq::<store::OpView>::empty());
        r
    }

    fn create(&mut self, cf: Cf, key: &[u8], value: &[u8])
        ensures
            final(self)@ == create(old(self)@, cf, key@, value@),
    {
        push_op(&mut self.ops, put_op(cf, key, value));
        push_op(&mut self.undo, del_op(cf, key));
    }

    fn erase(&mut self, db: &Snapshot, cf: Cf, key: &[u8])
        ensures
            final(self)@ == erase(old(self)@, db@, cf, key@),
    {
        match db.get(cf, key) {
            Some(prev) => {
                push_op(&mut self.undo, put_op(cf, key, prev.as_slice()));
            },
            None => {},
        }
        push_op(&mut self.ops, del_op(cf, key));
    }

    fn mark(&mut self, db: &Snapshot, action: BlockAction, cf: Cf, key: &[u8], value: &[u8])
        ensures
            final(self)@ == mark(old(self)@, db@, action, cf, key@, value@),
    {
        match action {
            BlockAction::Connect => self.create(cf, key, value),
            BlockAction::Disconnect => self.erase(db, cf, key),
        }
    }

    fn count(&mut self, h: &[u8; 32], value: u64, into: bool) -> (r: Result<(), ChainError>)
        ensures
            stepped(r, *final(self)) == count(old(self)@, h@, value, into),
    {
        xor_hash(&mut self.set_hash, h);
        let supply: Option<u64> = if into {
            self.supply.checked_add(value)
        } else {
            self.supply.checked_sub(value)
        };
        match supply {
            Some(s) => {
                self.supply = s;
                Ok(())
            },
            None => Err(ChainError::ValueOverflow),
        }
    }

    fn image_input(
        &mut self,
        db: &Snapshot,
        action: BlockAction,
        height: usize,
        vin: &TXInput,
        valid: bool,
    ) -> (r: Result<(), ChainError>)
        ensures
            stepped(r, *final(self)) == image_step(db@, action, height, vin@, valid, old(self)@),
    {
        if vin.script_sig.len() < 32 {
            return Err(ChainError::InvalidScript);
        }
        if !valid {
            return Err(ChainError::InvalidKeyImage);
        }
        let image = read32(vin.script_sig.as_slice(), 0);
        if action == BlockAction::Connect && db.get(Cf::KeyImages, image.as_slice()).is_some() {
            return Err(ChainError::DoubleSpend);
        }
        let h = make_height_bytes(height);
        self.mark(db, action, Cf::KeyImages, image.as_slice(), h.as_slice());
        Ok(())
    }

    fn spend_input(
        &mut self,
        db: &Snapshot,
        action: BlockAction,
        anonymous: bool,
        vin: &TXInput,
    ) -> (r: Result<(), ChainError>)
        ensures
            stepped(r, *final(self)) == spend_step(db@, action, anonymous, vin@, old(self)@),
    {
        let cf = output_family(anonymous);
        let key = make_outpoint_key(anonymous, &vin.txid, vin.vout);
        let prev = match db.get(cf, key.as_slice()) {
            Some(p) => p,
            None => {
                return Err(ChainError::MissingUTXO);
            },
        };
        let out = match deserialize_output(prev.as_slice()) {
            Some(o) => o,
            None => {
                return Err(other("Deserialize prev_out failed"));
            },
        };
        let h = hash_utxo_entry(&vin.txid, vin.vout, &out);
        match self.count(&h, out.value, action == BlockAction::Disconnect) {
            Ok(_) => {},
            Err(e) => {
                return Err(e);
            },
        }
        match action {
            BlockAction::Connect => self.erase(db, cf, key.as_slice()),
            BlockAction::Disconnect => self.create(cf, key.as_slice(), prev.as_slice()),
        }
        Ok(())
    }

    fn inputs(
        &mut self,
        db: &Snapshot,
        action: BlockAction,
        height: usize,
        tx: &Transaction,
        rings: &Vec<RingProof>,
    ) -> (r: Result<(), ChainError>)
        requires
            tx.is_anonymous ==> rings@.len() == tx.inputs@.len(),
        ensures
            stepped(r, *final(self)) == inputs_step(
                db@,
                action,
                height,
                tx@,
                rings@,
                tx.inputs@.len(),
                old(self)@,
            ),
    {
        let ghost start = self@;
        let mut i: usize = 0;
        while i < tx.inputs.len()
            invariant
                i <= tx.inputs@.len(),
                tx.is_anonymous ==> rings@.len() == tx.inputs@.len(),
                start == old(self)@,
                inputs_step(db@, action, height, tx@, rings@, i as nat, start) == Ok::<_, Fault>(
                    self@,
                ),
            decreases tx.inputs@.len() - i,
        {
            let ghost before = self@;
            let vin = &tx.inputs[i];
            assert(tx@.inputs[i as int] == vin@);
            let mut res: Result<(), ChainError> = Ok(());
            if tx.is_anonymous {
                res = self.image_input(
                    db,
                    action,
                    height,
                    vin,
                    rings[i].key_image_valid,
                );
            }
            match res {
                Ok(_) => {},
                Err(e) => {
                    proof {
                        lemma_inputs_stop(
                            db@,
                            action,
                            height,
                            tx@,
                            rings@,
                            (i + 1) as nat,
                            tx.inputs@.len(),
                            start,
                            e@,
                        );
                    }
                    return Err(e);
                },
            }
            match self.spend_input(db, action, tx.is_anonymous, vin) {
                Ok(_) => {},
                Err(e) => {
                    proof {
                        lemma_inputs_stop(
                            db@,
                            action,
                            height,
                            tx@,
                            rings@,
                            (i + 1) as nat,
                            tx.inputs@.len(),
                            start,
                            e@,
                        );
                    }
                    return Err(e);
                },
            }
            i += 1;
        }
        Ok(())
    }

    fn outputs(&mut self, db: &Snapshot, action: BlockAction, tx: &Transaction) -> (r: Result<
        (),
        ChainError,
    >)
        ensures
            stepped(r, *final(self)) == outputs_step(
                db@,
                action,
                tx@,
                tx.outputs@.len(),
                old(self)@,
            ),
    {
        let ghost start = self@;
        let txid = tx.hash();
        let cf = output_family(tx.is_anonymous);
        let n: usize = tx.outputs.len();
        let mut i: usize = 0;
        while i < n
            invariant
                i <= n,
                n == tx.outputs@.len(),
                start == old(self)@,
                txid@ == tx::txid_of(tx@),
                cf == validate::family(tx.is_anonymous),
                outputs_step(db@, action, tx@, i as nat, start) == Ok::<_, Fault>(self@),
            decreases n - i,
        {
            let out = if action == BlockAction::Connect {
                &tx.outputs[i]
            } else {
                &tx.outputs[n - 1 - i]
            };
            assert(handled(tx@, action, i as int) == out@);
            let vout: u32 = (i as u64 % 0x1_0000_0000) as u32;
            let key = make_outpoint_key(tx.is_anonymous, &txid, vout);
            let h = hash_utxo_entry(&txid, vout, out);
            match self.count(&h, out.value, action == BlockAction::Connect) {
                Ok(_) => {},
                Err(e) => {
                    proof {
                        lemma_outputs_stop(
                            db@,
                            action,
                            tx@,
                            (i + 1) as nat,
                            tx.outputs@.len(),
                            start,
                            e@,
                        );
                    }
                    return Err(e);
                },
            }
            let data = serialize_output(out);
            self.mark(db, action, cf, key.as_slice(), data.as_slice());
            if !tx.is_anonymous {
                let script_hash = hash160(out.script_pubkey.as_slice());
                let addr = make_addr_key(&script_hash, &txid, vout);
                let value = to_be(out.value as u128, 8);
                self.mark(db, action, Cf::AddrIndex, addr.as_slice(), value.as_slice());
            }
            i += 1;
        }
        Ok(())
    }

    /// Does what a transaction of the block at `height` does.
    pub fn handle_utxo_action(
        &mut self,
        db: &Snapshot,
        action: BlockAction,
        height: usize,
        tx: &Transaction,
        rings: &Vec<RingProof>,
    ) -> (r: Result<(), ChainError>)
        requires
            tx.is_anonymous ==> rings@.len() == tx.inputs@.len(),
        ensures
            stepped(r, *final(self)) == tx_step(db@, action, height, tx@, rings@, old(self)@),
    {
        if tx.is_coinbase() {
            let txid = tx.hash();
            let h = make_height_bytes(height);
            self.mark(db, action, Cf::Coinbase, txid.as_slice(), h.as_slice());
            return Ok(());
        }
        match self.inputs(db, action, height, tx, rings) {
            Ok(_) => {},
            Err(e) => {
                return Err(e);
            },
        }
        self.outputs(db, action, tx)
    }

    /// Does what a block at `height` does, and records the totals.
    pub fn apply_utxo_changes(
        &mut self,
        db: &Snapshot,
        action: BlockAction,
        height: usize,
        block: &Block,
        proofs: &Vec<TxProofs>,
    ) -> (r: Result<(), ChainError>)
        requires
            block_proofs_fit(block@, proofs@),
        ensures
            stepped(r, *final(self)) == block_step(
                db@,
                action,
                height,
                block@,
                proofs@,
                old(self)@,
            ),
    {
        let ghost start = self@;
        let ghost txs = block@.txs;
        let mut i: usize = 0;
        while i < block.txs.len()
            invariant
                i <= block.txs@.len(),
                txs == block@.txs,
                block_proofs_fit(block@, proofs@),
                start == old(self)@,
                txs_step(db@, action, height, txs, proofs@, i as nat, start) == Ok::<_, Fault>(
                    self@,
                ),
            decreases block.txs@.len() - i,
        {
            assert(txs[i as int] == block.txs@[i as int]@);
            assert(validate::proofs_fit(block@.txs[i as int], proofs@[i as int]));
            match self.handle_utxo_action(db, action, height, &block.txs[i], &proofs[i].rings) {
                Ok(_) => {},
                Err(e) => {
                    proof {
                        lemma_txs_stop(
                            db@,
                            action,
                            height,
                            txs,
                            proofs@,
                            (i + 1) as nat,
                            txs.len(),
                            start,
                            e@,
                        );
                    }
                    return Err(e);
                },
            }
            i += 1;
        }
        let k = make_set_hash_key();
        push_op(&mut self.ops, put_op(Cf::Default, k.as_slice(), self.set_hash.as_slice()));
        let k = make_supply_key();
        let v = to_be(self.supply as u128, 8);
        push_op(&mut self.ops, put_op(Cf::Default, k.as_slice(), v.as_slice()));
        Ok(())
    }
}

proof fn lemma_inputs_stop(
    db: store::Db,
    action: BlockAction,
    height: usize,
    t: tx::TxView,
    rings: Seq<RingProof>,
    i: nat,
    n: nat,
    d: DeltaView,
    e: Fault,
)
    requires
        i <= n,
        inputs_step(db, action, height, t, rings, i, d) == Err::<DeltaView, Fault>(e),
    ensures
        inputs_step(db, action, height, t, rings, n, d) == Err::<DeltaView, Fault>(e),
    decreases n,
{
    if i < n {
        lemma_inputs_stop(db, action, height, t, rings, i, (n - 1) as nat, d, e);
    }
}

proof fn lemma_outputs_stop(
    db: store::Db,
    action: BlockAction,
    t: tx::TxView,
    i: nat,
    n: nat,
    d: DeltaView,
    e: Fault,
)
    requires
        i <= n,
        outputs_step(db, action, t, i, d) == Err::<DeltaView, Fault>(e),
    ensures
        outputs_step(db, action, t, n, d) == Err::<DeltaView, Fault>(e),
    decreases n,
{
    if i < n {
        lemma_outputs_stop(db, action, t, i, (n - 1) as nat, d, e);
    }
}

proof fn lemma_txs_stop(
    db: store::Db,
    action: BlockAction,
    height: usize,
    txs: Seq<tx::TxView>,
    proofs: Seq<TxProofs>,
    i: nat,
    n: nat,
    d: DeltaView,
    e: Fault,
)
    requires
        i <= n,
        txs_step(db, action, height, txs, proofs, i, d) == Err::<DeltaView, Fault>(e),
    ensures
        txs_step(db, action, height, txs, proofs, n, d) == Err::<DeltaView, Fault>(e),
    decreases n,
{
    if i < n {
        lemma_txs_stop(db, action, height, txs, proofs, i, (n - 1) as nat, d, e);
    }
}

// ---------------------------------------------------------------------------
// Taking a block back
// ---------------------------------------------------------------------------

/// Whether the writes can be taken back: for every key that they touch there
/// is a write of the value that the key has in `db`.
pub open spec fn reversible(d: DeltaView, db: store::Db) -> bool {
    &&& store::restores(d.undo, db)
    &&& forall|cf: Cf, key: Seq<u8>|
        #[trigger] store::touches(d.ops, cf, key) ==> store::touches(d.undo, cf, key)
}

/// Whether what a transaction records is not there yet: its coinbase record,
/// or its outputs and their entries in the index by scripts.
pub open spec fn records_new(db: store::Db, t: tx::TxView) -> bool {
    let txid = tx::txid_of(t);
    if tx::coinbase(t) {
        store::read(db, Cf::Coinbase, txid) is None
    } else {
        forall|i: int|
            0 <= i < t.outputs.len() ==> {
                let o = #[trigger] t.outputs[i];
                &&& store::read(
                    db,
                    validate::family(t.is_anonymous),
                    keys::outpoint_key(t.is_anonymous, txid, position(i)),
                ) is None
                &&& !t.is_anonymous ==> store::read(
                    db,
                    Cf::AddrIndex,
                    keys::addr_key(hash::hash160_of(o.script_pubkey), txid, position(i)),
                ) is None
            }
    }
}

proof fn lemma_touch_push(ops: Seq<store::OpView>, op: store::OpView, cf: Cf, key: Seq<u8>)
    ensures
        store::touches(ops.push(op), cf, key) <==> (store::touches(ops, cf, key) || (op.cf == cf
            && op.key == key)),
{
    let more = ops.push(op);
    if store::touches(more, cf, key) {
        let i = choose|i: int|
            0 <= i < more.len() && (#[trigger] more[i]).cf == cf && more[i].key == key;
        if i < ops.len() {
            assert(ops[i].cf == cf && ops[i].key == key);
        }
    }
    if store::touches(ops, cf, key) {
        let i = choose|i: int|
            0 <= i < ops.len() && (#[trigger] ops[i]).cf == cf && ops[i].key == key;
        assert(more[i].cf == cf && more[i].key == key);
    }
    if op.cf == cf && op.key == key {
        assert(more[ops.len() as int].cf == cf && more[ops.len() as int].key == key);
    }
}

proof fn lemma_reversible_push(
    d: DeltaView,
    e: DeltaView,
    db: store::Db,
    op: store::OpView,
    back: store::OpView,
)
    requires
        reversible(d, db),
        e.ops == d.ops.push(op),
        e.undo == d.undo.push(back),
        op.cf == back.cf,
        op.key == back.key,
        back.value == store::read(db, back.cf, back.key),
    ensures
        reversible(e, db),
{
    assert forall|i: int| 0 <= i < e.undo.len() implies (#[trigger] e.undo[i]).value == store::read(
        db,
        e.undo[i].cf,
        e.undo[i].key,
    ) by {
        if i < d.undo.len() {
            assert(e.undo[i] == d.undo[i]);
        }
    }
    assert forall|cf: Cf, key: Seq<u8>| #[trigger]
        store::touches(e.ops, cf, key) implies store::touches(e.undo, cf, key) by {
        lemma_touch_push(d.ops, op, cf, key);
        lemma_touch_push(d.undo, back, cf, key);
    }
}

proof fn lemma_reversible_input(
    db: store::Db,
    height: usize,
    t: tx::TxView,
    rings: Seq<RingProof>,
    i: int,
    d: DeltaView,
)
    requires
        reversible(d, db),
        input_step(db, BlockAction::Connect, height, t, rings, i, d) is Ok,
    ensures
        reversible(input_step(db, BlockAction::Connect, height, t, rings, i, d)->Ok_0, db),
{
    let vin = t.inputs[i];
    let image = anon::key_image(vin);
    let cf = validate::family(t.is_anonymous);
    let key = keys::outpoint_key(t.is_anonymous, vin.txid@, vin.vout);
    let end = input_step(db, BlockAction::Connect, height, t, rings, i, d)->Ok_0;
    let prev = store::read(db, cf, key)->0;
    let mid = if t.is_anonymous {
        create(d, Cf::KeyImages, image, keys::height_bytes(height))
    } else {
        d
    };
    if t.is_anonymous {
        lemma_reversible_push(
            d,
            mid,
            db,
            store::put(Cf::KeyImages, image, keys::height_bytes(height)),
            store::del(Cf::KeyImages, image),
        );
    }
    lemma_reversible_push(mid, end, db, store::del(cf, key), store::put(cf, key, prev));
}

proof fn lemma_reversible_output(db: store::Db, t: tx::TxView, i: int, d: DeltaView)
    requires
        reversible(d, db),
        !tx::coinbase(t),
        records_new(db, t),
        0 <= i < t.outputs.len(),
        output_step(db, BlockAction::Connect, t, i, d) is Ok,
    ensures
        reversible(output_step(db, BlockAction::Connect, t, i, d)->Ok_0, db),
{
    let o = t.outputs[i];
    let txid = tx::txid_of(t);
    let cf = validate::family(t.is_anonymous);
    let key = keys::outpoint_key(t.is_anonymous, txid, position(i));
    let end = output_step(db, BlockAction::Connect, t, i, d)->Ok_0;
    let counted = count(d, entry_hash(txid, position(i), o), o.value, true)->Ok_0;
    let mid = create(counted, cf, key, codec::enc_output(o));
    lemma_reversible_push(
        d,
        mid,
        db,
        store::put(cf, key, codec::enc_output(o)),
        store::del(cf, key),
    );
    if !t.is_anonymous {
        let addr = keys::addr_key(hash::hash160_of(o.script_pubkey), txid, position(i));
        lemma_reversible_push(
            mid,
            end,
            db,
            store::put(Cf::AddrIndex, addr, bytes::be_bytes(o.value as nat, 8)),
            store::del(Cf::AddrIndex, addr),
        );
    }
}

proof fn lemma_reversible_inputs(
    db: store::Db,
    height: usize,
    t: tx::TxView,
    rings: Seq<RingProof>,
    n: nat,
    d: DeltaView,
)
    requires
        reversible(d, db),
        inputs_step(db, BlockAction::Connect, height, t, rings, n, d) is Ok,
    ensures
        reversible(inputs_step(db, BlockAction::Connect, height, t, rings, n, d)->Ok_0, db),
    decreases n,
{
    if n > 0 {
        let m = (n - 1) as nat;
        lemma_reversible_inputs(db, height, t, rings, m, d);
        let mid = inputs_step(db, BlockAction::Connect, height, t, rings, m, d)->Ok_0;
        lemma_reversible_input(db, height, t, rings, n - 1, mid);
    }
}

proof fn lemma_reversible_outputs(db: store::Db, t: tx::TxView, n: nat, d: DeltaView)
    requires
        reversible(d, db),
        !tx::coinbase(t),
        records_new(db, t),
        n <= t.outputs.len(),
        outputs_step(db, BlockAction::Connect, t, n, d) is Ok,
    ensures
        reversible(outputs_step(db, BlockAction::Connect, t, n, d)->Ok_0, db),
    decreases n,
{
    if n > 0 {
        let m = (n - 1) as nat;
        lemma_reversible_outputs(db, t, m, d);
        let mid = outputs_step(db, BlockAction::Connect, t, m, d)->Ok_0;
        lemma_reversible_output(db, t, n - 1, mid);
    }
}

proof fn lemma_reversible_txs(
    db: store::Db,
    height: usize,
    txs: Seq<tx::TxView>,
    proofs: Seq<TxProofs>,
    n: nat,
    d: DeltaView,
)
    requires
        reversible(d, db),
        n <= txs.len(),
        forall|i: int| 0 <= i < txs.len() ==> records_new(db, #[trigger] txs[i]),
        txs_step(db, BlockAction::Connect, height, txs, proofs, n, d) is Ok,
    ensures
        reversible(txs_step(db, BlockAction::Connect, height, txs, proofs, n, d)->Ok_0, db),
    decreases n,
{
    if n > 0 {
        let m = (n - 1) as nat;
        lemma_reversible_txs(db, height, txs, proofs, m, d);
        let mid = txs_step(db, BlockAction::Connect, height, txs, proofs, m, d)->Ok_0;
        let t = txs[n - 1];
        let rings = rings_of(proofs, n - 1);
        assert(records_new(db, t));
        if tx::coinbase(t) {
            lemma_reversible_push(
                mid,
                create(mid, Cf::Coinbase, tx::txid_of(t), keys::height_bytes(height)),
                db,
                store::put(Cf::Coinbase, tx::txid_of(t), keys::height_bytes(height)),
                store::del(Cf::Coinbase, tx::txid_of(t)),
            );
        } else {
            lemma_reversible_inputs(db, height, t, rings, t.inputs.len(), mid);
            let spent = inputs_step(
                db,
                BlockAction::Connect,
                height,
                t,
                rings,
                t.inputs.len(),
                mid,
            )->Ok_0;
            lemma_reversible_outputs(db, t, t.outputs.len(), spent);
        }
    }
}

/// A block that was connected can be taken back: where what it records is not
/// there yet, making the writes that take it back, the last first, gives every
/// record of outputs, key images, coinbases and the index its value back.
pub proof fn law_connect_rolls_back(
    db: store::Db,
    height: usize,
    b: tx::BlockView,
    proofs: Seq<TxProofs>,
    set_hash: Seq<u8>,
    supply: u64,
    cf: Cf,
    key: Seq<u8>,
)
    requires
        forall|i: int| 0 <= i < b.txs.len() ==> records_new(db, #[trigger] b.txs[i]),
        block_step(
            db,
            BlockAction::Connect,
            height,
            b,
            proofs,
            no_change(set_hash, supply),
        ) is Ok,
        cf != Cf::Default,
    ensures
        ({
            let d = block_step(
                db,
                BlockAction::Connect,
                height,
                b,
                proofs,
                no_change(set_hash, supply),
            )->Ok_0;
            store::read(
                store::write_all(store::write_all(db, d.ops), store::reversed(d.undo)),
                cf,
                key,
            ) == store::read(db, cf, key)
        }),
{
    let start = no_change(set_hash, supply);
    assert(reversible(start, db));
    lemma_reversible_txs(db, height, b.txs, proofs, b.txs.len(), start);
    let d = txs_step(db, BlockAction::Connect, height, b.txs, proofs, b.txs.len(), start)->Ok_0;
    let e = record_totals(d);
    let first = store::put(Cf::Default, keys::set_hash_key(), d.set_hash);
    let second = store::put(
        Cf::Default,
        keys::supply_key(),
        bytes::be_bytes(d.supply as nat, 8),
    );
    lemma_touch_push(d.ops, first, cf, key);
    lemma_touch_push(d.ops.push(first), second, cf, key);
    store::lemma_rollback_at(db, e.ops, e.undo, cf, key);
}

// ---------------------------------------------------------------------------
// The supply
// ---------------------------------------------------------------------------

/// What a transaction takes out of the set of unspent outputs.
pub open spec fn spent(db: store::Db, t: tx::TxView) -> nat {
    if tx::coinbase(t) {
        0
    } else {
        tx::sum(validate::stored_values(db, t.is_anonymous, t.inputs))
    }
}

/// What a transaction puts into the set of unspent outputs.
pub open spec fn made(t: tx::TxView) -> nat {
    if tx::coinbase(t) {
        0
    } else {
        tx::sum(tx::values(t.outputs))
    }
}

/// What the first `n` transactions take out.
pub open spec fn all_spent(db: store::Db, txs: Seq<tx::TxView>, n: nat) -> nat
    decreases n,
{
    if n == 0 {
        0
    } else {
        all_spent(db, txs, (n - 1) as nat) + spent(db, txs[n - 1])
    }
}

/// What the first `n` transactions put in.
pub open spec fn all_made(txs: Seq<tx::TxView>, n: nat) -> nat
    decreases n,
{
    if n == 0 {
        0
    } else {
        all_made(txs, (n - 1) as nat) + made(txs[n - 1])
    }
}

proof fn lemma_supply_inputs(
    db: store::Db,
    action: BlockAction,
    height: usize,
    t: tx::TxView,
    rings: Seq<RingProof>,
    n: nat,
    d: DeltaView,
)
    requires
        n <= t.inputs.len(),
        inputs_step(db, action, height, t, rings, n, d) is Ok,
    ensures
        ({
            let e = inputs_step(db, action, height, t, rings, n, d)->Ok_0;
            let s = tx::sum(validate::stored_values(db, t.is_anonymous, t.inputs).take(n as int));
            &&& action is Connect ==> e.supply + s == d.supply
            &&& action is Disconnect ==> e.supply == d.supply + s
        }),
    decreases n,
{
    let all = validate::stored_values(db, t.is_anonymous, t.inputs);
    if n == 0 {
        assert(all.take(0) =~= Seq::<u64>::empty());
    } else {
        lemma_supply_inputs(db, action, height, t, rings, (n - 1) as nat, d);
        assert(all.take(n as int).drop_last() =~= all.take(n - 1));
        assert(all.take(n as int).last() == all[n - 1]);
    }
}

/// The amounts of the outputs in the order in which they are handled.
pub open spec fn handled_values(t: tx::TxView, action: BlockAction) -> Seq<u64> {
    Seq::new(t.outputs.len(), |i: int| handled(t, action, i).value)
}

proof fn lemma_sum_first(x: u64, s: Seq<u64>)
    ensures
        tx::sum(seq![x] + s) == x + tx::sum(s),
    decreases s.len(),
{
    let all = seq![x] + s;
    if s.len() == 0 {
        assert(all.drop_last() =~= s);
    } else {
        lemma_sum_first(x, s.drop_last());
        assert(all.drop_last() =~= seq![x] + s.drop_last());
    }
}

proof fn lemma_sum_reversed(s: Seq<u64>)
    ensures
        tx::sum(s.reverse()) == tx::sum(s),
    decreases s.len(),
{
    if s.len() == 0 {
        assert(s.reverse() =~= s);
    } else {
        lemma_sum_reversed(s.drop_last());
        lemma_sum_first(s.last(), s.drop_last().reverse());
        assert(s.reverse() =~= seq![s.last()] + s.drop_last().reverse());
    }
}

/// The order in which outputs are handled does not change what they come to.
proof fn lemma_handled_sum(t: tx::TxView, action: BlockAction)
    ensures
        tx::sum(handled_values(t, action)) == tx::sum(tx::values(t.outputs)),
{
    let all = tx::values(t.outputs);
    match action {
        BlockAction::Connect => {
            assert(handled_values(t, action) =~= all);
        },
        BlockAction::Disconnect => {
            assert(handled_values(t, action) =~= all.reverse());
            lemma_sum_reversed(all);
        },
    }
}

proof fn lemma_supply_outputs(
    db: store::Db,
    action: BlockAction,
    t: tx::TxView,
    n: nat,
    d: DeltaView,
)
    requires
        n <= t.outputs.len(),
        outputs_step(db, action, t, n, d) is Ok,
    ensures
        ({
            let e = outputs_step(db, action, t, n, d)->Ok_0;
            let s = tx::sum(handled_values(t, action).take(n as int));
            &&& action is Connect ==> e.supply == d.supply + s
            &&& action is Disconnect ==> e.supply + s == d.supply
        }),
    decreases n,
{
    let all = handled_values(t, action);
    if n == 0 {
        assert(all.take(0) =~= Seq::<u64>::empty());
    } else {
        lemma_supply_outputs(db, action, t, (n - 1) as nat, d);
        assert(all.take(n as int).drop_last() =~= all.take(n - 1));
        assert(all.take(n as int).last() == all[n - 1]);
    }
}

/// Money is accounted for: what transactions leave as the sum of the unspent
/// outputs is the sum before, without what connecting them spent, with what it
/// made; disconnecting is the other way round. Coinbases do not count.
pub proof fn law_supply_balances(
    db: store::Db,
    action: BlockAction,
    height: usize,
    txs: Seq<tx::TxView>,
    proofs: Seq<TxProofs>,
    n: nat,
    d: DeltaView,
)
    requires
        n <= txs.len(),
        txs_step(db, action, height, txs, proofs, n, d) is Ok,
    ensures
        ({
            let e = txs_step(db, action, height, txs, proofs, n, d)->Ok_0;
            &&& action is Connect ==> e.supply + all_spent(db, txs, n) == d.supply + all_made(
                txs,
                n,
            )
            &&& action is Disconnect ==> e.supply + all_made(txs, n) == d.supply + all_spent(
                db,
                txs,
                n,
            )
        }),
    decreases n,
{
    if n > 0 {
        let m = (n - 1) as nat;
        law_supply_balances(db, action, height, txs, proofs, m, d);
        let mid = txs_step(db, action, height, txs, proofs, m, d)->Ok_0;
        let t = txs[n - 1];
        let rings = rings_of(proofs, n - 1);
        if !tx::coinbase(t) {
            let ins = t.inputs.len();
            lemma_supply_inputs(db, action, height, t, rings, ins, mid);
            let e = inputs_step(db, action, height, t, rings, ins, mid)->Ok_0;
            lemma_supply_outputs(db, action, t, t.outputs.len(), e);
            lemma_handled_sum(t, action);
            let values = validate::stored_values(db, t.is_anonymous, t.inputs);
            assert(values.take(ins as int) =~= values);
            let outs = handled_values(t, action);
            assert(outs.take(t.outputs.len() as int) =~= outs);
        }
    }
}

// ---------------------------------------------------------------------------
// Connecting and disconnecting
// ---------------------------------------------------------------------------

/// The hashes of the outputs that the first `n` inputs name.
pub open spec fn spent_hashes(db: store::Db, t: tx::TxView, n: nat) -> Seq<Seq<u8>> {
    Seq::new(
        n,
        |i: int|
            entry_hash(
                t.inputs[i].txid@,
                t.inputs[i].vout,
                validate::stored_output(db, t.is_anonymous, t.inputs[i])->0,
            ),
    )
}

/// The hashes of the outputs handled at the first `n` positions.
pub open spec fn made_hashes(t: tx::TxView, action: BlockAction, n: nat) -> Seq<Seq<u8>> {
    Seq::new(n, |i: int| entry_hash(tx::txid_of(t), position(i), handled(t, action, i)))
}

/// The hashes that the first `n` transactions combine into the one of the
/// unspent outputs.
pub open spec fn all_hashes(
    db: store::Db,
    action: BlockAction,
    txs: Seq<tx::TxView>,
    n: nat,
) -> Seq<Seq<u8>>
    decreases n,
{
    if n == 0 {
        Seq::empty()
    } else {
        let t = txs[n - 1];
        let before = all_hashes(db, action, txs, (n - 1) as nat);
        if tx::coinbase(t) {
            before
        } else {
            before + spent_hashes(db, t, t.inputs.len()) + made_hashes(t, action, t.outputs.len())
        }
    }
}

proof fn lemma_xor_all_append(a: Seq<u8>, p: Seq<Seq<u8>>, q: Seq<Seq<u8>>)
    ensures
        xor_all(a, p + q) == xor_all(xor_all(a, p), q),
    decreases q.len(),
{
    if q.len() == 0 {
        assert(p + q =~= p);
    } else {
        assert((p + q).drop_last() =~= p + q.drop_last());
        lemma_xor_all_append(a, p, q.drop_last());
    }
}

proof fn lemma_hash_inputs(
    db: store::Db,
    action: BlockAction,
    height: usize,
    t: tx::TxView,
    rings: Seq<RingProof>,
    n: nat,
    d: DeltaView,
)
    requires
        n <= t.inputs.len(),
        inputs_step(db, action, height, t, rings, n, d) is Ok,
    ensures
        inputs_step(db, action, height, t, rings, n, d)->Ok_0.set_hash == xor_all(
            d.set_hash,
            spent_hashes(db, t, n),
        ),
    decreases n,
{
    let hs = spent_hashes(db, t, n);
    if n > 0 {
        lemma_hash_inputs(db, action, height, t, rings, (n - 1) as nat, d);
        assert(hs.drop_last() =~= spent_hashes(db, t, (n - 1) as nat));
    }
}

proof fn lemma_hash_outputs(db: store::Db, action: BlockAction, t: tx::TxView, n: nat, d: DeltaView)
    requires
        n <= t.outputs.len(),
        outputs_step(db, action, t, n, d) is Ok,
    ensures
        outputs_step(db, action, t, n, d)->Ok_0.set_hash == xor_all(
            d.set_hash,
            made_hashes(t, action, n),
        ),
    decreases n,
{
    let hs = made_hashes(t, action, n);
    if n > 0 {
        lemma_hash_outputs(db, action, t, (n - 1) as nat, d);
        assert(hs.drop_last() =~= made_hashes(t, action, (n - 1) as nat));
    }
}

proof fn lemma_hash_txs(
    db: store::Db,
    action: BlockAction,
    height: usize,
    txs: Seq<tx::TxView>,
    proofs: Seq<TxProofs>,
    n: nat,
    d: DeltaView,
)
    requires
        n <= txs.len(),
        txs_step(db, action, height, txs, proofs, n, d) is Ok,
    ensures
        txs_step(db, action, height, txs, proofs, n, d)->Ok_0.set_hash == xor_all(
            d.set_hash,
            all_hashes(db, action, txs, n),
        ),
    decreases n,
{
    if n > 0 {
        let m = (n - 1) as nat;
        lemma_hash_txs(db, action, height, txs, proofs, m, d);
        let t = txs[n - 1];
        let rings = rings_of(proofs, n - 1);
        if !tx::coinbase(t) {
            let mid = txs_step(db, action, height, txs, proofs, m, d)->Ok_0;
            let ins = t.inputs.len();
            let e = inputs_step(db, action, height, t, rings, ins, mid)->Ok_0;
            lemma_hash_inputs(db, action, height, t, rings, ins, mid);
            lemma_hash_outputs(db, action, t, t.outputs.len(), e);
            let before = all_hashes(db, action, txs, m);
            let spent = spent_hashes(db, t, ins);
            lemma_xor_all_append(d.set_hash, before, spent);
            lemma_xor_all_append(
                d.set_hash,
                before + spent,
                made_hashes(t, action, t.outputs.len()),
            );
        }
    }
}

/// Whether the outputs read the same backwards.
pub open spec fn mirrored(t: tx::TxView) -> bool {
    forall|i: int|
        0 <= i < t.outputs.len() ==> #[trigger] handled(t, BlockAction::Connect, i) == handled(
            t,
            BlockAction::Disconnect,
            i,
        )
}

/// Whether the outputs that transactions name read the same in two databases.
pub open spec fn same_spent(before: store::Db, after: store::Db, txs: Seq<tx::TxView>) -> bool {
    forall|i: int, j: int|
        0 <= i < txs.len() && 0 <= j < txs[i].inputs.len() ==> validate::stored_output(
            before,
            txs[i].is_anonymous,
            #[trigger] txs[i].inputs[j],
        ) == validate::stored_output(after, txs[i].is_anonymous, txs[i].inputs[j])
}

proof fn lemma_same_spent(before: store::Db, after: store::Db, txs: Seq<tx::TxView>, n: nat)
    requires
        n <= txs.len(),
        same_spent(before, after, txs),
    ensures
        all_spent(before, txs, n) == all_spent(after, txs, n),
        (forall|i: int| 0 <= i < txs.len() ==> mirrored(#[trigger] txs[i])) ==> all_hashes(
            before,
            BlockAction::Connect,
            txs,
            n,
        ) == all_hashes(after, BlockAction::Disconnect, txs, n),
    decreases n,
{
    if n > 0 {
        lemma_same_spent(before, after, txs, (n - 1) as nat);
        let t = txs[n - 1];
        assert forall|j: int| 0 <= j < t.inputs.len() implies validate::stored_output(
            before,
            t.is_anonymous,
            #[trigger] t.inputs[j],
        ) == validate::stored_output(after, t.is_anonymous, t.inputs[j]) by {
            assert(txs[n - 1].inputs[j] == t.inputs[j]);
        }
        assert(validate::stored_values(before, t.is_anonymous, t.inputs)
            =~= validate::stored_values(after, t.is_anonymous, t.inputs));
        let ins = t.inputs.len();
        let outs = t.outputs.len();
        assert(spent_hashes(before, t, ins) =~= spent_hashes(after, t, ins));
        if mirrored(t) {
            assert(made_hashes(t, BlockAction::Connect, outs) =~= made_hashes(
                t,
                BlockAction::Disconnect,
                outs,
            ));
        }
    }
}

/// Disconnecting a block undoes connecting it: where the outputs that it spent
/// are there again, the sum of the unspent outputs is back at what it was; and
/// so is their hash, where the outputs of every transaction read the same
/// backwards. (With others the hashes do not match: disconnecting pairs the
/// positions with the outputs in the opposite order.)
pub proof fn law_disconnect_undoes_connect(
    before: store::Db,
    after: store::Db,
    height: usize,
    txs: Seq<tx::TxView>,
    proofs: Seq<TxProofs>,
    d: DeltaView,
    e: DeltaView,
)
    requires
        d.set_hash.len() == 32,
        ({
            let c = txs_step(
                before,
                BlockAction::Connect,
                height,
                txs,
                proofs,
                txs.len(),
                d,
            );
            c is Ok && e.set_hash == c->Ok_0.set_hash && e.supply == c->Ok_0.supply
        }),
        same_spent(before, after, txs),
        txs_step(after, BlockAction::Disconnect, height, txs, proofs, txs.len(), e) is Ok,
    ensures
        ({
            let r = txs_step(
                after,
                BlockAction::Disconnect,
                height,
                txs,
                proofs,
                txs.len(),
                e,
            )->Ok_0;
            &&& r.supply == d.supply
            &&& (forall|i: int| 0 <= i < txs.len() ==> mirrored(#[trigger] txs[i])) ==> r.set_hash
                == d.set_hash
        }),
{
    let n = txs.len();
    law_supply_balances(before, BlockAction::Connect, height, txs, proofs, n, d);
    law_supply_balances(after, BlockAction::Disconnect, height, txs, proofs, n, e);
    lemma_hash_txs(before, BlockAction::Connect, height, txs, proofs, n, d);
    lemma_hash_txs(after, BlockAction::Disconnect, height, txs, proofs, n, e);
    lemma_same_spent(before, after, txs, n);
    law_xor_all_undoes(d.set_hash, all_hashes(before, BlockAction::Connect, txs, n));
}

// ---------------------------------------------------------------------------
// What is stored afterwards
// ---------------------------------------------------------------------------

/// What a key holds after the writes of a step.
pub open spec fn held(db: store::Db, d: DeltaView, cf: Cf, key: Seq<u8>) -> Option<Seq<u8>> {
    store::read(store::write_all(db, d.ops), cf, key)
}

proof fn lemma_held_push(
    db: store::Db,
    ops: Seq<store::OpView>,
    op: store::OpView,
    cf: Cf,
    key: Seq<u8>,
)
    ensures
        store::read(store::write_all(db, ops.push(op)), cf, key) == if op.cf == cf && op.key
            == key {
            op.value
        } else {
            store::read(store::write_all(db, ops), cf, key)
        },
{
    assert(ops.push(op).drop_last() =~= ops);
}

proof fn lemma_held_input(
    db: store::Db,
    action: BlockAction,
    height: usize,
    t: tx::TxView,
    rings: Seq<RingProof>,
    i: int,
    d: DeltaView,
    cf: Cf,
    key: Seq<u8>,
)
    requires
        input_step(db, action, height, t, rings, i, d) is Ok,
    ensures
        ({
            let e = input_step(db, action, height, t, rings, i, d)->Ok_0;
            let vin = t.inputs[i];
            let spends = cf == validate::family(t.is_anonymous) && key == keys::outpoint_key(
                t.is_anonymous,
                vin.txid@,
                vin.vout,
            );
            let images = t.is_anonymous && cf == Cf::KeyImages && key == anon::key_image(vin);
            &&& spends ==> held(db, e, cf, key) == match action {
                BlockAction::Connect => None,
                BlockAction::Disconnect => store::read(db, cf, key),
            }
            &&& images ==> held(db, e, cf, key) == match action {
                BlockAction::Connect => Some(keys::height_bytes(height)),
                BlockAction::Disconnect => None,
            }
            &&& !spends && !images ==> held(db, e, cf, key) == held(db, d, cf, key)
        }),
{
    let vin = t.inputs[i];
    let image = anon::key_image(vin);
    let fam = validate::family(t.is_anonymous);
    let at = keys::outpoint_key(t.is_anonymous, vin.txid@, vin.vout);
    let prev = store::read(db, fam, at)->0;
    let mid = if t.is_anonymous {
        mark(d, db, action, Cf::KeyImages, image, keys::height_bytes(height))
    } else {
        d
    };
    match action {
        BlockAction::Connect => {
            lemma_held_push(
                db,
                d.ops,
                store::put(Cf::KeyImages, image, keys::height_bytes(height)),
                cf,
                key,
            );
            lemma_held_push(db, mid.ops, store::del(fam, at), cf, key);
        },
        BlockAction::Disconnect => {
            lemma_held_push(db, d.ops, store::del(Cf::KeyImages, image), cf, key);
            lemma_held_push(db, mid.ops, store::put(fam, at, prev), cf, key);
        },
    }
}

/// Whether one of the first `n` inputs names the output at a key.
pub open spec fn spends_at(t: tx::TxView, n: nat, cf: Cf, key: Seq<u8>) -> bool {
    cf == validate::family(t.is_anonymous) && exists|i: int|
        0 <= i < n && key == keys::outpoint_key(
            t.is_anonymous,
            (#[trigger] t.inputs[i]).txid@,
            t.inputs[i].vout,
        )
}

/// Whether one of the first `n` inputs has its key image at a key.
pub open spec fn images_at(t: tx::TxView, n: nat, cf: Cf, key: Seq<u8>) -> bool {
    t.is_anonymous && cf == Cf::KeyImages && exists|i: int|
        0 <= i < n && key == anon::key_image(#[trigger] t.inputs[i])
}

/// Whether one of the outputs handled at the first `n` positions has its
/// record, or its entry in the index by scripts, at a key.
pub open spec fn makes_at(
    t: tx::TxView,
    action: BlockAction,
    n: nat,
    cf: Cf,
    key: Seq<u8>,
) -> bool {
    exists|i: int| 0 <= i < n && #[trigger] made_at(t, action, i, cf, key)
}

/// Whether the output handled at a position has its record, or its entry in
/// the index by scripts, at a key.
pub open spec fn made_at(t: tx::TxView, action: BlockAction, i: int, cf: Cf, key: Seq<u8>) -> bool {
    ||| cf == validate::family(t.is_anonymous) && key == keys::outpoint_key(
        t.is_anonymous,
        tx::txid_of(t),
        position(i),
    )
    ||| !t.is_anonymous && cf == Cf::AddrIndex && key == keys::addr_key(
        hash::hash160_of(handled(t, action, i).script_pubkey),
        tx::txid_of(t),
        position(i),
    )
}

/// Whether a transaction writes a key.
pub open spec fn writes_at(t: tx::TxView, action: BlockAction, cf: Cf, key: Seq<u8>) -> bool {
    if tx::coinbase(t) {
        cf == Cf::Coinbase && key == tx::txid_of(t)
    } else {
        ||| spends_at(t, t.inputs.len(), cf, key)
        ||| images_at(t, t.inputs.len(), cf, key)
        ||| makes_at(t, action, t.outputs.len(), cf, key)
    }
}

proof fn lemma_held_inputs(
    db: store::Db,
    action: BlockAction,
    height: usize,
    t: tx::TxView,
    rings: Seq<RingProof>,
    n: nat,
    d: DeltaView,
    cf: Cf,
    key: Seq<u8>,
)
    requires
        inputs_step(db, action, height, t, rings, n, d) is Ok,
    ensures
        ({
            let e = inputs_step(db, action, height, t, rings, n, d)->Ok_0;
            &&& spends_at(t, n, cf, key) ==> held(db, e, cf, key) == match action {
                BlockAction::Connect => None,
                BlockAction::Disconnect => store::read(db, cf, key),
            }
            &&& images_at(t, n, cf, key) ==> held(db, e, cf, key) == match action {
                BlockAction::Connect => Some(keys::height_bytes(height)),
                BlockAction::Disconnect => None,
            }
            &&& !spends_at(t, n, cf, key) && !images_at(t, n, cf, key) ==> held(db, e, cf, key)
                == held(db, d, cf, key)
        }),
    decreases n,
{
    if n > 0 {
        let m = (n - 1) as nat;
        lemma_held_inputs(db, action, height, t, rings, m, d, cf, key);
        let mid = inputs_step(db, action, height, t, rings, m, d)->Ok_0;
        lemma_held_input(db, action, height, t, rings, n - 1, mid, cf, key);
        let vin = t.inputs[n - 1];
        let at = keys::outpoint_key(t.is_anonymous, vin.txid@, vin.vout);
        if spends_at(t, n, cf, key) && key != at {
            assert(spends_at(t, m, cf, key));
        }
        if images_at(t, n, cf, key) && key != anon::key_image(vin) {
            assert(images_at(t, m, cf, key));
        }
    }
}

proof fn lemma_held_output(
    db: store::Db,
    action: BlockAction,
    t: tx::TxView,
    i: int,
    d: DeltaView,
    cf: Cf,
    key: Seq<u8>,
)
    requires
        output_step(db, action, t, i, d) is Ok,
    ensures
        ({
            let e = output_step(db, action, t, i, d)->Ok_0;
            let o = handled(t, action, i);
            &&& made_at(t, action, i, cf, key) ==> held(db, e, cf, key) == match action {
                BlockAction::Connect => Some(
                    if cf == Cf::AddrIndex {
                        bytes::be_bytes(o.value as nat, 8)
                    } else {
                        codec::enc_output(o)
                    },
                ),
                BlockAction::Disconnect => None,
            }
            &&& !made_at(t, action, i, cf, key) ==> held(db, e, cf, key) == held(db, d, cf, key)
        }),
{
    let o = handled(t, action, i);
    let txid = tx::txid_of(t);
    let vout = position(i);
    let fam = validate::family(t.is_anonymous);
    let at = keys::outpoint_key(t.is_anonymous, txid, vout);
    let addr = keys::addr_key(hash::hash160_of(o.script_pubkey), txid, vout);
    let counted = count(d, entry_hash(txid, vout, o), o.value, action is Connect)->Ok_0;
    let mid = mark(counted, db, action, fam, at, codec::enc_output(o));
    match action {
        BlockAction::Connect => {
            lemma_held_push(db, d.ops, store::put(fam, at, codec::enc_output(o)), cf, key);
            lemma_held_push(
                db,
                mid.ops,
                store::put(Cf::AddrIndex, addr, bytes::be_bytes(o.value as nat, 8)),
                cf,
                key,
            );
        },
        BlockAction::Disconnect => {
            lemma_held_push(db, d.ops, store::del(fam, at), cf, key);
            lemma_held_push(db, mid.ops, store::del(Cf::AddrIndex, addr), cf, key);
        },
    }
}

/// Two outputs of a transaction do not share a key.
proof fn lemma_made_once(t: tx::TxView, action: BlockAction, i: int, j: int, cf: Cf, key: Seq<u8>)
    requires
        0 <= i < 0x1_0000_0000,
        0 <= j < 0x1_0000_0000,
        made_at(t, action, i, cf, key),
        made_at(t, action, j, cf, key),
    ensures
        i == j,
{
    bytes::lemma_be_bytes_len(position(i) as nat, 4);
    bytes::lemma_be_bytes_len(position(j) as nat, 4);
    let n = key.len() as int;
    assert(key.subrange(n - 4, n) =~= bytes::be_bytes(position(i) as nat, 4));
    assert(key.subrange(n - 4, n) =~= bytes::be_bytes(position(j) as nat, 4));
    bytes::lemma_pow256_values();
    bytes::lemma_be_injective(position(i) as nat, position(j) as nat, 4);
}

proof fn lemma_held_outputs(
    db: store::Db,
    action: BlockAction,
    t: tx::TxView,
    n: nat,
    d: DeltaView,
    cf: Cf,
    key: Seq<u8>,
)
    requires
        n <= t.outputs.len(),
        outputs_step(db, action, t, n, d) is Ok,
    ensures
        ({
            let e = outputs_step(db, action, t, n, d)->Ok_0;
            &&& forall|i: int|
                0 <= i < n && n <= 0x1_0000_0000 && #[trigger] made_at(t, action, i, cf, key)
                    ==> held(db, e, cf, key) == match action {
                    BlockAction::Connect => Some(
                        if cf == Cf::AddrIndex {
                            bytes::be_bytes(handled(t, action, i).value as nat, 8)
                        } else {
                            codec::enc_output(handled(t, action, i))
                        },
                    ),
                    BlockAction::Disconnect => None,
                }
            &&& !makes_at(t, action, n, cf, key) ==> held(db, e, cf, key) == held(db, d, cf, key)
        }),
    decreases n,
{
    if n > 0 {
        let m = (n - 1) as nat;
        lemma_held_outputs(db, action, t, m, d, cf, key);
        let mid = outputs_step(db, action, t, m, d)->Ok_0;
        lemma_held_output(db, action, t, n - 1, mid, cf, key);
        let e = outputs_step(db, action, t, n, d)->Ok_0;
        assert forall|i: int|
            0 <= i < n && n <= 0x1_0000_0000 && #[trigger] made_at(
                t,
                action,
                i,
                cf,
                key,
            ) implies held(db, e, cf, key) == match action {
            BlockAction::Connect => Some(
                if cf == Cf::AddrIndex {
                    bytes::be_bytes(handled(t, action, i).value as nat, 8)
                } else {
                    codec::enc_output(handled(t, action, i))
                },
            ),
            BlockAction::Disconnect => None,
        } by {
            if i < n - 1 && made_at(t, action, n - 1, cf, key) {
                lemma_made_once(t, action, i, n - 1, cf, key);
            }
        }
        if !makes_at(t, action, n, cf, key) {
            assert(!made_at(t, action, n - 1, cf, key));
            assert(!makes_at(t, action, m, cf, key)) by {
                if makes_at(t, action, m, cf, key) {
                    let i = choose|i: int| 0 <= i < m && #[trigger] made_at(t, action, i, cf, key);
                    assert(0 <= i < n && made_at(t, action, i, cf, key));
                }
            }
        }
    }
}

proof fn lemma_held_tx(
    db: store::Db,
    action: BlockAction,
    height: usize,
    t: tx::TxView,
    rings: Seq<RingProof>,
    d: DeltaView,
    cf: Cf,
    key: Seq<u8>,
)
    requires
        tx_step(db, action, height, t, rings, d) is Ok,
        !writes_at(t, action, cf, key),
    ensures
        held(db, tx_step(db, action, height, t, rings, d)->Ok_0, cf, key) == held(db, d, cf, key),
{
    if tx::coinbase(t) {
        let txid = tx::txid_of(t);
        lemma_held_push(
            db,
            d.ops,
            store::put(Cf::Coinbase, txid, keys::height_bytes(height)),
            cf,
            key,
        );
        lemma_held_push(db, d.ops, store::del(Cf::Coinbase, txid), cf, key);
    } else {
        let e = inputs_step(db, action, height, t, rings, t.inputs.len(), d)->Ok_0;
        lemma_held_inputs(db, action, height, t, rings, t.inputs.len(), d, cf, key);
        lemma_held_outputs(db, action, t, t.outputs.len(), e, cf, key);
    }
}

/// What transactions after the first `m` do not write stays as these left it.
proof fn lemma_held_later(
    db: store::Db,
    action: BlockAction,
    height: usize,
    txs: Seq<tx::TxView>,
    proofs: Seq<TxProofs>,
    m: nat,
    n: nat,
    d: DeltaView,
    cf: Cf,
    key: Seq<u8>,
)
    requires
        m <= n <= txs.len(),
        txs_step(db, action, height, txs, proofs, n, d) is Ok,
        forall|j: int| m <= j < n ==> !writes_at(#[trigger] txs[j], action, cf, key),
    ensures
        txs_step(db, action, height, txs, proofs, m, d) is Ok,
        held(db, txs_step(db, action, height, txs, proofs, n, d)->Ok_0, cf, key) == held(
            db,
            txs_step(db, action, height, txs, proofs, m, d)->Ok_0,
            cf,
            key,
        ),
    decreases n,
{
    if m < n {
        let l = (n - 1) as nat;
        lemma_held_later(db, action, height, txs, proofs, m, l, d, cf, key);
        let mid = txs_step(db, action, height, txs, proofs, l, d)->Ok_0;
        assert(!writes_at(txs[n - 1], action, cf, key));
        lemma_held_tx(db, action, height, txs[n - 1], rings_of(proofs, n - 1), mid, cf, key);
    }
}

/// Recording the totals leaves the records of outputs, key images, coinbases
/// and the index as they are.
proof fn lemma_held_totals(db: store::Db, d: DeltaView, cf: Cf, key: Seq<u8>)
    ensures
        cf != Cf::Default ==> held(db, record_totals(d), cf, key) == held(db, d, cf, key),
        held(db, record_totals(d), Cf::Default, keys::set_hash_key()) == Some(d.set_hash),
        held(db, record_totals(d), Cf::Default, keys::supply_key()) == Some(
            bytes::be_bytes(d.supply as nat, 8),
        ),
{
    let first = store::put(Cf::Default, keys::set_hash_key(), d.set_hash);
    let second = store::put(
        Cf::Default,
        keys::supply_key(),
        bytes::be_bytes(d.supply as nat, 8),
    );
    let k = keys::set_hash_key();
    let l = keys::supply_key();
    assert(k.len() != l.len());
    lemma_held_push(db, d.ops, first, cf, key);
    lemma_held_push(db, d.ops.push(first), second, cf, key);
    lemma_held_push(db, d.ops, first, Cf::Default, k);
    lemma_held_push(db, d.ops.push(first), second, Cf::Default, k);
    lemma_held_push(db, d.ops.push(first), second, Cf::Default, l);
}

/// After the writes of connecting a block, every output of a transaction that
/// is no coinbase reads back from its place as just that output, and its
/// amount from the index under its script where the transaction is
/// transparent; unless a later transaction of the block spends it, or has the
/// same identifier. After those of disconnecting the block nothing is stored at
/// that place.
pub proof fn law_outputs_are_stored(
    db: store::Db,
    action: BlockAction,
    height: usize,
    b: tx::BlockView,
    proofs: Seq<TxProofs>,
    d: DeltaView,
    k: int,
    i: int,
)
    requires
        block_step(db, action, height, b, proofs, d) is Ok,
        0 <= k < b.txs.len(),
        !tx::coinbase(b.txs[k]),
        0 <= i < b.txs[k].outputs.len() <= 0x1_0000_0000,
        codec::enc_output(b.txs[k].outputs[i]).len() < bytes::pow256(8),
        forall|j: int|
            k < j < b.txs.len() && !tx::coinbase(b.txs[j]) ==> tx::txid_of(#[trigger] b.txs[j])
                != tx::txid_of(b.txs[k]),
        forall|j: int, m: int|
            k < j < b.txs.len() && !tx::coinbase(b.txs[j]) && 0 <= m < b.txs[j].inputs.len()
                && b.txs[j].is_anonymous == b.txs[k].is_anonymous ==> (
            #[trigger] b.txs[j].inputs[m]).txid@ != tx::txid_of(b.txs[k])
                || b.txs[j].inputs[m].vout != i,
    ensures
        ({
            let e = block_step(db, action, height, b, proofs, d)->Ok_0;
            let after = store::write_all(db, e.ops);
            let t = b.txs[k];
            let txid = tx::txid_of(t);
            let o = t.outputs[i];
            let cf = if t.is_anonymous {
                Cf::Anonymous
            } else {
                Cf::Utxo
            };
            let rec = store::read(after, cf, keys::outpoint_key(t.is_anonymous, txid, i as u32));
            let entry = store::read(
                after,
                Cf::AddrIndex,
                keys::addr_key(hash::hash160_of(o.script_pubkey), txid, i as u32),
            );
            &&& action is Connect ==> rec is Some && codec::read_output(rec->0) == Some(o)
            &&& action is Disconnect ==> rec is None
            &&& action is Connect && !t.is_anonymous && (forall|j: int|
                k <= j < b.txs.len() ==> tx::txid_of(#[trigger] b.txs[j]).len() == 32)
                ==> entry is Some && entry->0.len() == 8 && bytes::be_value(entry->0) == o.value
        }),
{
    let n = b.txs.len();
    let t = b.txs[k];
    let txid = tx::txid_of(t);
    let fam = validate::family(t.is_anonymous);
    let vout = i as u32;
    let at = keys::outpoint_key(t.is_anonymous, txid, vout);
    let addr = keys::addr_key(hash::hash160_of(t.outputs[i].script_pubkey), txid, vout);
    let all = txs_step(db, action, height, b.txs, proofs, n, d)->Ok_0;
    assert(position(i) == vout);
    assert forall|j: int| k + 1 <= j < n implies !writes_at(#[trigger] b.txs[j], action, fam, at)
        && (!t.is_anonymous && txid.len() == 32 && tx::txid_of(b.txs[j]).len() == 32
        ==> !writes_at(b.txs[j], action, Cf::AddrIndex, addr)) by {
        lemma_writes_other(b.txs, k, j, i, action);
    }
    lemma_held_later(db, action, height, b.txs, proofs, (k + 1) as nat, n, d, fam, at);
    lemma_held_totals(db, all, fam, at);
    let here = txs_step(db, action, height, b.txs, proofs, (k + 1) as nat, d)->Ok_0;
    let before = txs_step(db, action, height, b.txs, proofs, k as nat, d)->Ok_0;
    let rings = rings_of(proofs, k);
    let spent = inputs_step(db, action, height, t, rings, t.inputs.len(), before)->Ok_0;
    lemma_held_outputs(db, action, t, t.outputs.len(), spent, fam, at);
    assert(made_at(t, action, i, fam, at));
    codec::law_read_output(t.outputs[i], codec::enc_output(t.outputs[i]));
    if action is Connect && !t.is_anonymous && forall|j: int|
        k <= j < n ==> tx::txid_of(#[trigger] b.txs[j]).len() == 32 {
        assert(txid.len() == 32);
        lemma_held_later(
            db,
            action,
            height,
            b.txs,
            proofs,
            (k + 1) as nat,
            n,
            d,
            Cf::AddrIndex,
            addr,
        );
        lemma_held_totals(db, all, Cf::AddrIndex, addr);
        lemma_held_outputs(db, action, t, t.outputs.len(), spent, Cf::AddrIndex, addr);
        assert(made_at(t, action, i, Cf::AddrIndex, addr));
        bytes::lemma_be_bytes_len(t.outputs[i].value as nat, 8);
        bytes::lemma_pow256_values();
        bytes::lemma_be_read_write(t.outputs[i].value as nat, 8);
    }
}

/// A later transaction with another identifier that does not spend an output
/// writes neither its place nor its entry in the index.
proof fn lemma_writes_other(txs: Seq<tx::TxView>, k: int, j: int, i: int, action: BlockAction)
    requires
        0 <= k < j < txs.len(),
        0 <= i < 0x1_0000_0000,
        !tx::coinbase(txs[j]) ==> tx::txid_of(txs[j]) != tx::txid_of(txs[k]),
        forall|m: int|
            !tx::coinbase(txs[j]) && 0 <= m < txs[j].inputs.len() && txs[j].is_anonymous
                == txs[k].is_anonymous ==> (#[trigger] txs[j].inputs[m]).txid@ != tx::txid_of(
                txs[k],
            ) || txs[j].inputs[m].vout != i,
    ensures
        !writes_at(
            txs[j],
            action,
            validate::family(txs[k].is_anonymous),
            keys::outpoint_key(txs[k].is_anonymous, tx::txid_of(txs[k]), i as u32),
        ),
        !txs[k].is_anonymous && tx::txid_of(txs[k]).len() == 32 && tx::txid_of(txs[j]).len() == 32
            ==> !writes_at(
            txs[j],
            action,
            Cf::AddrIndex,
            keys::addr_key(
                hash::hash160_of(txs[k].outputs[i].script_pubkey),
                tx::txid_of(txs[k]),
                i as u32,
            ),
        ),
{
    let s = txs[j];
    let t = txs[k];
    let fam = validate::family(t.is_anonymous);
    let txid = tx::txid_of(t);
    let at = keys::outpoint_key(t.is_anonymous, txid, i as u32);
    let addr = keys::addr_key(hash::hash160_of(t.outputs[i].script_pubkey), txid, i as u32);
    if writes_at(s, action, fam, at) {
        if spends_at(s, s.inputs.len(), fam, at) {
            let m = choose|m: int|
                0 <= m < s.inputs.len() && at == keys::outpoint_key(
                    s.is_anonymous,
                    (#[trigger] s.inputs[m]).txid@,
                    s.inputs[m].vout,
                );
            keys::law_outpoint_key_injective(
                t.is_anonymous,
                txid,
                i as u32,
                s.is_anonymous,
                s.inputs[m].txid@,
                s.inputs[m].vout,
            );
            assert(txs[j].inputs[m].vout == i);
        } else {
            assert(makes_at(s, action, s.outputs.len(), fam, at));
            let m = choose|m: int|
                0 <= m < s.outputs.len() && #[trigger] made_at(s, action, m, fam, at);
            keys::law_outpoint_key_injective(
                t.is_anonymous,
                txid,
                i as u32,
                s.is_anonymous,
                tx::txid_of(s),
                position(m),
            );
        }
    }
    if writes_at(s, action, Cf::AddrIndex, addr) && txid.len() == 32 && tx::txid_of(s).len()
        == 32 {
        assert(makes_at(s, action, s.outputs.len(), Cf::AddrIndex, addr));
        let m = choose|m: int|
            0 <= m < s.outputs.len() && #[trigger] made_at(s, action, m, Cf::AddrIndex, addr);
        bytes::lemma_be_bytes_len(position(m) as nat, 4);
        bytes::lemma_be_bytes_len(i as nat, 4);
        let l = addr.len() as int;
        assert(addr.subrange(l - 36, l - 4) =~= txid);
        assert(addr.subrange(l - 36, l - 4) =~= tx::txid_of(s));
    }
}

/// After the writes of connecting a block, every output that an input of a
/// transaction names is gone, where no transaction from that one on has the
/// identifier that it names; after those of disconnecting the block it is
/// stored as it was read.
pub proof fn law_spent_outputs_are_gone(
    db: store::Db,
    action: BlockAction,
    height: usize,
    b: tx::BlockView,
    proofs: Seq<TxProofs>,
    d: DeltaView,
    k: int,
    i: int,
)
    requires
        block_step(db, action, height, b, proofs, d) is Ok,
        0 <= k < b.txs.len(),
        !tx::coinbase(b.txs[k]),
        0 <= i < b.txs[k].inputs.len(),
        forall|j: int|
            k <= j < b.txs.len() && !tx::coinbase(b.txs[j]) ==> tx::txid_of(#[trigger] b.txs[j])
                != b.txs[k].inputs[i].txid@,
    ensures
        ({
            let e = block_step(db, action, height, b, proofs, d)->Ok_0;
            let t = b.txs[k];
            let vin = t.inputs[i];
            let cf = if t.is_anonymous {
                Cf::Anonymous
            } else {
                Cf::Utxo
            };
            let key = keys::outpoint_key(t.is_anonymous, vin.txid@, vin.vout);
            &&& store::read(db, cf, key) is Some
            &&& action is Connect ==> store::read(store::write_all(db, e.ops), cf, key) is None
            &&& action is Disconnect ==> store::read(store::write_all(db, e.ops), cf, key)
                == store::read(db, cf, key)
        }),
{
    let n = b.txs.len();
    let t = b.txs[k];
    let vin = t.inputs[i];
    let fam = validate::family(t.is_anonymous);
    let key = keys::outpoint_key(t.is_anonymous, vin.txid@, vin.vout);
    let all = txs_step(db, action, height, b.txs, proofs, n, d)->Ok_0;
    lemma_spent_stay(db, action, height, b.txs, proofs, k, i, n, d);
    lemma_held_totals(db, all, fam, key);
}

proof fn lemma_spent_stay(
    db: store::Db,
    action: BlockAction,
    height: usize,
    txs: Seq<tx::TxView>,
    proofs: Seq<TxProofs>,
    k: int,
    i: int,
    n: nat,
    d: DeltaView,
)
    requires
        0 <= k < n <= txs.len(),
        txs_step(db, action, height, txs, proofs, n, d) is Ok,
        !tx::coinbase(txs[k]),
        0 <= i < txs[k].inputs.len(),
        forall|j: int|
            k <= j < txs.len() && !tx::coinbase(txs[j]) ==> tx::txid_of(#[trigger] txs[j])
                != txs[k].inputs[i].txid@,
    ensures
        ({
            let e = txs_step(db, action, height, txs, proofs, n, d)->Ok_0;
            let t = txs[k];
            let cf = validate::family(t.is_anonymous);
            let key = keys::outpoint_key(t.is_anonymous, t.inputs[i].txid@, t.inputs[i].vout);
            &&& store::read(db, cf, key) is Some
            &&& held(db, e, cf, key) == match action {
                BlockAction::Connect => None,
                BlockAction::Disconnect => store::read(db, cf, key),
            }
        }),
    decreases n,
{
    let t = txs[k];
    let cf = validate::family(t.is_anonymous);
    let key = keys::outpoint_key(t.is_anonymous, t.inputs[i].txid@, t.inputs[i].vout);
    let m = (n - 1) as nat;
    let s = txs[m as int];
    let rings = rings_of(proofs, m as int);
    let mid = txs_step(db, action, height, txs, proofs, m, d)->Ok_0;
    if k < m {
        lemma_spent_stay(db, action, height, txs, proofs, k, i, m, d);
    }
    if tx::coinbase(s) {
        lemma_held_tx(db, action, height, s, rings, mid, cf, key);
    } else {
        let e = inputs_step(db, action, height, s, rings, s.inputs.len(), mid)->Ok_0;
        lemma_held_inputs(db, action, height, s, rings, s.inputs.len(), mid, cf, key);
        lemma_held_outputs(db, action, s, s.outputs.len(), e, cf, key);
        if makes_at(s, action, s.outputs.len(), cf, key) {
            let p = choose|p: int|
                0 <= p < s.outputs.len() && #[trigger] made_at(s, action, p, cf, key);
            keys::law_outpoint_key_injective(
                t.is_anonymous,
                t.inputs[i].txid@,
                t.inputs[i].vout,
                s.is_anonymous,
                tx::txid_of(s),
                position(p),
            );
        }
        if k == m {
            assert(spends_at(s, s.inputs.len(), cf, key));
            lemma_inputs_found(db, action, height, s, rings, s.inputs.len(), mid, i);
        }
    }
}

/// Where the inputs could be handled, what each names was there.
proof fn lemma_inputs_found(
    db: store::Db,
    action: BlockAction,
    height: usize,
    t: tx::TxView,
    rings: Seq<RingProof>,
    n: nat,
    d: DeltaView,
    i: int,
)
    requires
        0 <= i < n,
        inputs_step(db, action, height, t, rings, n, d) is Ok,
    ensures
        store::read(
            db,
            validate::family(t.is_anonymous),
            keys::outpoint_key(t.is_anonymous, t.inputs[i].txid@, t.inputs[i].vout),
        ) is Some,
        t.is_anonymous ==> t.inputs[i].script_sig.len() >= 32 && rings[i].key_image_valid,
        t.is_anonymous && action is Connect ==> store::read(
            db,
            Cf::KeyImages,
            anon::key_image(t.inputs[i]),
        ) is None,
    decreases n,
{
    if i < n - 1 {
        lemma_inputs_found(db, action, height, t, rings, (n - 1) as nat, d, i);
    }
}

/// After the writes of connecting a block, every key image of an anonymous
/// transaction is recorded with the height of the block, where it was not
/// before; after those of disconnecting the block it is not.
pub proof fn law_key_images_are_recorded(
    db: store::Db,
    action: BlockAction,
    height: usize,
    b: tx::BlockView,
    proofs: Seq<TxProofs>,
    d: DeltaView,
    k: int,
    i: int,
)
    requires
        block_step(db, action, height, b, proofs, d) is Ok,
        0 <= k < b.txs.len(),
        !tx::coinbase(b.txs[k]),
        b.txs[k].is_anonymous,
        0 <= i < b.txs[k].inputs.len(),
    ensures
        ({
            let e = block_step(db, action, height, b, proofs, d)->Ok_0;
            let image = b.txs[k].inputs[i].script_sig.take(32);
            let rec = store::read(store::write_all(db, e.ops), Cf::KeyImages, image);
            &&& action is Connect ==> store::read(db, Cf::KeyImages, image) is None && rec is Some
                && rec->0.len() == 8 && bytes::be_value(rec->0) == height
            &&& action is Disconnect ==> rec is None
        }),
{
    let n = b.txs.len();
    let image = anon::key_image(b.txs[k].inputs[i]);
    let all = txs_step(db, action, height, b.txs, proofs, n, d)->Ok_0;
    lemma_images_stay(db, action, height, b.txs, proofs, k, i, n, d);
    lemma_held_totals(db, all, Cf::KeyImages, image);
    assert(image =~= b.txs[k].inputs[i].script_sig.take(32));
    bytes::lemma_be_bytes_len(height as nat, 8);
    bytes::lemma_pow256_values();
    bytes::lemma_be_read_write(height as nat, 8);
}

proof fn lemma_images_stay(
    db: store::Db,
    action: BlockAction,
    height: usize,
    txs: Seq<tx::TxView>,
    proofs: Seq<TxProofs>,
    k: int,
    i: int,
    n: nat,
    d: DeltaView,
)
    requires
        0 <= k < n <= txs.len(),
        txs_step(db, action, height, txs, proofs, n, d) is Ok,
        !tx::coinbase(txs[k]),
        txs[k].is_anonymous,
        0 <= i < txs[k].inputs.len(),
    ensures
        ({
            let e = txs_step(db, action, height, txs, proofs, n, d)->Ok_0;
            let image = anon::key_image(txs[k].inputs[i]);
            &&& txs[k].inputs[i].script_sig.len() >= 32
            &&& action is Connect ==> store::read(db, Cf::KeyImages, image) is None
            &&& held(db, e, Cf::KeyImages, image) == match action {
                BlockAction::Connect => Some(keys::height_bytes(height)),
                BlockAction::Disconnect => None,
            }
        }),
    decreases n,
{
    let image = anon::key_image(txs[k].inputs[i]);
    let m = (n - 1) as nat;
    let s = txs[m as int];
    let rings = rings_of(proofs, m as int);
    let mid = txs_step(db, action, height, txs, proofs, m, d)->Ok_0;
    if k < m {
        lemma_images_stay(db, action, height, txs, proofs, k, i, m, d);
    }
    if tx::coinbase(s) {
        lemma_held_tx(db, action, height, s, rings, mid, Cf::KeyImages, image);
    } else {
        let e = inputs_step(db, action, height, s, rings, s.inputs.len(), mid)->Ok_0;
        lemma_held_inputs(db, action, height, s, rings, s.inputs.len(), mid, Cf::KeyImages, image);
        lemma_held_outputs(db, action, s, s.outputs.len(), e, Cf::KeyImages, image);
        if k == m {
            assert(images_at(s, s.inputs.len(), Cf::KeyImages, image));
            lemma_inputs_found(db, action, height, s, rings, s.inputs.len(), mid, i);
        }
    }
}

/// After the writes of connecting a block, a coinbase is recorded with the
/// height of the block; after those of disconnecting it, it is not.
pub proof fn law_coinbase_is_recorded(
    db: store::Db,
    action: BlockAction,
    height: usize,
    b: tx::BlockView,
    proofs: Seq<TxProofs>,
    d: DeltaView,
    k: int,
)
    requires
        block_step(db, action, height, b, proofs, d) is Ok,
        0 <= k < b.txs.len(),
        tx::coinbase(b.txs[k]),
    ensures
        ({
            let e = block_step(db, action, height, b, proofs, d)->Ok_0;
            let rec = store::read(
                store::write_all(db, e.ops),
                Cf::Coinbase,
                tx::txid_of(b.txs[k]),
            );
            &&& action is Connect ==> rec is Some && rec->0.len() == 8 && bytes::be_value(rec->0)
                == height
            &&& action is Disconnect ==> rec is None
        }),
{
    let n = b.txs.len();
    let txid = tx::txid_of(b.txs[k]);
    let all = txs_step(db, action, height, b.txs, proofs, n, d)->Ok_0;
    lemma_coinbase_stays(db, action, height, b.txs, proofs, k, n, d);
    lemma_held_totals(db, all, Cf::Coinbase, txid);
    bytes::lemma_be_bytes_len(height as nat, 8);
    bytes::lemma_pow256_values();
    bytes::lemma_be_read_write(height as nat, 8);
}

proof fn lemma_coinbase_stays(
    db: store::Db,
    action: BlockAction,
    height: usize,
    txs: Seq<tx::TxView>,
    proofs: Seq<TxProofs>,
    k: int,
    n: nat,
    d: DeltaView,
)
    requires
        0 <= k < n <= txs.len(),
        txs_step(db, action, height, txs, proofs, n, d) is Ok,
        tx::coinbase(txs[k]),
    ensures
        held(
            db,
            txs_step(db, action, height, txs, proofs, n, d)->Ok_0,
            Cf::Coinbase,
            tx::txid_of(txs[k]),
        ) == match action {
            BlockAction::Connect => Some(keys::height_bytes(height)),
            BlockAction::Disconnect => None,
        },
    decreases n,
{
    let txid = tx::txid_of(txs[k]);
    let m = (n - 1) as nat;
    let s = txs[m as int];
    let rings = rings_of(proofs, m as int);
    let mid = txs_step(db, action, height, txs, proofs, m, d)->Ok_0;
    if k < m {
        lemma_coinbase_stays(db, action, height, txs, proofs, k, m, d);
    }
    if tx::coinbase(s) {
        let own = tx::txid_of(s);
        lemma_held_push(
            db,
            mid.ops,
            store::put(Cf::Coinbase, own, keys::height_bytes(height)),
            Cf::Coinbase,
            txid,
        );
        lemma_held_push(db, mid.ops, store::del(Cf::Coinbase, own), Cf::Coinbase, txid);
    } else {
        lemma_held_tx(db, action, height, s, rings, mid, Cf::Coinbase, txid);
    }
}

/// A block leaves every other output as it is: one that none of its inputs
/// names, and that is of none of its transactions.
pub proof fn law_other_outputs_stay(
    db: store::Db,
    action: BlockAction,
    height: usize,
    b: tx::BlockView,
    proofs: Seq<TxProofs>,
    set_hash: Seq<u8>,
    supply: u64,
    anonymous: bool,
    id: Seq<u8>,
    vout: u32,
)
    requires
        block_step(db, action, height, b, proofs, no_change(set_hash, supply)) is Ok,
        forall|j: int| 0 <= j < b.txs.len() ==> tx::txid_of(#[trigger] b.txs[j]) != id,
        forall|j: int, m: int|
            0 <= j < b.txs.len() && 0 <= m < b.txs[j].inputs.len() ==> (
            #[trigger] b.txs[j].inputs[m]).txid@ != id || b.txs[j].inputs[m].vout != vout,
    ensures
        ({
            let e = block_step(db, action, height, b, proofs, no_change(set_hash, supply))->Ok_0;
            let cf = if anonymous {
                Cf::Anonymous
            } else {
                Cf::Utxo
            };
            let key = keys::outpoint_key(anonymous, id, vout);
            store::read(store::write_all(db, e.ops), cf, key) == store::read(db, cf, key)
        }),
{
    let n = b.txs.len();
    let d = no_change(set_hash, supply);
    let all = txs_step(db, action, height, b.txs, proofs, n, d)->Ok_0;
    let cf = validate::family(anonymous);
    let key = keys::outpoint_key(anonymous, id, vout);
    assert forall|j: int| 0 <= j < n implies !writes_at(#[trigger] b.txs[j], action, cf, key) by {
        let s = b.txs[j];
        if spends_at(s, s.inputs.len(), cf, key) {
            let m = choose|m: int|
                0 <= m < s.inputs.len() && key == keys::outpoint_key(
                    s.is_anonymous,
                    (#[trigger] s.inputs[m]).txid@,
                    s.inputs[m].vout,
                );
            keys::law_outpoint_key_injective(
                anonymous,
                id,
                vout,
                s.is_anonymous,
                s.inputs[m].txid@,
                s.inputs[m].vout,
            );
            assert(b.txs[j].inputs[m].vout == vout);
        }
        if makes_at(s, action, s.outputs.len(), cf, key) {
            let m = choose|m: int|
                0 <= m < s.outputs.len() && #[trigger] made_at(s, action, m, cf, key);
            keys::law_outpoint_key_injective(
                anonymous,
                id,
                vout,
                s.is_anonymous,
                tx::txid_of(s),
                position(m),
            );
        }
    }
    lemma_held_later(db, action, height, b.txs, proofs, 0, n, d, cf, key);
    lemma_held_totals(db, all, cf, key);
}

/// A block leaves every other key image as it is: one that no input of its
/// anonymous transactions begins with.
pub proof fn law_other_images_stay(
    db: store::Db,
    action: BlockAction,
    height: usize,
    b: tx::BlockView,
    proofs: Seq<TxProofs>,
    set_hash: Seq<u8>,
    supply: u64,
    image: Seq<u8>,
)
    requires
        block_step(db, action, height, b, proofs, no_change(set_hash, supply)) is Ok,
        forall|j: int, m: int|
            0 <= j < b.txs.len() && 0 <= m < b.txs[j].inputs.len() && b.txs[j].is_anonymous ==> (
            #[trigger] b.txs[j].inputs[m]).script_sig.subrange(0, 32) != image,
    ensures
        ({
            let e = block_step(db, action, height, b, proofs, no_change(set_hash, supply))->Ok_0;
            store::read(store::write_all(db, e.ops), Cf::KeyImages, image) == store::read(
                db,
                Cf::KeyImages,
                image,
            )
        }),
{
    let n = b.txs.len();
    let d = no_change(set_hash, supply);
    let all = txs_step(db, action, height, b.txs, proofs, n, d)->Ok_0;
    assert forall|j: int| 0 <= j < n implies !writes_at(
        #[trigger] b.txs[j],
        action,
        Cf::KeyImages,
        image,
    ) by {
        let s = b.txs[j];
        if images_at(s, s.inputs.len(), Cf::KeyImages, image) {
            let m = choose|m: int|
                0 <= m < s.inputs.len() && image == anon::key_image(#[trigger] s.inputs[m]);
            assert(b.txs[j].inputs[m].script_sig.subrange(0, 32) == image);
        }
    }
    lemma_held_later(db, action, height, b.txs, proofs, 0, n, d, Cf::KeyImages, image);
    lemma_held_totals(db, all, Cf::KeyImages, image);
}

/// A block leaves every other coinbase as it is.
pub proof fn law_other_coinbases_stay(
    db: store::Db,
    action: BlockAction,
    height: usize,
    b: tx::BlockView,
    proofs: Seq<TxProofs>,
    set_hash: Seq<u8>,
    supply: u64,
    id: Seq<u8>,
)
    requires
        block_step(db, action, height, b, proofs, no_change(set_hash, supply)) is Ok,
        forall|j: int|
            0 <= j < b.txs.len() && tx::coinbase(b.txs[j]) ==> tx::txid_of(#[trigger] b.txs[j])
                != id,
    ensures
        ({
            let e = block_step(db, action, height, b, proofs, no_change(set_hash, supply))->Ok_0;
            store::read(store::write_all(db, e.ops), Cf::Coinbase, id) == store::read(
                db,
                Cf::Coinbase,
                id,
            )
        }),
{
    let n = b.txs.len();
    let d = no_change(set_hash, supply);
    let all = txs_step(db, action, height, b.txs, proofs, n, d)->Ok_0;
    lemma_held_later(db, action, height, b.txs, proofs, 0, n, d, Cf::Coinbase, id);
    lemma_held_totals(db, all, Cf::Coinbase, id);
}

/// After the writes of a block the hash and the sum of the unspent outputs are
/// recorded; the sum is the one before, with what the transactions make and
/// without what they spend where the block is connected, and the other way
/// round where it is disconnected; and the hash is the one before, combined
/// with those of the outputs that the transactions spend and make.
pub proof fn law_totals_are_recorded(
    db: store::Db,
    action: BlockAction,
    height: usize,
    b: tx::BlockView,
    proofs: Seq<TxProofs>,
    d: DeltaView,
)
    requires
        block_step(db, action, height, b, proofs, d) is Ok,
    ensures
        ({
            let e = block_step(db, action, height, b, proofs, d)->Ok_0;
            let after = store::write_all(db, e.ops);
            let n = b.txs.len();
            let sum = store::read(after, Cf::Default, keys::supply_key());
            &&& store::read(after, Cf::Default, keys::set_hash_key()) == Some(e.set_hash)
            &&& sum is Some && sum->0.len() == 8 && bytes::be_value(sum->0) == e.supply
            &&& action is Connect ==> e.supply == d.supply + all_made(b.txs, n) - all_spent(
                db,
                b.txs,
                n,
            )
            &&& action is Disconnect ==> e.supply == d.supply + all_spent(db, b.txs, n) - all_made(
                b.txs,
                n,
            )
            &&& e.set_hash == xor_all(d.set_hash, all_hashes(db, action, b.txs, n))
        }),
{
    let n = b.txs.len();
    let all = txs_step(db, action, height, b.txs, proofs, n, d)->Ok_0;
    lemma_held_totals(db, all, Cf::Default, keys::supply_key());
    law_supply_balances(db, action, height, b.txs, proofs, n, d);
    lemma_hash_txs(db, action, height, b.txs, proofs, n, d);
    bytes::lemma_be_bytes_len(all.supply as nat, 8);
    bytes::lemma_pow256_values();
    bytes::lemma_be_read_write(all.supply as nat, 8);
}

} // verus!
