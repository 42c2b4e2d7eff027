//! Transactions and blocks.
use crate::bytes;
use crate::bytes::{append_bytes, copy_bytes, same32, to_le};
use crate::codec;
use crate::codec::{serialize_block, serialize_header, serialize_tx};
use crate::hash;
use crate::hash::sha256d;
use vstd::prelude::*;

verus! {

/// The spending of one output.
#[derive(Debug, PartialEq, Eq, Hash)]
pub struct TXInput {
    /// The transaction that made the output.
    pub txid: [u8; 32],
    /// The output's position in that transaction.
    pub vout: u32,
    /// What unlocks the output.
    pub script_sig: Vec<u8>,
    /// `u32::MAX` where the lock time does not matter.
    pub sequence: u32,
}

/// An amount and what locks it.
#[derive(Debug, PartialEq, Eq, Hash)]
pub struct TXOutput {
    /// The amount, in units of 10^-9.
    pub value: u64,
    /// What the spender has to satisfy.
    pub script_pubkey: Vec<u8>,
    /// The Pedersen commitment of an anonymous output.
    pub commitment: Option<Vec<u8>>,
}

/// A transfer of amounts.
#[derive(Debug, PartialEq, Eq, Hash)]
pub struct Transaction {
    /// The format version.
    pub version: u32,
    /// Whether the inputs are hidden behind rings.
    pub is_anonymous: bool,
    /// What is spent.
    pub inputs: Vec<TXInput>,
    /// What is made.
    pub outputs: Vec<TXOutput>,
    /// The height before which the transaction is not final.
    pub lock_time: u32,
    /// One range proof for each anonymous output.
    pub range_proofs: Vec<Vec<u8>>,
}

/// What the proof of work is about.
#[derive(Debug, Clone, Copy)]
pub struct BlockHeader {
    /// The format version.
    pub version: u32,
    /// The hash of the block before.
    pub prev_hash: [u8; 32],
    /// The root of the tree over the transactions.
    pub merkle_root: [u8; 32],
    /// Seconds since the Unix epoch.
    pub timestamp: u32,
    /// The target in compact form.
    pub bits: u32,
    /// What the miner varies.
    pub nonce: u64,
}

/// A header and the transactions that it commits to.
#[derive(Debug)]
pub struct Block {
    /// The header.
    pub header: BlockHeader,
    /// The transactions, the coinbase first.
    pub txs: Vec<Transaction>,
}

/// What an input says.
pub struct InputView {
    pub txid: [u8; 32],
    pub vout: u32,
    pub script_sig: Seq<u8>,
    pub sequence: u32,
}

/// What an output says.
pub struct OutputView {
    pub value: u64,
    pub script_pubkey: Seq<u8>,
    pub commitment: Option<Seq<u8>>,
}

/// What a transaction says.
pub struct TxView {
    pub version: u32,
    pub is_anonymous: bool,
    pub inputs: Seq<InputView>,
    pub outputs: Seq<OutputView>,
    pub lock_time: u32,
    pub range_proofs: Seq<Seq<u8>>,
}

/// What a block says.
pub struct BlockView {
    pub header: BlockHeader,
    pub txs: Seq<TxView>,
}

/// The bytes of an optional byte string.
pub open spec fn opt_view(o: Option<Vec<u8>>) -> Option<Seq<u8>> {
    match o {
        Some(v) => Some(v@),
        None => None,
    }
}

impl View for TXInput {
    type V = InputView;

    open spec fn view(&self) -> InputView {
        InputView {
            txid: self.txid,
            vout: self.vout,
            script_sig: self.script_sig@,
            sequence: self.sequence,
        }
    }
}

impl View for TXOutput {
    type V = OutputView;

    open spec fn view(&self) -> OutputView {
        OutputView {
            value: self.value,
            script_pubkey: self.script_pubkey@,
            commitment: opt_view(self.commitment),
        }
    }
}

impl View for Transaction {
    type V = TxView;

    open spec fn view(&self) -> TxView {
        TxView {
            version: self.version,
            is_anonymous: self.is_anonymous,
            inputs: self.inputs@.map_values(|i: TXInput| i@),
            outputs: self.outputs@.map_values(|o: TXOutput| o@),
            lock_time: self.lock_time,
            range_proofs: self.range_proofs@.map_values(|p: Vec<u8>| p@),
        }
    }
}

impl View for Block {
    type V = BlockView;

    open spec fn view(&self) -> BlockView {
        BlockView { header: self.header, txs: self.txs@.map_values(|t: Transaction| t@) }
    }
}

/// A copy of an optional byte string.
pub fn copy_opt(o: &Option<Vec<u8>>) -> (r: Option<Vec<u8>>)
    ensures
        opt_view(r) == opt_view(*o),
{
    match o {
        Some(v) => Some(copy_bytes(v.as_slice())),
        None => None,
    }
}

/// A copy of a list of byte strings.
pub fn copy_strings(v: &Vec<Vec<u8>>) -> (r: Vec<Vec<u8>>)
    ensures
        r@.map_values(|p: Vec<u8>| p@) == v@.map_values(|p: Vec<u8>| p@),
{
    let mut out: Vec<Vec<u8>> = Vec::new();
    let mut i: usize = 0;
    while i < v.len()
        invariant
            i <= v@.len(),
            out@.len() == i,
            forall|j: int| 0 <= j < i ==> (#[trigger] out@[j])@ == v@[j]@,
        decreases v@.len() - i,
    {
        out.push(copy_bytes(v[i].as_slice()));
        i += 1;
    }
    assert(out@.map_values(|p: Vec<u8>| p@) =~= v@.map_values(|p: Vec<u8>| p@));
    out
}

impl Clone for TXInput {
    fn clone(&self) -> (r: Self)
        ensures
            r@ == self@,
    {
        TXInput {
            txid: self.txid,
            vout: self.vout,
            script_sig: copy_bytes(self.script_sig.as_slice()),
            sequence: self.sequence,
        }
    }
}

impl Clone for TXOutput {
    fn clone(&self) -> (r: Self)
        ensures
            r@ == self@,
    {
        TXOutput {
            value: self.value,
            script_pubkey: copy_bytes(self.script_pubkey.as_slice()),
            commitment: copy_opt(&self.commitment),
        }
    }
}

/// A copy of a list of inputs.
pub fn copy_inputs(v: &Vec<TXInput>) -> (r: Vec<TXInput>)
    ensures
        r@.map_values(|i: TXInput| i@) == v@.map_values(|i: TXInput| i@),
{
    let mut out: Vec<TXInput> = Vec::new();
    let mut i: usize = 0;
    while i < v.len()
        invariant
            i <= v@.len(),
            out@.len() == i,
            forall|j: int| 0 <= j < i ==> (#[trigger] out@[j])@ == v@[j]@,
        decreases v@.len() - i,
    {
        out.push(v[i].clone());
        i += 1;
    }
    assert(out@.map_values(|i: TXInput| i@) =~= v@.map_values(|i: TXInput| i@));
    out
}

/// A copy of a list of outputs.
pub fn copy_outputs(v: &Vec<TXOutput>) -> (r: Vec<TXOutput>)
    ensures
        r@.map_values(|o: TXOutput| o@) == v@.map_values(|o: TXOutput| o@),
{
    let mut out: Vec<TXOutput> = Vec::new();
    let mut i: usize = 0;
    while i < v.len()
        invariant
            i <= v@.len(),
            out@.len() == i,
            forall|j: int| 0 <= j < i ==> (#[trigger] out@[j])@ == v@[j]@,
        decreases v@.len() - i,
    {
        out.push(v[i].clone());
        i += 1;
    }
    assert(out@.map_values(|o: TXOutput| o@) =~= v@.map_values(|o: TXOutput| o@));
    out
}

impl Clone for Transaction {
    fn clone(&self) -> (r: Self)
        ensures
            r@ == self@,
    {
        Transaction {
            version: self.version,
            is_anonymous: self.is_anonymous,
            inputs: copy_inputs(&self.inputs),
            outputs: copy_outputs(&self.outputs),
            lock_time: self.lock_time,
            range_proofs: copy_strings(&self.range_proofs),
        }
    }
}

/// A copy of a list of transactions.
pub fn copy_txs(v: &Vec<Transaction>) -> (r: Vec<Transaction>)
    ensures
        r@.map_values(|t: Transaction| t@) == v@.map_values(|t: Transaction| t@),
{
    let mut out: Vec<Transaction> = Vec::new();
    let mut i: usize = 0;
    while i < v.len()
        invariant
            i <= v@.len(),
            out@.len() == i,
            forall|j: int| 0 <= j < i ==> (#[trigger] out@[j])@ == v@[j]@,
        decreases v@.len() - i,
    {
        out.push(v[i].clone());
        i += 1;
    }
    assert(out@.map_values(|t: Transaction| t@) =~= v@.map_values(|t: Transaction| t@));
    out
}

impl Clone for Block {
    fn clone(&self) -> (r: Self)
        ensures
            r@ == self@,
    {
        Block { header: self.header, txs: copy_txs(&self.txs) }
    }
}

// ---------------------------------------------------------------------------
// Sums of amounts
// ---------------------------------------------------------------------------

/// The sum of amounts.
pub open spec fn sum(s: Seq<u64>) -> nat
    decreases s.len(),
{
    if s.len() == 0 {
        0
    } else {
        sum(s.drop_last()) + s.last() as nat
    }
}

/// The sum of amounts, where it is itself an amount.
pub open spec fn checked_sum(s: Seq<u64>) -> Option<u64> {
    if sum(s) <= u64::MAX {
        Some(sum(s) as u64)
    } else {
        None
    }
}

/// A part from the front sums to no more than the whole.
pub proof fn lemma_sum_take(s: Seq<u64>, n: int)
    requires
        0 <= n <= s.len(),
    ensures
        sum(s.take(n)) <= sum(s),
    decreases s.len() - n,
{
    if n < s.len() {
        lemma_sum_take(s, n + 1);
        assert(s.take(n + 1).drop_last() =~= s.take(n));
    } else {
        assert(s.take(n) =~= s);
    }
}

/// The amounts of outputs.
pub open spec fn values(outputs: Seq<OutputView>) -> Seq<u64> {
    outputs.map_values(|o: OutputView| o.value)
}

/// The sum of the outputs' amounts, `None` where it is no amount.
pub fn output_total(outputs: &Vec<TXOutput>) -> (r: Option<u64>)
    ensures
        r == checked_sum(values(outputs@.map_values(|o: TXOutput| o@))),
{
    let ghost all = values(outputs@.map_values(|o: TXOutput| o@));
    let mut acc: u64 = 0;
    let mut i: usize = 0;
    assert(all.take(0) =~= Seq::<u64>::empty());
    while i < outputs.len()
        invariant
            i <= outputs@.len(),
            all == values(outputs@.map_values(|o: TXOutput| o@)),
            acc == sum(all.take(i as int)),
        decreases outputs@.len() - i,
    {
        proof {
            assert(all.take(i + 1).drop_last() =~= all.take(i as int));
            lemma_sum_take(all, i + 1);
        }
        match acc.checked_add(outputs[i].value) {
            Some(s) => {
                acc = s;
            },
            None => {
                return None;
            },
        }
        i += 1;
    }
    assert(all.take(all.len() as int) =~= all);
    Some(acc)
}

// ---------------------------------------------------------------------------
// Outputs by the place where they were made
// ---------------------------------------------------------------------------

/// Where an output was made: its transaction and its position there.
pub type OutPoint = (Seq<u8>, u32);

/// Outputs by the place where they were made.
pub struct OutputMap {
    entries: Vec<([u8; 32], u32, TXOutput)>,
}

/// What a list of insertions leaves behind.
pub open spec fn inserted(s: Seq<([u8; 32], u32, TXOutput)>) -> Map<OutPoint, OutputView>
    decreases s.len(),
{
    if s.len() == 0 {
        Map::empty()
    } else {
        inserted(s.drop_last()).insert((s.last().0@, s.last().1), s.last().2@)
    }
}

proof fn lemma_inserted_last(s: Seq<([u8; 32], u32, TXOutput)>, n: int, p: OutPoint)
    requires
        0 <= n <= s.len(),
        forall|j: int| n <= j < s.len() ==> (#[trigger] s[j].0@, s[j].1) != p,
    ensures
        inserted(s).dom().contains(p) == inserted(s.take(n)).dom().contains(p),
        inserted(s).dom().contains(p) ==> inserted(s)[p] == inserted(s.take(n))[p],
    decreases s.len() - n,
{
    if n < s.len() {
        lemma_inserted_last(s, n + 1, p);
        assert(s.take(n + 1).drop_last() =~= s.take(n));
        assert((s[n].0@, s[n].1) != p);
    } else {
        assert(s.take(n) =~= s);
    }
}

impl View for OutputMap {
    type V = Map<OutPoint, OutputView>;

    closed spec fn view(&self) -> Map<OutPoint, OutputView> {
        inserted(self.entries@)
    }
}

impl OutputMap {
    /// No output.
    pub fn new() -> (r: Self)
        ensures
            r@ == Map::<OutPoint, OutputView>::empty(),
    {
        OutputMap { entries: Vec::new() }
    }

    /// Puts an output at its place, in front of what was there.
    pub fn insert(&mut self, txid: [u8; 32], vout: u32, output: TXOutput)
        ensures
            final(self)@ == old(self)@.insert((txid@, vout), output@),
    {
        let ghost before = self.entries@;
        self.entries.push((txid, vout, output));
        assert(self.entries@.drop_last() =~= before);
    }

    /// The output at a place.
    pub fn get(&self, txid: &[u8; 32], vout: u32) -> (r: Option<&TXOutput>)
        ensures
            match r {
                Some(o) => self@.dom().contains((txid@, vout)) && self@[(txid@, vout)] == o@,
                None => !self@.dom().contains((txid@, vout)),
            },
    {
        let ghost s = self.entries@;
        let mut n: usize = self.entries.len();
        while n > 0
            invariant
                n <= self.entries@.len(),
                s == self.entries@,
                forall|j: int| n <= j < s.len() ==> (#[trigger] s[j].0@, s[j].1) != (txid@, vout),
            decreases n,
        {
            n -= 1;
            let e = &self.entries[n];
            if e.1 == vout && same32(&e.0, txid) {
                proof {
                    lemma_inserted_last(s, n + 1, (txid@, vout));
                    assert(s.take(n + 1).last() == s[n as int]);
                }
                return Some(&e.2);
            }
            proof {
                bytes::lemma_id_ext(e.0, *txid);
            }
        }
        proof {
            lemma_inserted_last(s, 0, (txid@, vout));
            assert(s.take(0) =~= Seq::<([u8; 32], u32, TXOutput)>::empty());
        }
        None
    }
}

// ---------------------------------------------------------------------------
// Transactions
// ---------------------------------------------------------------------------

/// The identifier of a transaction.
pub open spec fn txid_of(t: TxView) -> Seq<u8> {
    hash::sha256d_of(codec::enc_tx(t))
}

/// Whether a transaction makes new money: its only input names no output.
pub open spec fn coinbase(t: TxView) -> bool {
    &&& t.inputs.len() == 1
    &&& t.inputs[0].txid@ == zero_id()
    &&& t.inputs[0].vout == u32::MAX
}

/// Thirty-two zero bytes.
pub open spec fn zero_id() -> Seq<u8> {
    Seq::new(32, |i: int| 0u8)
}

/// The identifier whose bytes are zeros.
pub open spec fn no_id() -> [u8; 32] {
    choose|id: [u8; 32]| id@ == zero_id()
}

/// There is an identifier whose bytes are zeros.
pub proof fn lemma_no_id()
    ensures
        no_id()@ == zero_id(),
{
    let zero = vstd::array::spec_array_fill_for_copy_type::<u8, 32>(0u8);
    assert(zero@ =~= zero_id());
}

/// The identifier whose bytes are zeros.
pub fn make_no_id() -> (r: [u8; 32])
    ensures
        r@ == zero_id(),
        r == no_id(),
{
    let zero: [u8; 32] = [0u8; 32];
    proof {
        assert(zero@ =~= zero_id());
        bytes::lemma_id_ext(zero, no_id());
    }
    zero
}

/// The input with what unlocks it taken out.
pub open spec fn without_script(i: InputView) -> InputView {
    InputView { script_sig: Seq::empty(), ..i }
}

/// What a signature of input `idx` covers: the transaction without the
/// inputs' scripts, the spent output's script standing in at `idx`.
pub open spec fn signed_form(t: TxView, idx: int, script: Seq<u8>) -> TxView {
    TxView {
        inputs: Seq::new(
            t.inputs.len(),
            |i: int|
                if i == idx {
                    InputView { script_sig: script, ..t.inputs[i] }
                } else {
                    without_script(t.inputs[i])
                },
        ),
        ..t
    }
}

/// The hash that a signature of input `idx` signs.
pub open spec fn sighash_of(t: TxView, idx: int, script: Seq<u8>, sighash_type: u32) -> Seq<u8> {
    hash::sha256d_of(
        codec::enc_tx(signed_form(t, idx, script)) + bytes::le_bytes(sighash_type as nat, 4),
    )
}

/// The transaction without what its spenders and provers add.
pub open spec fn prefix_form(t: TxView) -> TxView {
    TxView {
        inputs: t.inputs.map_values(|i: InputView| without_script(i)),
        range_proofs: Seq::empty(),
        ..t
    }
}

/// The amounts that the inputs bring in, 0 for an output that is not known.
pub open spec fn input_values(
    inputs: Seq<InputView>,
    outputs: Map<OutPoint, OutputView>,
) -> Seq<u64> {
    inputs.map_values(
        |i: InputView|
            if outputs.dom().contains((i.txid@, i.vout)) {
                outputs[(i.txid@, i.vout)].value
            } else {
                0
            },
    )
}

/// What the inputs bring in beyond what the outputs take out; 0 where a sum
/// is no amount or the outputs take out more.
pub open spec fn fee_of(t: TxView, outputs: Map<OutPoint, OutputView>) -> u64 {
    match (checked_sum(input_values(t.inputs, outputs)), checked_sum(values(t.outputs))) {
        (Some(i), Some(o)) => if i >= o {
            (i - o) as u64
        } else {
            0
        },
        _ => 0,
    }
}

/// Copies inputs with their scripts taken out, `script` standing in at `idx`.
fn blank_inputs(inputs: &Vec<TXInput>, idx: usize, script: &[u8]) -> (r: Vec<TXInput>)
    ensures
        r@.len() == inputs@.len(),
        forall|i: int|
            0 <= i < r@.len() ==> (#[trigger] r@[i])@ == if i == idx {
                InputView { script_sig: script@, ..inputs@[i]@ }
            } else {
                without_script(inputs@[i]@)
            },
{
    let mut out: Vec<TXInput> = Vec::new();
    let mut i: usize = 0;
    while i < inputs.len()
        invariant
            i <= inputs@.len(),
            out@.len() == i,
            forall|j: int|
                0 <= j < i ==> (#[trigger] out@[j])@ == if j == idx {
                    InputView { script_sig: script@, ..inputs@[j]@ }
                } else {
                    without_script(inputs@[j]@)
                },
        decreases inputs@.len() - i,
    {
        let script_sig: Vec<u8> = if i == idx {
            copy_bytes(script)
        } else {
            Vec::new()
        };
        let e = &inputs[i];
        out.push(
            TXInput { txid: e.txid, vout: e.vout, script_sig, sequence: e.sequence },
        );
        assert(out@[i as int]@.script_sig =~= if i == idx {
            script@
        } else {
            Seq::<u8>::empty()
        });
        i += 1;
    }
    out
}

/// Whether an identifier is all zeros.
pub fn is_zero_id(id: &[u8; 32]) -> (r: bool)
    ensures
        r == (id@ == zero_id()),
{
    let zero = make_no_id();
    proof {
        bytes::lemma_id_ext(*id, zero);
    }
    same32(id, &zero)
}

impl Transaction {
    /// The identifier of the transaction.
    pub fn hash(&self) -> (r: [u8; 32])
        ensures
            r@ == txid_of(self@),
    {
        let data = serialize_tx(self);
        sha256d(data.as_slice())
    }

    /// The hash that a signature of input `input_idx` signs.
    pub fn sighash(&self, input_idx: usize, script_pubkey: &[u8], sighash_type: u32) -> (r: [u8; 32])
        requires
            input_idx < self.inputs@.len(),
        ensures
            r@ == sighash_of(self@, input_idx as int, script_pubkey@, sighash_type),
    {
        let copy = Transaction {
            version: self.version,
            is_anonymous: self.is_anonymous,
            inputs: blank_inputs(&self.inputs, input_idx, script_pubkey),
            outputs: copy_outputs(&self.outputs),
            lock_time: self.lock_time,
            range_proofs: copy_strings(&self.range_proofs),
        };
        assert(copy@.inputs =~= signed_form(self@, input_idx as int, script_pubkey@).inputs);
        let mut data = serialize_tx(&copy);
        let ty = to_le(sighash_type as u128, 4);
        append_bytes(&mut data, ty.as_slice());
        sha256d(data.as_slice())
    }

    /// Whether the transaction makes new money.
    pub fn is_coinbase(&self) -> (r: bool)
        ensures
            r == coinbase(self@),
    {
        self.inputs.len() == 1 && is_zero_id(&self.inputs[0].txid) && self.inputs[0].vout
            == u32::MAX
    }

    /// The number of bytes of the transaction.
    pub fn size(&self) -> (r: usize)
        ensures
            r == codec::enc_tx(self@).len(),
    {
        serialize_tx(self).len()
    }

    /// What the inputs bring in, `None` where the sum is no amount.
    fn input_total(&self, outputs: &OutputMap) -> (r: Option<u64>)
        ensures
            r == checked_sum(input_values(self@.inputs, outputs@)),
    {
        let ghost all = input_values(self@.inputs, outputs@);
        let mut acc: u64 = 0;
        let mut i: usize = 0;
        assert(all.take(0) =~= Seq::<u64>::empty());
        while i < self.inputs.len()
            invariant
                i <= self.inputs@.len(),
                all == input_values(self@.inputs, outputs@),
                acc == sum(all.take(i as int)),
            decreases self.inputs@.len() - i,
        {
            let vin = &self.inputs[i];
            let value: u64 = match outputs.get(&vin.txid, vin.vout) {
                Some(o) => o.value,
                None => 0,
            };
            proof {
                assert(all.take(i + 1).drop_last() =~= all.take(i as int));
                assert(self@.inputs[i as int] == vin@);
                lemma_sum_take(all, i + 1);
            }
            match acc.checked_add(value) {
                Some(s) => {
                    acc = s;
                },
                None => {
                    return None;
                },
            }
            i += 1;
        }
        assert(all.take(all.len() as int) =~= all);
        Some(acc)
    }

    /// What the inputs bring in beyond what the outputs take out.
    pub fn fee(&self, outputs: &OutputMap) -> (r: u64)
        ensures
            r == fee_of(self@, outputs@),
    {
        let input_sum = self.input_total(outputs);
        let output_sum = output_total(&self.outputs);
        match (input_sum, output_sum) {
            (Some(i), Some(o)) => i.saturating_sub(o),
            _ => 0,
        }
    }
}

/// The hash of a transaction without what its spenders and provers add.
pub fn create_prefix_hash(tx: &Transaction) -> (r: [u8; 32])
    ensures
        r@ == txid_of(prefix_form(tx@)),
{
    let copy = Transaction {
        version: tx.version,
        is_anonymous: tx.is_anonymous,
        inputs: blank_inputs(&tx.inputs, tx.inputs.len(), &[]),
        outputs: copy_outputs(&tx.outputs),
        lock_time: tx.lock_time,
        range_proofs: Vec::new(),
    };
    assert(copy@.inputs =~= prefix_form(tx@).inputs);
    assert(copy@.range_proofs =~= prefix_form(tx@).range_proofs);
    copy.hash()
}

/// The prefix hash does not depend on the inputs' scripts and the range
/// proofs: filling them in leaves it unchanged.
pub proof fn law_prefix_ignores_proofs(s: TxView, t: TxView)
    requires
        s.version == t.version,
        s.is_anonymous == t.is_anonymous,
        s.outputs == t.outputs,
        s.lock_time == t.lock_time,
        s.inputs.len() == t.inputs.len(),
        forall|i: int|
            0 <= i < s.inputs.len() ==> without_script(#[trigger] s.inputs[i]) == without_script(
                t.inputs[i],
            ),
    ensures
        txid_of(prefix_form(s)) == txid_of(prefix_form(t)),
{
    assert(prefix_form(s).inputs =~= prefix_form(t).inputs);
}

/// What is signed does not depend on the scripts that signing fills in: the
/// inputs of a transaction can be signed in any order.
pub proof fn law_sighash_ignores_scripts(s: TxView, t: TxView, idx: int, script: Seq<u8>, ty: u32)
    requires
        s.version == t.version,
        s.is_anonymous == t.is_anonymous,
        s.outputs == t.outputs,
        s.lock_time == t.lock_time,
        s.range_proofs == t.range_proofs,
        s.inputs.len() == t.inputs.len(),
        0 <= idx < s.inputs.len(),
        forall|i: int|
            0 <= i < s.inputs.len() ==> without_script(#[trigger] s.inputs[i]) == without_script(
                t.inputs[i],
            ),
    ensures
        sighash_of(s, idx, script, ty) == sighash_of(t, idx, script, ty),
{
    assert forall|i: int| 0 <= i < s.inputs.len() implies signed_form(s, idx, script).inputs[i]
        == signed_form(t, idx, script).inputs[i] by {
        assert(without_script(s.inputs[i]) == without_script(t.inputs[i]));
        assert(s.inputs[i] == InputView {
            script_sig: s.inputs[i].script_sig,
            ..without_script(s.inputs[i])
        });
    }
    assert(signed_form(s, idx, script).inputs =~= signed_form(t, idx, script).inputs);
}

// ---------------------------------------------------------------------------
// Headers and blocks
// ---------------------------------------------------------------------------

/// The hash of two neighbours in the tree over the transactions.
pub open spec fn pair_hash(a: Seq<u8>, b: Seq<u8>) -> Seq<u8> {
    hash::sha256d_of(a + b)
}

/// The next level of the tree: neighbours are hashed together, the last one
/// with itself where it has no neighbour.
pub open spec fn merkle_level(s: Seq<Seq<u8>>) -> Seq<Seq<u8>> {
    Seq::new(
        ((s.len() + 1) / 2) as nat,
        |i: int|
            pair_hash(
                s[2 * i],
                if 2 * i + 1 < s.len() {
                    s[2 * i + 1]
                } else {
                    s[2 * i]
                },
            ),
    )
}

/// The root of the tree; all zeros where there are no leaves.
pub open spec fn merkle_root_of(s: Seq<Seq<u8>>) -> Seq<u8>
    decreases s.len(),
{
    if s.len() == 0 {
        zero_id()
    } else if s.len() == 1 {
        s[0]
    } else {
        merkle_root_of(merkle_level(s))
    }
}

/// The identifiers of transactions.
pub open spec fn txids(txs: Seq<TxView>) -> Seq<Seq<u8>> {
    txs.map_values(|t: TxView| txid_of(t))
}

/// A last leaf without a neighbour counts as its own neighbour: repeating it
/// leaves the root unchanged. (A single leaf is the root itself, so there
/// have to be three at least.)
pub proof fn law_merkle_repeats_last(s: Seq<Seq<u8>>)
    requires
        s.len() % 2 == 1,
        s.len() >= 3,
    ensures
        merkle_root_of(s) == merkle_root_of(s.push(s.last())),
{
    assert(merkle_level(s) =~= merkle_level(s.push(s.last())));
}

/// The identifiers as the tree over them sees them.
pub open spec fn ids(v: Seq<[u8; 32]>) -> Seq<Seq<u8>> {
    v.map_values(|h: [u8; 32]| h@)
}

/// The next level of the tree.
fn next_level(hashes: &Vec<[u8; 32]>) -> (r: Vec<[u8; 32]>)
    requires
        hashes@.len() >= 2,
    ensures
        ids(r@) == merkle_level(ids(hashes@)),
{
    let ghost s = ids(hashes@);
    let mut out: Vec<[u8; 32]> = Vec::new();
    let len: usize = hashes.len();
    let mut i: usize = 0;
    while i < len
        invariant
            len == hashes@.len(),
            s == ids(hashes@),
            i <= len + 1,
            i % 2 == 0,
            len >= 2,
            out@.len() == i / 2,
            forall|j: int| 0 <= j < i / 2 ==> (#[trigger] out@[j])@ == merkle_level(s)[j],
        decreases len + 1 - i,
    {
        let mut combined = copy_bytes(hashes[i].as_slice());
        if len - i >= 2 {
            append_bytes(&mut combined, hashes[i + 1].as_slice());
        } else {
            append_bytes(&mut combined, hashes[i].as_slice());
        }
        let h = sha256d(combined.as_slice());
        out.push(h);
        proof {
            assert(2 * (i / 2) == i);
            assert(merkle_level(s)[(i / 2) as int] == h@);
        }
        if len - i >= 2 {
            i += 2;
        } else {
            assert(ids(out@) =~= merkle_level(s));
            return out;
        }
    }
    assert(ids(out@) =~= merkle_level(s));
    out
}

impl BlockHeader {
    /// The bytes that the proof of work hashes.
    pub fn pow_input(&self) -> (r: Vec<u8>)
        ensures
            r@ == codec::enc_header(*self),
    {
        serialize_header(self)
    }
}

impl Block {
    /// The root of the tree over the transactions' identifiers.
    pub fn compute_merkle_root(txs: &[Transaction]) -> (r: [u8; 32])
        ensures
            r@ == merkle_root_of(txids(txs@.map_values(|t: Transaction| t@))),
    {
        let ghost leaves = txids(txs@.map_values(|t: Transaction| t@));
        let mut hashes: Vec<[u8; 32]> = Vec::new();
        let mut i: usize = 0;
        while i < txs.len()
            invariant
                i <= txs@.len(),
                leaves == txids(txs@.map_values(|t: Transaction| t@)),
                hashes@.len() == i,
                forall|j: int| 0 <= j < i ==> (#[trigger] hashes@[j])@ == leaves[j],
            decreases txs@.len() - i,
        {
            hashes.push(txs[i].hash());
            i += 1;
        }
        assert(ids(hashes@) =~= leaves);
        if hashes.len() == 0 {
            return make_no_id();
        }
        while hashes.len() > 1
            invariant
                hashes@.len() >= 1,
                merkle_root_of(ids(hashes@)) == merkle_root_of(leaves),
            decreases hashes@.len(),
        {
            let ghost before = ids(hashes@);
            hashes = next_level(&hashes);
            assert(hashes@.len() == ids(hashes@).len());
            assert(merkle_root_of(before) == merkle_root_of(merkle_level(before)));
        }
        assert(ids(hashes@)[0] == hashes@[0]@);
        hashes[0]
    }

    /// The number of bytes of the block.
    pub fn size(&self) -> (r: usize)
        ensures
            r == codec::enc_block(self@).len(),
    {
        serialize_block(self).len()
    }
}

/// The sum of amounts is what they come to one after the other, and the
/// amounts of outputs are what each of them holds.
pub proof fn law_sum_adds(s: Seq<u64>, x: u64, outputs: Seq<OutputView>, o: OutputView)
    ensures
        sum(Seq::empty()) == 0,
        sum(s.push(x)) == sum(s) + x,
        values(Seq::empty()) == Seq::<u64>::empty(),
        values(outputs.push(o)) == values(outputs).push(o.value),
{
    assert(s.push(x).drop_last() =~= s);
    assert(values(outputs.push(o)) =~= values(outputs).push(o.value));
}

/// The fee is what the inputs bring in beyond what the outputs take out: with
/// the amounts of the outputs that the inputs name, each known, the two sums
/// differ by the fee, where the first is an amount and no less.
pub proof fn law_fee_is_difference(
    t: TxView,
    outputs: Map<OutPoint, OutputView>,
    brought: Seq<u64>,
)
    requires
        brought.len() == t.inputs.len(),
        forall|i: int|
            0 <= i < t.inputs.len() ==> {
                let at = ((#[trigger] t.inputs[i]).txid@, t.inputs[i].vout);
                outputs.dom().contains(at) && brought[i] == outputs[at].value
            },
        sum(values(t.outputs)) <= sum(brought) <= u64::MAX,
    ensures
        sum(values(t.outputs)) + fee_of(t, outputs) == sum(brought),
{
    assert(input_values(t.inputs, outputs) =~= brought);
}

/// The root of the tree over leaves: all zeros for none, the leaf itself for
/// one, and otherwise the root over the level above, in which each is the hash
/// of two neighbours, the last one hashed with itself where it has none.
pub proof fn law_merkle_climbs(s: Seq<Seq<u8>>, above: Seq<Seq<u8>>)
    requires
        2 * above.len() == s.len() || 2 * above.len() == s.len() + 1,
        forall|i: int|
            0 <= i < above.len() ==> #[trigger] above[i] == hash::sha256d_of(
                s[2 * i] + s[if 2 * i + 1 < s.len() {
                    2 * i + 1
                } else {
                    2 * i
                }],
            ),
    ensures
        s.len() == 0 ==> merkle_root_of(s) == Seq::new(32, |i: int| 0u8),
        s.len() == 1 ==> merkle_root_of(s) == s[0],
        s.len() >= 2 ==> merkle_root_of(s) == merkle_root_of(above),
{
    assert(above =~= merkle_level(s));
}

/// The root over two trees of the same size, a power of two, is the hash of
/// their roots.
pub proof fn law_merkle_joins(l: Seq<Seq<u8>>, r: Seq<Seq<u8>>, k: nat)
    requires
        l.len() == vstd::arithmetic::power2::pow2(k),
        r.len() == vstd::arithmetic::power2::pow2(k),
    ensures
        merkle_root_of(l + r) == hash::sha256d_of(merkle_root_of(l) + merkle_root_of(r)),
    decreases k,
{
    vstd::arithmetic::power2::lemma_pow2_pos(k);
    let s = l + r;
    if k == 0 {
        vstd::arithmetic::power2::lemma2_to64();
        assert(merkle_level(s) =~= seq![pair_hash(l[0], r[0])]);
        reveal_with_fuel(merkle_root_of, 3);
    } else {
        vstd::arithmetic::power2::lemma_pow2_unfold(k);
        law_merkle_joins(merkle_level(l), merkle_level(r), (k - 1) as nat);
        assert(merkle_level(s) =~= merkle_level(l) + merkle_level(r));
    }
}

/// What a signature of an input covers: the transaction as it is, but for the
/// scripts of its inputs, of which the one that is signed has the script of the
/// output that it spends and the others have none; followed by the type of the
/// signature in four bytes, the least significant first.
pub proof fn law_sighash_covers(t: TxView, u: TxView, idx: int, script: Seq<u8>, ty: u32)
    requires
        u.version == t.version,
        u.is_anonymous == t.is_anonymous,
        u.outputs == t.outputs,
        u.lock_time == t.lock_time,
        u.range_proofs == t.range_proofs,
        u.inputs.len() == t.inputs.len(),
        forall|i: int|
            0 <= i < t.inputs.len() ==> {
                let a = #[trigger] u.inputs[i];
                &&& a.txid == t.inputs[i].txid
                &&& a.vout == t.inputs[i].vout
                &&& a.sequence == t.inputs[i].sequence
                &&& a.script_sig == if i == idx {
                    script
                } else {
                    Seq::empty()
                }
            },
    ensures
        sighash_of(t, idx, script, ty) == hash::sha256d_of(
            codec::enc_tx(u) + bytes::le_bytes(ty as nat, 4),
        ),
{
    assert forall|i: int| 0 <= i < t.inputs.len() implies signed_form(t, idx, script).inputs[i]
        == u.inputs[i] by {
        let a = u.inputs[i];
        assert(a == InputView { script_sig: a.script_sig, ..t.inputs[i] });
    }
    assert(signed_form(t, idx, script).inputs =~= u.inputs);
    assert(signed_form(t, idx, script) == u);
}

} // verus!
