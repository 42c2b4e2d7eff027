//! The byte format of stored and sent values, as the `bincode` crate writes
//! it: integers little-endian at their width, a list behind its length as
//! eight bytes, an optional value behind a byte that is 0 or 1.
//!
//! Values go to the crate as tuples of plain values, one tuple element for
//! each field.
use crate::bytes;
use crate::bytes::copy_bytes;
use crate::tx;
use crate::tx::{copy_opt, copy_strings, Block, BlockHeader, TXInput, TXOutput, Transaction};
use vstd::prelude::*;

verus! {

// ---------------------------------------------------------------------------
// The format
// ---------------------------------------------------------------------------

/// A 32-bit number.
pub open spec fn enc_u32(x: u32) -> Seq<u8> {
    bytes::le_bytes(x as nat, 4)
}

/// A 64-bit number.
pub open spec fn enc_u64(x: u64) -> Seq<u8> {
    bytes::le_bytes(x as nat, 8)
}

/// The length of a list.
pub open spec fn enc_len(n: nat) -> Seq<u8> {
    bytes::le_bytes(n, 8)
}

/// A truth value.
pub open spec fn enc_bool(b: bool) -> Seq<u8> {
    seq![if b {
        1u8
    } else {
        0u8
    }]
}

/// A byte string.
pub open spec fn enc_bytes(s: Seq<u8>) -> Seq<u8> {
    enc_len(s.len()) + s
}

/// An optional byte string.
pub open spec fn enc_opt_bytes(o: Option<Seq<u8>>) -> Seq<u8> {
    match o {
        Some(s) => seq![1u8] + enc_bytes(s),
        None => seq![0u8],
    }
}

/// A string.
pub open spec fn enc_string(s: Seq<char>) -> Seq<u8> {
    enc_bytes(vstd::utf8::encode_utf8(s))
}

/// The items of a list, one after the other.
pub open spec fn enc_items<T>(s: Seq<T>, f: spec_fn(T) -> Seq<u8>) -> Seq<u8>
    decreases s.len(),
{
    if s.len() == 0 {
        Seq::empty()
    } else {
        f(s[0]) + enc_items(s.skip(1), f)
    }
}

/// A list.
pub open spec fn enc_list<T>(s: Seq<T>, f: spec_fn(T) -> Seq<u8>) -> Seq<u8> {
    enc_len(s.len()) + enc_items(s, f)
}

/// An input.
pub open spec fn enc_input(i: tx::InputView) -> Seq<u8> {
    i.txid@ + (enc_u32(i.vout) + (enc_bytes(i.script_sig) + enc_u32(i.sequence)))
}

/// An output.
pub open spec fn enc_output(o: tx::OutputView) -> Seq<u8> {
    enc_u64(o.value) + (enc_bytes(o.script_pubkey) + enc_opt_bytes(o.commitment))
}

/// A transaction.
pub open spec fn enc_tx(t: tx::TxView) -> Seq<u8> {
    enc_u32(t.version) + (enc_bool(t.is_anonymous) + (enc_list(
        t.inputs,
        |i: tx::InputView| enc_input(i),
    ) + (enc_list(t.outputs, |o: tx::OutputView| enc_output(o)) + (enc_u32(t.lock_time) + enc_list(
        t.range_proofs,
        |p: Seq<u8>| enc_bytes(p),
    )))))
}

/// A header without its nonce.
pub open spec fn enc_header_base(
    version: u32,
    prev_hash: Seq<u8>,
    merkle_root: Seq<u8>,
    timestamp: u32,
    bits: u32,
) -> Seq<u8> {
    enc_u32(version) + (prev_hash + (merkle_root + (enc_u32(timestamp) + enc_u32(bits))))
}

/// A header.
pub open spec fn enc_header(h: BlockHeader) -> Seq<u8> {
    enc_header_base(h.version, h.prev_hash@, h.merkle_root@, h.timestamp, h.bits) + enc_u64(h.nonce)
}

/// A block.
pub open spec fn enc_block(b: tx::BlockView) -> Seq<u8> {
    enc_header(b.header) + enc_list(b.txs, |t: tx::TxView| enc_tx(t))
}

/// Where a transaction is: the height of its block and its position there.
pub open spec fn enc_position(p: (u64, u64)) -> Seq<u8> {
    enc_u64(p.0) + enc_u64(p.1)
}

/// A list of headers.
pub open spec fn enc_headers(s: Seq<BlockHeader>) -> Seq<u8> {
    enc_list(s, |h: BlockHeader| enc_header(h))
}

/// A list of transactions.
pub open spec fn enc_txs(s: Seq<tx::TxView>) -> Seq<u8> {
    enc_list(s, |t: tx::TxView| enc_tx(t))
}

/// A list of strings.
pub open spec fn enc_strings(s: Seq<Seq<char>>) -> Seq<u8> {
    enc_list(s, |x: Seq<char>| enc_string(x))
}

// ---------------------------------------------------------------------------
// Tuples of plain values
// ---------------------------------------------------------------------------

/// The fields of an input.
pub type WireInput = ([u8; 32], u32, Vec<u8>, u32);

/// The fields of an output.
pub type WireOutput = (u64, Vec<u8>, Option<Vec<u8>>);

/// The fields of a transaction.
pub type WireTx = (u32, bool, Vec<WireInput>, Vec<WireOutput>, u32, Vec<Vec<u8>>);

/// The fields of a header.
pub type WireHeader = (u32, [u8; 32], [u8; 32], u32, u32, u64);

/// The fields of a block.
pub type WireBlock = (WireHeader, Vec<WireTx>);

/// The input that a tuple holds.
pub open spec fn wire_input(w: WireInput) -> tx::InputView {
    tx::InputView { txid: w.0, vout: w.1, script_sig: w.2@, sequence: w.3 }
}

/// The output that a tuple holds.
pub open spec fn wire_output(w: WireOutput) -> tx::OutputView {
    tx::OutputView { value: w.0, script_pubkey: w.1@, commitment: tx::opt_view(w.2) }
}

/// The transaction that a tuple holds.
pub open spec fn wire_tx(w: WireTx) -> tx::TxView {
    tx::TxView {
        version: w.0,
        is_anonymous: w.1,
        inputs: w.2@.map_values(|i: WireInput| wire_input(i)),
        outputs: w.3@.map_values(|o: WireOutput| wire_output(o)),
        lock_time: w.4,
        range_proofs: w.5@.map_values(|p: Vec<u8>| p@),
    }
}

/// The header that a tuple holds.
pub open spec fn wire_header(w: WireHeader) -> BlockHeader {
    BlockHeader {
        version: w.0,
        prev_hash: w.1,
        merkle_root: w.2,
        timestamp: w.3,
        bits: w.4,
        nonce: w.5,
    }
}

/// The block that a tuple holds.
pub open spec fn wire_block(w: WireBlock) -> tx::BlockView {
    tx::BlockView {
        header: wire_header(w.0),
        txs: w.1@.map_values(|t: WireTx| wire_tx(t)),
    }
}

// ---------------------------------------------------------------------------
// The calls into the crate
// ---------------------------------------------------------------------------

/// `bincode::serialize` of an output writes the format; it has no size limit,
/// so it does not fail.
#[verifier::external_body]
fn bincode_output(w: &WireOutput) -> (r: Vec<u8>)
    ensures
        r@ == enc_output(wire_output(*w)),
{
    bincode::serialize(w).expect("plain values serialize")
}

/// `bincode::serialize` of a transaction writes the format.
#[verifier::external_body]
fn bincode_tx(w: &WireTx) -> (r: Vec<u8>)
    ensures
        r@ == enc_tx(wire_tx(*w)),
{
    bincode::serialize(w).expect("plain values serialize")
}

/// `bincode::serialize` of a header writes the format.
#[verifier::external_body]
fn bincode_header(w: &WireHeader) -> (r: Vec<u8>)
    ensures
        r@ == enc_header(wire_header(*w)),
{
    bincode::serialize(w).expect("plain values serialize")
}

/// `bincode::serialize` of a header without its nonce writes the format.
#[verifier::external_body]
fn bincode_header_base(w: &(u32, [u8; 32], [u8; 32], u32, u32)) -> (r: Vec<u8>)
    ensures
        r@ == enc_header_base(w.0, w.1@, w.2@, w.3, w.4),
{
    bincode::serialize(w).expect("plain values serialize")
}

/// `bincode::serialize` of a block writes the format.
#[verifier::external_body]
fn bincode_block(w: &WireBlock) -> (r: Vec<u8>)
    ensures
        r@ == enc_block(wire_block(*w)),
{
    bincode::serialize(w).expect("plain values serialize")
}

/// `bincode::serialize` of a position writes the format.
#[verifier::external_body]
fn bincode_position(w: &(u64, u64)) -> (r: Vec<u8>)
    ensures
        r@ == enc_position(*w),
{
    bincode::serialize(w).expect("plain values serialize")
}

/// `bincode::serialize` of a list of headers writes the format.
#[verifier::external_body]
fn bincode_headers(w: &Vec<WireHeader>) -> (r: Vec<u8>)
    ensures
        r@ == enc_headers(w@.map_values(|h: WireHeader| wire_header(h))),
{
    bincode::serialize(w).expect("plain values serialize")
}

/// `bincode::serialize` of a list of transactions writes the format; it has no
/// size limit, so it does not fail.
#[verifier::external_body]
fn bincode_txs(w: &Vec<WireTx>) -> (r: Vec<u8>)
    ensures
        r@ == enc_txs(w@.map_values(|t: WireTx| wire_tx(t))),
{
    bincode::serialize(w).expect("plain values serialize")
}

/// `bincode::serialize` of a list of strings writes the format.
#[verifier::external_body]
fn bincode_strings(w: &Vec<String>) -> (r: Vec<u8>)
    ensures
        r@ == enc_strings(w@.map_values(|s: String| s@)),
{
    bincode::serialize(w).expect("plain values serialize")
}

/// `bincode::deserialize` to an output: what the bytes begin with, whatever
/// follows it; it fails where they begin with no output.
#[verifier::external_body]
fn unbincode_output(b: &[u8]) -> (r: Option<WireOutput>)
    ensures
        match r {
            Some(w) => enc_output(wire_output(w)).is_prefix_of(b@),
            None => forall|o: tx::OutputView| !(#[trigger] enc_output(o)).is_prefix_of(b@),
        },
{
    bincode::deserialize(b).ok()
}

/// `bincode::deserialize` to a transaction: what the bytes begin with,
/// whatever follows it; it fails where they begin with no transaction.
#[verifier::external_body]
fn unbincode_tx(b: &[u8]) -> (r: Option<WireTx>)
    ensures
        match r {
            Some(w) => enc_tx(wire_tx(w)).is_prefix_of(b@),
            None => forall|t: tx::TxView| !(#[trigger] enc_tx(t)).is_prefix_of(b@),
        },
{
    bincode::deserialize(b).ok()
}

/// `bincode::deserialize` to a header: what the bytes begin with, whatever
/// follows it; it fails where they begin with no header.
#[verifier::external_body]
fn unbincode_header(b: &[u8]) -> (r: Option<WireHeader>)
    ensures
        match r {
            Some(w) => enc_header(wire_header(w)).is_prefix_of(b@),
            None => forall|h: BlockHeader| !(#[trigger] enc_header(h)).is_prefix_of(b@),
        },
{
    bincode::deserialize(b).ok()
}

/// `bincode::deserialize` to a block: what the bytes begin with, whatever
/// follows it; it fails where they begin with no block.
#[verifier::external_body]
fn unbincode_block(b: &[u8]) -> (r: Option<WireBlock>)
    ensures
        match r {
            Some(w) => enc_block(wire_block(w)).is_prefix_of(b@),
            None => forall|k: tx::BlockView| !(#[trigger] enc_block(k)).is_prefix_of(b@),
        },
{
    bincode::deserialize(b).ok()
}

/// `bincode::deserialize` to a position: what the bytes begin with, whatever
/// follows it; it fails where they begin with no position.
#[verifier::external_body]
fn unbincode_position(b: &[u8]) -> (r: Option<(u64, u64)>)
    ensures
        match r {
            Some(p) => enc_position(p).is_prefix_of(b@),
            None => forall|p: (u64, u64)| !(#[trigger] enc_position(p)).is_prefix_of(b@),
        },
{
    bincode::deserialize(b).ok()
}

/// `bincode::deserialize` to a list of headers: what the bytes begin with,
/// whatever follows it; it fails where they begin with no such list.
#[verifier::external_body]
fn unbincode_headers(b: &[u8]) -> (r: Option<Vec<WireHeader>>)
    ensures
        match r {
            Some(w) => enc_headers(w@.map_values(|h: WireHeader| wire_header(h))).is_prefix_of(b@),
            None => forall|s: Seq<BlockHeader>| !(#[trigger] enc_headers(s)).is_prefix_of(b@),
        },
{
    bincode::deserialize(b).ok()
}

/// `bincode::deserialize` reads the list of transactions that the bytes begin
/// with, and fails only where they begin with none.
#[verifier::external_body]
fn unbincode_txs(b: &[u8]) -> (r: Option<Vec<WireTx>>)
    ensures
        match r {
            Some(w) => enc_txs(w@.map_values(|t: WireTx| wire_tx(t))).is_prefix_of(b@),
            None => forall|s: Seq<tx::TxView>| !(#[trigger] enc_txs(s)).is_prefix_of(b@),
        },
{
    bincode::deserialize(b).ok()
}

/// `bincode::deserialize` to a list of strings: what the bytes begin with,
/// whatever follows it; it fails where they begin with no such list.
#[verifier::external_body]
fn unbincode_strings(b: &[u8]) -> (r: Option<Vec<String>>)
    ensures
        match r {
            Some(w) => enc_strings(w@.map_values(|s: String| s@)).is_prefix_of(b@),
            None => forall|s: Seq<Seq<char>>| !(#[trigger] enc_strings(s)).is_prefix_of(b@),
        },
{
    bincode::deserialize(b).ok()
}

// ---------------------------------------------------------------------------
// Between values and tuples
// ---------------------------------------------------------------------------

fn input_to_wire(i: &TXInput) -> (w: WireInput)
    ensures
        wire_input(w) == i@,
{
    (i.txid, i.vout, copy_bytes(i.script_sig.as_slice()), i.sequence)
}

fn output_to_wire(o: &TXOutput) -> (w: WireOutput)
    ensures
        wire_output(w) == o@,
{
    (o.value, copy_bytes(o.script_pubkey.as_slice()), copy_opt(&o.commitment))
}

fn tx_to_wire(t: &Transaction) -> (w: WireTx)
    ensures
        wire_tx(w) == t@,
{
    let mut inputs: Vec<WireInput> = Vec::new();
    let mut i: usize = 0;
    while i < t.inputs.len()
        invariant
            i <= t.inputs@.len(),
            inputs@.len() == i,
            forall|j: int|
                0 <= j < i ==> wire_input(#[trigger] inputs@[j]) == t.inputs@[j]@,
        decreases t.inputs@.len() - i,
    {
        inputs.push(input_to_wire(&t.inputs[i]));
        i += 1;
    }
    let mut outputs: Vec<WireOutput> = Vec::new();
    let mut k: usize = 0;
    while k < t.outputs.len()
        invariant
            k <= t.outputs@.len(),
            outputs@.len() == k,
            forall|j: int|
                0 <= j < k ==> wire_output(#[trigger] outputs@[j]) == t.outputs@[j]@,
        decreases t.outputs@.len() - k,
    {
        outputs.push(output_to_wire(&t.outputs[k]));
        k += 1;
    }
    let w: WireTx = (
        t.version,
        t.is_anonymous,
        inputs,
        outputs,
        t.lock_time,
        copy_strings(&t.range_proofs),
    );
    assert(wire_tx(w).inputs =~= t@.inputs);
    assert(wire_tx(w).outputs =~= t@.outputs);
    w
}

fn header_to_wire(h: &BlockHeader) -> (w: WireHeader)
    ensures
        wire_header(w) == *h,
{
    (h.version, h.prev_hash, h.merkle_root, h.timestamp, h.bits, h.nonce)
}

pub(crate) fn block_to_wire(b: &Block) -> (w: WireBlock)
    ensures
        wire_block(w) == b@,
{
    let mut txs: Vec<WireTx> = Vec::new();
    let mut i: usize = 0;
    while i < b.txs.len()
        invariant
            i <= b.txs@.len(),
            txs@.len() == i,
            forall|j: int| 0 <= j < i ==> wire_tx(#[trigger] txs@[j]) == b.txs@[j]@,
        decreases b.txs@.len() - i,
    {
        txs.push(tx_to_wire(&b.txs[i]));
        i += 1;
    }
    let w: WireBlock = (header_to_wire(&b.header), txs);
    assert(wire_block(w).txs =~= b@.txs);
    w
}

fn input_from_wire(w: &WireInput) -> (i: TXInput)
    ensures
        i@ == wire_input(*w),
{
    TXInput { txid: w.0, vout: w.1, script_sig: copy_bytes(w.2.as_slice()), sequence: w.3 }
}

fn output_from_wire(w: &WireOutput) -> (o: TXOutput)
    ensures
        o@ == wire_output(*w),
{
    TXOutput {
        value: w.0,
        script_pubkey: copy_bytes(w.1.as_slice()),
        commitment: copy_opt(&w.2),
    }
}

fn tx_from_wire(w: &WireTx) -> (t: Transaction)
    ensures
        t@ == wire_tx(*w),
{
    let mut inputs: Vec<TXInput> = Vec::new();
    let mut i: usize = 0;
    while i < w.2.len()
        invariant
            i <= w.2@.len(),
            inputs@.len() == i,
            forall|j: int| 0 <= j < i ==> (#[trigger] inputs@[j])@ == wire_input(w.2@[j]),
        decreases w.2@.len() - i,
    {
        inputs.push(input_from_wire(&w.2[i]));
        i += 1;
    }
    let mut outputs: Vec<TXOutput> = Vec::new();
    let mut k: usize = 0;
    while k < w.3.len()
        invariant
            k <= w.3@.len(),
            outputs@.len() == k,
            forall|j: int| 0 <= j < k ==> (#[trigger] outputs@[j])@ == wire_output(w.3@[j]),
        decreases w.3@.len() - k,
    {
        outputs.push(output_from_wire(&w.3[k]));
        k += 1;
    }
    let t = Transaction {
        version: w.0,
        is_anonymous: w.1,
        inputs,
        outputs,
        lock_time: w.4,
        range_proofs: copy_strings(&w.5),
    };
    assert(t@.inputs =~= wire_tx(*w).inputs);
    assert(t@.outputs =~= wire_tx(*w).outputs);
    t
}

fn header_from_wire(w: &WireHeader) -> (h: BlockHeader)
    ensures
        h == wire_header(*w),
{
    BlockHeader {
        version: w.0,
        prev_hash: w.1,
        merkle_root: w.2,
        timestamp: w.3,
        bits: w.4,
        nonce: w.5,
    }
}

pub(crate) fn block_from_wire(w: &WireBlock) -> (b: Block)
    ensures
        b@ == wire_block(*w),
{
    let mut txs: Vec<Transaction> = Vec::new();
    let mut i: usize = 0;
    while i < w.1.len()
        invariant
            i <= w.1@.len(),
            txs@.len() == i,
            forall|j: int| 0 <= j < i ==> (#[trigger] txs@[j])@ == wire_tx(w.1@[j]),
        decreases w.1@.len() - i,
    {
        txs.push(tx_from_wire(&w.1[i]));
        i += 1;
    }
    let b = Block { header: header_from_wire(&w.0), txs };
    assert(b@.txs =~= wire_block(*w).txs);
    b
}

// ---------------------------------------------------------------------------
// Writing
// ---------------------------------------------------------------------------

/// The bytes of an output.
pub fn serialize_output(o: &TXOutput) -> (r: Vec<u8>)
    ensures
        r@ == enc_output(o@),
{
    bincode_output(&output_to_wire(o))
}

/// The bytes of a transaction.
pub fn serialize_tx(t: &Transaction) -> (r: Vec<u8>)
    ensures
        r@ == enc_tx(t@),
{
    bincode_tx(&tx_to_wire(t))
}

/// The bytes of a header.
pub fn serialize_header(h: &BlockHeader) -> (r: Vec<u8>)
    ensures
        r@ == enc_header(*h),
{
    bincode_header(&header_to_wire(h))
}

/// The bytes of a header up to its nonce.
pub fn serialize_header_base(h: &BlockHeader) -> (r: Vec<u8>)
    ensures
        r@ == enc_header_base(h.version, h.prev_hash@, h.merkle_root@, h.timestamp, h.bits),
{
    bincode_header_base(&(h.version, h.prev_hash, h.merkle_root, h.timestamp, h.bits))
}

/// The bytes of a block.
pub fn serialize_block(b: &Block) -> (r: Vec<u8>)
    ensures
        r@ == enc_block(b@),
{
    bincode_block(&block_to_wire(b))
}

/// The bytes of a position.
pub fn serialize_position(height: u64, index: u64) -> (r: Vec<u8>)
    ensures
        r@ == enc_position((height, index)),
{
    bincode_position(&(height, index))
}

/// The bytes of a list of headers.
pub fn serialize_headers(v: &Vec<BlockHeader>) -> (r: Vec<u8>)
    ensures
        r@ == enc_headers(v@),
{
    let mut w: Vec<WireHeader> = Vec::new();
    let mut i: usize = 0;
    while i < v.len()
        invariant
            i <= v@.len(),
            w@.len() == i,
            forall|j: int| 0 <= j < i ==> wire_header(#[trigger] w@[j]) == v@[j],
        decreases v@.len() - i,
    {
        w.push(header_to_wire(&v[i]));
        i += 1;
    }
    assert(w@.map_values(|h: WireHeader| wire_header(h)) =~= v@);
    bincode_headers(&w)
}

/// The bytes of a list of transactions.
pub fn serialize_txs(v: &Vec<Transaction>) -> (r: Vec<u8>)
    ensures
        r@ == enc_txs(v@.map_values(|t: Transaction| t@)),
{
    let mut w: Vec<WireTx> = Vec::new();
    let mut i: usize = 0;
    while i < v.len()
        invariant
            i <= v@.len(),
            w@.len() == i,
            forall|j: int| 0 <= j < i ==> wire_tx(#[trigger] w@[j]) == v@[j]@,
        decreases v@.len() - i,
    {
        w.push(tx_to_wire(&v[i]));
        i += 1;
    }
    assert(w@.map_values(|t: WireTx| wire_tx(t)) =~= v@.map_values(|t: Transaction| t@));
    bincode_txs(&w)
}

/// The bytes of a list of strings.
pub fn serialize_strings(v: &Vec<String>) -> (r: Vec<u8>)
    ensures
        r@ == enc_strings(v@.map_values(|s: String| s@)),
{
    bincode_strings(v)
}

// ---------------------------------------------------------------------------
// Every encoding can be told from what follows it
// ---------------------------------------------------------------------------

/// What is written by `f` and followed by anything can be read in one way
/// only.
pub open spec fn self_delimiting<T>(f: spec_fn(T) -> Seq<u8>) -> bool {
    forall|x: T, y: T, a: Seq<u8>, b: Seq<u8>|
        #![trigger f(x) + a, f(y) + b]
        f(x) + a == f(y) + b && (f(x) + a).len() < bytes::pow256(8) ==> x == y && a == b
}

pub(crate) proof fn lemma_same_head(x: Seq<u8>, y: Seq<u8>, a: Seq<u8>, b: Seq<u8>)
    requires
        x + a == y + b,
        x.len() == y.len(),
    ensures
        x == y,
        a == b,
{
    assert(x =~= (x + a).take(x.len() as int));
    assert(y =~= (y + b).take(x.len() as int));
    assert(a =~= (x + a).skip(x.len() as int));
    assert(b =~= (y + b).skip(x.len() as int));
}

proof fn lemma_number_head(x: nat, y: nat, n: nat, a: Seq<u8>, b: Seq<u8>)
    requires
        bytes::le_bytes(x, n) + a == bytes::le_bytes(y, n) + b,
        x < bytes::pow256(n),
        y < bytes::pow256(n),
    ensures
        x == y,
        a == b,
{
    bytes::lemma_le_bytes_len(x, n);
    bytes::lemma_le_bytes_len(y, n);
    lemma_same_head(bytes::le_bytes(x, n), bytes::le_bytes(y, n), a, b);
    bytes::lemma_le_read_write(x, n);
    bytes::lemma_le_read_write(y, n);
}

proof fn lemma_u32_head(x: u32, y: u32, a: Seq<u8>, b: Seq<u8>)
    requires
        enc_u32(x) + a == enc_u32(y) + b,
    ensures
        x == y,
        a == b,
{
    bytes::lemma_pow256_values();
    lemma_number_head(x as nat, y as nat, 4, a, b);
}

pub(crate) proof fn lemma_u64_head(x: u64, y: u64, a: Seq<u8>, b: Seq<u8>)
    requires
        enc_u64(x) + a == enc_u64(y) + b,
    ensures
        x == y,
        a == b,
{
    bytes::lemma_pow256_values();
    lemma_number_head(x as nat, y as nat, 8, a, b);
}

pub(crate) proof fn lemma_bytes_head(x: Seq<u8>, y: Seq<u8>, a: Seq<u8>, b: Seq<u8>)
    requires
        enc_bytes(x) + a == enc_bytes(y) + b,
        (enc_bytes(x) + a).len() < bytes::pow256(8),
    ensures
        x == y,
        a == b,
{
    assert(enc_bytes(x) + a =~= enc_len(x.len()) + (x + a));
    assert(enc_bytes(y) + b =~= enc_len(y.len()) + (y + b));
    lemma_number_head(x.len(), y.len(), 8, x + a, y + b);
    lemma_same_head(x, y, a, b);
}

proof fn lemma_opt_head(x: Option<Seq<u8>>, y: Option<Seq<u8>>, a: Seq<u8>, b: Seq<u8>)
    requires
        enc_opt_bytes(x) + a == enc_opt_bytes(y) + b,
        (enc_opt_bytes(x) + a).len() < bytes::pow256(8),
    ensures
        x == y,
        a == b,
{
    assert((enc_opt_bytes(x) + a)[0] == enc_opt_bytes(x)[0]);
    assert((enc_opt_bytes(y) + b)[0] == enc_opt_bytes(y)[0]);
    match (x, y) {
        (Some(s), Some(t)) => {
            assert(enc_opt_bytes(x) + a =~= seq![1u8] + (enc_bytes(s) + a));
            assert(enc_opt_bytes(y) + b =~= seq![1u8] + (enc_bytes(t) + b));
            lemma_same_head(seq![1u8], seq![1u8], enc_bytes(s) + a, enc_bytes(t) + b);
            lemma_bytes_head(s, t, a, b);
        },
        (None, None) => {
            lemma_same_head(seq![0u8], seq![0u8], a, b);
        },
        (Some(s), None) => {
            assert(enc_opt_bytes(x)[0] == 1u8);
            assert(enc_opt_bytes(y)[0] == 0u8);
        },
        (None, Some(t)) => {
            assert(enc_opt_bytes(x)[0] == 0u8);
            assert(enc_opt_bytes(y)[0] == 1u8);
        },
    }
}

proof fn lemma_items_head<T>(
    s: Seq<T>,
    t: Seq<T>,
    f: spec_fn(T) -> Seq<u8>,
    a: Seq<u8>,
    b: Seq<u8>,
)
    requires
        self_delimiting(f),
        s.len() == t.len(),
        enc_items(s, f) + a == enc_items(t, f) + b,
        (enc_items(s, f) + a).len() < bytes::pow256(8),
    ensures
        s == t,
        a == b,
    decreases s.len(),
{
    if s.len() == 0 {
        assert(enc_items(s, f) + a =~= a);
        assert(enc_items(t, f) + b =~= b);
        assert(s =~= t);
    } else {
        let x = enc_items(s.skip(1), f) + a;
        let y = enc_items(t.skip(1), f) + b;
        assert(enc_items(s, f) + a =~= f(s[0]) + x);
        assert(enc_items(t, f) + b =~= f(t[0]) + y);
        lemma_items_head(s.skip(1), t.skip(1), f, a, b);
        assert(s =~= seq![s[0]] + s.skip(1));
        assert(t =~= seq![t[0]] + t.skip(1));
    }
}

proof fn lemma_items_len<T>(s: Seq<T>, f: spec_fn(T) -> Seq<u8>)
    requires
        forall|x: T| (#[trigger] f(x)).len() > 0,
    ensures
        s.len() <= enc_items(s, f).len(),
    decreases s.len(),
{
    if s.len() > 0 {
        lemma_items_len(s.skip(1), f);
    }
}

proof fn lemma_list_head<T>(
    s: Seq<T>,
    t: Seq<T>,
    f: spec_fn(T) -> Seq<u8>,
    a: Seq<u8>,
    b: Seq<u8>,
)
    requires
        self_delimiting(f),
        forall|x: T| (#[trigger] f(x)).len() > 0,
        enc_list(s, f) + a == enc_list(t, f) + b,
        (enc_list(s, f) + a).len() < bytes::pow256(8),
    ensures
        s == t,
        a == b,
{
    lemma_items_len(s, f);
    lemma_items_len(t, f);
    assert(enc_list(s, f) + a =~= enc_len(s.len()) + (enc_items(s, f) + a));
    assert(enc_list(t, f) + b =~= enc_len(t.len()) + (enc_items(t, f) + b));
    lemma_number_head(s.len(), t.len(), 8, enc_items(s, f) + a, enc_items(t, f) + b);
    lemma_items_head(s, t, f, a, b);
}

proof fn lemma_input_head(x: tx::InputView, y: tx::InputView, a: Seq<u8>, b: Seq<u8>)
    requires
        enc_input(x) + a == enc_input(y) + b,
        (enc_input(x) + a).len() < bytes::pow256(8),
    ensures
        x == y,
        a == b,
{
    let x1 = enc_u32(x.sequence) + a;
    let y1 = enc_u32(y.sequence) + b;
    let x2 = enc_bytes(x.script_sig) + x1;
    let y2 = enc_bytes(y.script_sig) + y1;
    let x3 = enc_u32(x.vout) + x2;
    let y3 = enc_u32(y.vout) + y2;
    assert(enc_input(x) + a =~= x.txid@ + x3);
    assert(enc_input(y) + b =~= y.txid@ + y3);
    lemma_same_head(x.txid@, y.txid@, x3, y3);
    bytes::lemma_id_ext(x.txid, y.txid);
    lemma_u32_head(x.vout, y.vout, x2, y2);
    lemma_bytes_head(x.script_sig, y.script_sig, x1, y1);
    lemma_u32_head(x.sequence, y.sequence, a, b);
}

proof fn lemma_output_head(x: tx::OutputView, y: tx::OutputView, a: Seq<u8>, b: Seq<u8>)
    requires
        enc_output(x) + a == enc_output(y) + b,
        (enc_output(x) + a).len() < bytes::pow256(8),
    ensures
        x == y,
        a == b,
{
    let x1 = enc_opt_bytes(x.commitment) + a;
    let y1 = enc_opt_bytes(y.commitment) + b;
    let x2 = enc_bytes(x.script_pubkey) + x1;
    let y2 = enc_bytes(y.script_pubkey) + y1;
    assert(enc_output(x) + a =~= enc_u64(x.value) + x2);
    assert(enc_output(y) + b =~= enc_u64(y.value) + y2);
    lemma_u64_head(x.value, y.value, x2, y2);
    lemma_bytes_head(x.script_pubkey, y.script_pubkey, x1, y1);
    lemma_opt_head(x.commitment, y.commitment, a, b);
}

/// A transaction has at least one byte, so do its parts.
proof fn lemma_encodings_nonempty()
    ensures
        forall|i: tx::InputView| (#[trigger] enc_input(i)).len() > 0,
        forall|o: tx::OutputView| (#[trigger] enc_output(o)).len() > 0,
        forall|p: Seq<u8>| (#[trigger] enc_bytes(p)).len() > 0,
        forall|t: tx::TxView| (#[trigger] enc_tx(t)).len() > 0,
        forall|h: BlockHeader| (#[trigger] enc_header(h)).len() == 84,
{
    assert forall|o: tx::OutputView| (#[trigger] enc_output(o)).len() > 0 by {
        bytes::lemma_le_bytes_len(o.value as nat, 8);
    }
    assert forall|p: Seq<u8>| (#[trigger] enc_bytes(p)).len() > 0 by {
        bytes::lemma_le_bytes_len(p.len(), 8);
    }
    assert forall|t: tx::TxView| (#[trigger] enc_tx(t)).len() > 0 by {
        bytes::lemma_le_bytes_len(t.version as nat, 4);
    }
    assert forall|h: BlockHeader| (#[trigger] enc_header(h)).len() == 84 by {
        bytes::lemma_le_bytes_len(h.version as nat, 4);
        bytes::lemma_le_bytes_len(h.timestamp as nat, 4);
        bytes::lemma_le_bytes_len(h.bits as nat, 4);
        bytes::lemma_le_bytes_len(h.nonce as nat, 8);
    }
}

/// A transaction has at least one byte.
pub proof fn lemma_tx_nonempty(t: tx::TxView)
    ensures
        enc_tx(t).len() > 0,
{
    lemma_encodings_nonempty();
}

proof fn lemma_tx_head(x: tx::TxView, y: tx::TxView, a: Seq<u8>, b: Seq<u8>)
    requires
        enc_tx(x) + a == enc_tx(y) + b,
        (enc_tx(x) + a).len() < bytes::pow256(8),
    ensures
        x == y,
        a == b,
{
    lemma_encodings_nonempty();
    let fi = |i: tx::InputView| enc_input(i);
    let fo = |o: tx::OutputView| enc_output(o);
    let fp = |p: Seq<u8>| enc_bytes(p);
    assert(self_delimiting(fi)) by {
        assert forall|x: tx::InputView, y: tx::InputView, a: Seq<u8>, b: Seq<u8>|
            #![trigger fi(x) + a, fi(y) + b]
            fi(x) + a == fi(y) + b && (fi(x) + a).len() < bytes::pow256(8) implies x == y && a
            == b by {
            lemma_input_head(x, y, a, b);
        }
    }
    assert(self_delimiting(fo)) by {
        assert forall|x: tx::OutputView, y: tx::OutputView, a: Seq<u8>, b: Seq<u8>|
            #![trigger fo(x) + a, fo(y) + b]
            fo(x) + a == fo(y) + b && (fo(x) + a).len() < bytes::pow256(8) implies x == y && a
            == b by {
            lemma_output_head(x, y, a, b);
        }
    }
    assert(self_delimiting(fp)) by {
        assert forall|x: Seq<u8>, y: Seq<u8>, a: Seq<u8>, b: Seq<u8>|
            #![trigger fp(x) + a, fp(y) + b]
            fp(x) + a == fp(y) + b && (fp(x) + a).len() < bytes::pow256(8) implies x == y && a
            == b by {
            lemma_bytes_head(x, y, a, b);
        }
    }
    let x1 = enc_list(x.range_proofs, fp) + a;
    let y1 = enc_list(y.range_proofs, fp) + b;
    let x2 = enc_u32(x.lock_time) + x1;
    let y2 = enc_u32(y.lock_time) + y1;
    let x3 = enc_list(x.outputs, fo) + x2;
    let y3 = enc_list(y.outputs, fo) + y2;
    let x4 = enc_list(x.inputs, fi) + x3;
    let y4 = enc_list(y.inputs, fi) + y3;
    let x5 = enc_bool(x.is_anonymous) + x4;
    let y5 = enc_bool(y.is_anonymous) + y4;
    assert(enc_tx(x) + a =~= enc_u32(x.version) + x5);
    assert(enc_tx(y) + b =~= enc_u32(y.version) + y5);
    lemma_u32_head(x.version, y.version, x5, y5);
    lemma_same_head(enc_bool(x.is_anonymous), enc_bool(y.is_anonymous), x4, y4);
    assert(enc_bool(x.is_anonymous)[0] == enc_bool(y.is_anonymous)[0]);
    lemma_list_head(x.inputs, y.inputs, fi, x3, y3);
    lemma_list_head(x.outputs, y.outputs, fo, x2, y2);
    lemma_u32_head(x.lock_time, y.lock_time, x1, y1);
    lemma_list_head(x.range_proofs, y.range_proofs, fp, a, b);
}

proof fn lemma_header_head(x: BlockHeader, y: BlockHeader, a: Seq<u8>, b: Seq<u8>)
    requires
        enc_header(x) + a == enc_header(y) + b,
    ensures
        x == y,
        a == b,
{
    let x1 = enc_u64(x.nonce) + a;
    let y1 = enc_u64(y.nonce) + b;
    let x2 = enc_u32(x.bits) + x1;
    let y2 = enc_u32(y.bits) + y1;
    let x3 = enc_u32(x.timestamp) + x2;
    let y3 = enc_u32(y.timestamp) + y2;
    let x4 = x.merkle_root@ + x3;
    let y4 = y.merkle_root@ + y3;
    let x5 = x.prev_hash@ + x4;
    let y5 = y.prev_hash@ + y4;
    assert(enc_header(x) + a =~= enc_u32(x.version) + x5);
    assert(enc_header(y) + b =~= enc_u32(y.version) + y5);
    lemma_u32_head(x.version, y.version, x5, y5);
    lemma_same_head(x.prev_hash@, y.prev_hash@, x4, y4);
    lemma_same_head(x.merkle_root@, y.merkle_root@, x3, y3);
    bytes::lemma_id_ext(x.prev_hash, y.prev_hash);
    bytes::lemma_id_ext(x.merkle_root, y.merkle_root);
    lemma_u32_head(x.timestamp, y.timestamp, x2, y2);
    lemma_u32_head(x.bits, y.bits, x1, y1);
    lemma_u64_head(x.nonce, y.nonce, a, b);
}

pub(crate) proof fn lemma_block_head(x: tx::BlockView, y: tx::BlockView, a: Seq<u8>, b: Seq<u8>)
    requires
        enc_block(x) + a == enc_block(y) + b,
        (enc_block(x) + a).len() < bytes::pow256(8),
    ensures
        x == y,
        a == b,
{
    lemma_encodings_nonempty();
    let ft = |t: tx::TxView| enc_tx(t);
    assert(self_delimiting(ft)) by {
        assert forall|x: tx::TxView, y: tx::TxView, a: Seq<u8>, b: Seq<u8>|
            #![trigger ft(x) + a, ft(y) + b]
            ft(x) + a == ft(y) + b && (ft(x) + a).len() < bytes::pow256(8) implies x == y && a
            == b by {
            lemma_tx_head(x, y, a, b);
        }
    }
    let x1 = enc_list(x.txs, ft) + a;
    let y1 = enc_list(y.txs, ft) + b;
    assert(enc_block(x) + a =~= enc_header(x.header) + x1);
    assert(enc_block(y) + b =~= enc_header(y.header) + y1);
    lemma_header_head(x.header, y.header, x1, y1);
    lemma_list_head(x.txs, y.txs, ft, a, b);
}

proof fn lemma_headers_head(x: Seq<BlockHeader>, y: Seq<BlockHeader>, a: Seq<u8>, b: Seq<u8>)
    requires
        enc_headers(x) + a == enc_headers(y) + b,
        (enc_headers(x) + a).len() < bytes::pow256(8),
    ensures
        x == y,
        a == b,
{
    lemma_encodings_nonempty();
    let fh = |h: BlockHeader| enc_header(h);
    assert(self_delimiting(fh)) by {
        assert forall|x: BlockHeader, y: BlockHeader, a: Seq<u8>, b: Seq<u8>|
            #![trigger fh(x) + a, fh(y) + b]
            fh(x) + a == fh(y) + b && (fh(x) + a).len() < bytes::pow256(8) implies x == y && a
            == b by {
            lemma_header_head(x, y, a, b);
        }
    }
    lemma_list_head(x, y, fh, a, b);
}

proof fn lemma_strings_head(x: Seq<Seq<char>>, y: Seq<Seq<char>>, a: Seq<u8>, b: Seq<u8>)
    requires
        enc_strings(x) + a == enc_strings(y) + b,
        (enc_strings(x) + a).len() < bytes::pow256(8),
    ensures
        x == y,
        a == b,
{
    lemma_encodings_nonempty();
    let fs = |s: Seq<char>| enc_string(s);
    assert(self_delimiting(fs)) by {
        assert forall|x: Seq<char>, y: Seq<char>, a: Seq<u8>, b: Seq<u8>|
            #![trigger fs(x) + a, fs(y) + b]
            fs(x) + a == fs(y) + b && (fs(x) + a).len() < bytes::pow256(8) implies x == y && a
            == b by {
            lemma_bytes_head(
                vstd::utf8::encode_utf8(x),
                vstd::utf8::encode_utf8(y),
                a,
                b,
            );
            vstd::utf8::encode_utf8_decode_utf8(x);
            vstd::utf8::encode_utf8_decode_utf8(y);
        }
    }
    lemma_list_head(x, y, fs, a, b);
}

/// What two readings of the same bytes have in common: the bytes after a
/// prefix.
pub(crate) proof fn lemma_prefix_rest(p: Seq<u8>, s: Seq<u8>)
    requires
        p.is_prefix_of(s),
    ensures
        p + s.skip(p.len() as int) == s,
{
    assert(p + s.skip(p.len() as int) =~= s);
}

// ---------------------------------------------------------------------------
// Reading gives back what was written
// ---------------------------------------------------------------------------

/// The output that `b` begins with.
pub open spec fn read_output(b: Seq<u8>) -> Option<tx::OutputView> {
    if exists|o: tx::OutputView| (#[trigger] enc_output(o)).is_prefix_of(b) {
        Some(choose|o: tx::OutputView| (#[trigger] enc_output(o)).is_prefix_of(b))
    } else {
        None
    }
}

/// The transaction that `b` begins with.
pub open spec fn read_tx(b: Seq<u8>) -> Option<tx::TxView> {
    if exists|t: tx::TxView| (#[trigger] enc_tx(t)).is_prefix_of(b) {
        Some(choose|t: tx::TxView| (#[trigger] enc_tx(t)).is_prefix_of(b))
    } else {
        None
    }
}

/// The header that `b` begins with.
pub open spec fn read_header(b: Seq<u8>) -> Option<BlockHeader> {
    if exists|h: BlockHeader| (#[trigger] enc_header(h)).is_prefix_of(b) {
        Some(choose|h: BlockHeader| (#[trigger] enc_header(h)).is_prefix_of(b))
    } else {
        None
    }
}

/// The block that `b` begins with.
pub open spec fn read_block(b: Seq<u8>) -> Option<tx::BlockView> {
    if exists|k: tx::BlockView| (#[trigger] enc_block(k)).is_prefix_of(b) {
        Some(choose|k: tx::BlockView| (#[trigger] enc_block(k)).is_prefix_of(b))
    } else {
        None
    }
}

/// The position that `b` begins with.
pub open spec fn read_position(b: Seq<u8>) -> Option<(u64, u64)> {
    if exists|p: (u64, u64)| (#[trigger] enc_position(p)).is_prefix_of(b) {
        Some(choose|p: (u64, u64)| (#[trigger] enc_position(p)).is_prefix_of(b))
    } else {
        None
    }
}

/// The list of headers that `b` begins with.
pub open spec fn read_headers(b: Seq<u8>) -> Option<Seq<BlockHeader>> {
    if exists|s: Seq<BlockHeader>| (#[trigger] enc_headers(s)).is_prefix_of(b) {
        Some(choose|s: Seq<BlockHeader>| (#[trigger] enc_headers(s)).is_prefix_of(b))
    } else {
        None
    }
}

/// The list of transactions that `b` begins with.
pub open spec fn read_txs(b: Seq<u8>) -> Option<Seq<tx::TxView>> {
    if exists|s: Seq<tx::TxView>| (#[trigger] enc_txs(s)).is_prefix_of(b) {
        Some(choose|s: Seq<tx::TxView>| (#[trigger] enc_txs(s)).is_prefix_of(b))
    } else {
        None
    }
}

/// The list of strings that `b` begins with.
pub open spec fn read_strings(b: Seq<u8>) -> Option<Seq<Seq<char>>> {
    if exists|s: Seq<Seq<char>>| (#[trigger] enc_strings(s)).is_prefix_of(b) {
        Some(choose|s: Seq<Seq<char>>| (#[trigger] enc_strings(s)).is_prefix_of(b))
    } else {
        None
    }
}

/// Bytes of a length that fits a machine begin with at most one output:
/// reading gives back the output that was written, whatever follows it.
pub proof fn law_read_output(o: tx::OutputView, b: Seq<u8>)
    requires
        enc_output(o).is_prefix_of(b),
        b.len() < bytes::pow256(8),
    ensures
        read_output(b) == Some(o),
{
    let p = choose|p: tx::OutputView| (#[trigger] enc_output(p)).is_prefix_of(b);
    lemma_prefix_rest(enc_output(o), b);
    lemma_prefix_rest(enc_output(p), b);
    lemma_output_head(
        o,
        p,
        b.skip(enc_output(o).len() as int),
        b.skip(enc_output(p).len() as int),
    );
}

/// Bytes of a length that fits a machine begin with at most one transaction:
/// reading gives back the transaction that was written, whatever follows it.
pub proof fn law_read_tx(t: tx::TxView, b: Seq<u8>)
    requires
        enc_tx(t).is_prefix_of(b),
        b.len() < bytes::pow256(8),
    ensures
        read_tx(b) == Some(t),
{
    let p = choose|p: tx::TxView| (#[trigger] enc_tx(p)).is_prefix_of(b);
    lemma_prefix_rest(enc_tx(t), b);
    lemma_prefix_rest(enc_tx(p), b);
    lemma_tx_head(t, p, b.skip(enc_tx(t).len() as int), b.skip(enc_tx(p).len() as int));
}

/// Bytes begin with at most one header: reading gives back the header that
/// was written, whatever follows it.
pub proof fn law_read_header(h: BlockHeader, b: Seq<u8>)
    requires
        enc_header(h).is_prefix_of(b),
    ensures
        read_header(b) == Some(h),
{
    let p = choose|p: BlockHeader| (#[trigger] enc_header(p)).is_prefix_of(b);
    lemma_prefix_rest(enc_header(h), b);
    lemma_prefix_rest(enc_header(p), b);
    lemma_header_head(
        h,
        p,
        b.skip(enc_header(h).len() as int),
        b.skip(enc_header(p).len() as int),
    );
}

/// Bytes of a length that fits a machine begin with at most one block:
/// reading gives back the block that was written, whatever follows it.
pub proof fn law_read_block(k: tx::BlockView, b: Seq<u8>)
    requires
        enc_block(k).is_prefix_of(b),
        b.len() < bytes::pow256(8),
    ensures
        read_block(b) == Some(k),
{
    let p = choose|p: tx::BlockView| (#[trigger] enc_block(p)).is_prefix_of(b);
    lemma_prefix_rest(enc_block(k), b);
    lemma_prefix_rest(enc_block(p), b);
    lemma_block_head(k, p, b.skip(enc_block(k).len() as int), b.skip(enc_block(p).len() as int));
}

/// Bytes begin with at most one position: reading gives back the position
/// that was written, whatever follows it.
pub proof fn law_read_position(p: (u64, u64), b: Seq<u8>)
    requires
        enc_position(p).is_prefix_of(b),
    ensures
        read_position(b) == Some(p),
{
    let q = choose|q: (u64, u64)| (#[trigger] enc_position(q)).is_prefix_of(b);
    lemma_prefix_rest(enc_position(p), b);
    lemma_prefix_rest(enc_position(q), b);
    let pr = b.skip(enc_position(p).len() as int);
    let qr = b.skip(enc_position(q).len() as int);
    assert(enc_position(p) + pr =~= enc_u64(p.0) + (enc_u64(p.1) + pr));
    assert(enc_position(q) + qr =~= enc_u64(q.0) + (enc_u64(q.1) + qr));
    lemma_u64_head(p.0, q.0, enc_u64(p.1) + pr, enc_u64(q.1) + qr);
    lemma_u64_head(p.1, q.1, pr, qr);
}

/// Bytes of a length that fits a machine begin with at most one list of
/// headers: reading gives back the list that was written, whatever follows it.
pub proof fn law_read_headers(s: Seq<BlockHeader>, b: Seq<u8>)
    requires
        enc_headers(s).is_prefix_of(b),
        b.len() < bytes::pow256(8),
    ensures
        read_headers(b) == Some(s),
{
    let p = choose|p: Seq<BlockHeader>| (#[trigger] enc_headers(p)).is_prefix_of(b);
    lemma_prefix_rest(enc_headers(s), b);
    lemma_prefix_rest(enc_headers(p), b);
    lemma_headers_head(
        s,
        p,
        b.skip(enc_headers(s).len() as int),
        b.skip(enc_headers(p).len() as int),
    );
}

/// Bytes of a length that fits a machine begin with at most one list of
/// transactions: reading gives back the list that was written, whatever
/// follows it.
pub proof fn law_read_txs(s: Seq<tx::TxView>, b: Seq<u8>)
    requires
        enc_txs(s).is_prefix_of(b),
        b.len() < bytes::pow256(8),
    ensures
        read_txs(b) == Some(s),
{
    let p = choose|p: Seq<tx::TxView>| (#[trigger] enc_txs(p)).is_prefix_of(b);
    lemma_prefix_rest(enc_txs(s), b);
    lemma_prefix_rest(enc_txs(p), b);
    lemma_encodings_nonempty();
    let ft = |t: tx::TxView| enc_tx(t);
    assert(self_delimiting(ft)) by {
        assert forall|x: tx::TxView, y: tx::TxView, a: Seq<u8>, b: Seq<u8>|
            #![trigger ft(x) + a, ft(y) + b]
            ft(x) + a == ft(y) + b && (ft(x) + a).len() < bytes::pow256(8) implies x == y && a
            == b by {
            lemma_tx_head(x, y, a, b);
        }
    }
    lemma_list_head(
        s,
        p,
        ft,
        b.skip(enc_txs(s).len() as int),
        b.skip(enc_txs(p).len() as int),
    );
}

/// Bytes of a length that fits a machine begin with at most one list of
/// strings: reading gives back the list that was written, whatever follows it.
pub proof fn law_read_strings(s: Seq<Seq<char>>, b: Seq<u8>)
    requires
        enc_strings(s).is_prefix_of(b),
        b.len() < bytes::pow256(8),
    ensures
        read_strings(b) == Some(s),
{
    let p = choose|p: Seq<Seq<char>>| (#[trigger] enc_strings(p)).is_prefix_of(b);
    lemma_prefix_rest(enc_strings(s), b);
    lemma_prefix_rest(enc_strings(p), b);
    lemma_strings_head(
        s,
        p,
        b.skip(enc_strings(s).len() as int),
        b.skip(enc_strings(p).len() as int),
    );
}

/// Different transactions have different bytes, as long as these fit a
/// machine.
pub proof fn law_tx_bytes_injective(s: tx::TxView, t: tx::TxView)
    requires
        enc_tx(s) == enc_tx(t),
        enc_tx(s).len() < bytes::pow256(8),
    ensures
        s == t,
{
    assert(enc_tx(s).is_prefix_of(enc_tx(s)));
    law_read_tx(s, enc_tx(s));
    law_read_tx(t, enc_tx(s));
}

proof fn lemma_slice_fits(b: &[u8], n: usize)
    requires
        b@.len() == n,
    ensures
        b@.len() < bytes::pow256(8),
{
    bytes::lemma_pow256_values();
}

/// The output that `b` begins with.
pub fn deserialize_output(b: &[u8]) -> (r: Option<TXOutput>)
    ensures
        match r {
            Some(o) => read_output(b@) == Some(o@),
            None => read_output(b@) is None,
        },
{
    let n = b.len();
    match unbincode_output(b) {
        Some(w) => {
            proof {
                lemma_slice_fits(b, n);
                law_read_output(wire_output(w), b@);
            }
            Some(output_from_wire(&w))
        },
        None => None,
    }
}

/// The transaction that `b` begins with.
pub fn deserialize_tx(b: &[u8]) -> (r: Option<Transaction>)
    ensures
        match r {
            Some(t) => read_tx(b@) == Some(t@),
            None => read_tx(b@) is None,
        },
{
    let n = b.len();
    match unbincode_tx(b) {
        Some(w) => {
            proof {
                lemma_slice_fits(b, n);
                law_read_tx(wire_tx(w), b@);
            }
            Some(tx_from_wire(&w))
        },
        None => None,
    }
}

/// The header that `b` begins with.
pub fn deserialize_header(b: &[u8]) -> (r: Option<BlockHeader>)
    ensures
        r == read_header(b@),
{
    match unbincode_header(b) {
        Some(w) => {
            proof {
                law_read_header(wire_header(w), b@);
            }
            Some(header_from_wire(&w))
        },
        None => None,
    }
}

/// The block that `b` begins with.
pub fn deserialize_block(b: &[u8]) -> (r: Option<Block>)
    ensures
        match r {
            Some(k) => read_block(b@) == Some(k@),
            None => read_block(b@) is None,
        },
{
    let n = b.len();
    match unbincode_block(b) {
        Some(w) => {
            proof {
                lemma_slice_fits(b, n);
                law_read_block(wire_block(w), b@);
            }
            Some(block_from_wire(&w))
        },
        None => None,
    }
}

/// The position that `b` begins with.
pub fn deserialize_position(b: &[u8]) -> (r: Option<(u64, u64)>)
    ensures
        r == read_position(b@),
{
    match unbincode_position(b) {
        Some(p) => {
            proof {
                law_read_position(p, b@);
            }
            Some(p)
        },
        None => None,
    }
}

/// The list of headers that `b` begins with.
pub fn deserialize_headers(b: &[u8]) -> (r: Option<Vec<BlockHeader>>)
    ensures
        match r {
            Some(v) => read_headers(b@) == Some(v@),
            None => read_headers(b@) is None,
        },
{
    let n = b.len();
    match unbincode_headers(b) {
        Some(w) => {
            proof {
                lemma_slice_fits(b, n);
                law_read_headers(w@.map_values(|h: WireHeader| wire_header(h)), b@);
            }
            let mut v: Vec<BlockHeader> = Vec::new();
            let mut i: usize = 0;
            while i < w.len()
                invariant
                    i <= w@.len(),
                    v@.len() == i,
                    forall|j: int| 0 <= j < i ==> #[trigger] v@[j] == wire_header(w@[j]),
                decreases w@.len() - i,
            {
                v.push(header_from_wire(&w[i]));
                i += 1;
            }
            assert(v@ =~= w@.map_values(|h: WireHeader| wire_header(h)));
            Some(v)
        },
        None => None,
    }
}

/// The list of transactions that `b` begins with.
pub fn deserialize_txs(b: &[u8]) -> (r: Option<Vec<Transaction>>)
    ensures
        match r {
            Some(v) => read_txs(b@) == Some(v@.map_values(|t: Transaction| t@)),
            None => read_txs(b@) is None,
        },
{
    let n = b.len();
    match unbincode_txs(b) {
        Some(w) => {
            proof {
                lemma_slice_fits(b, n);
                law_read_txs(w@.map_values(|t: WireTx| wire_tx(t)), b@);
            }
            let mut v: Vec<Transaction> = Vec::new();
            let mut i: usize = 0;
            while i < w.len()
                invariant
                    i <= w@.len(),
                    v@.len() == i,
                    forall|j: int| 0 <= j < i ==> (#[trigger] v@[j])@ == wire_tx(w@[j]),
                decreases w@.len() - i,
            {
                v.push(tx_from_wire(&w[i]));
                i += 1;
            }
            assert(v@.map_values(|t: Transaction| t@) =~= w@.map_values(
                |t: WireTx| wire_tx(t),
            ));
            Some(v)
        },
        None => None,
    }
}

/// The list of strings that `b` begins with.
pub fn deserialize_strings(b: &[u8]) -> (r: Option<Vec<String>>)
    ensures
        match r {
            Some(v) => read_strings(b@) == Some(v@.map_values(|s: String| s@)),
            None => read_strings(b@) is None,
        },
{
    let n = b.len();
    match unbincode_strings(b) {
        Some(w) => {
            proof {
                lemma_slice_fits(b, n);
                law_read_strings(w@.map_values(|s: String| s@), b@);
            }
            Some(w)
        },
        None => None,
    }
}

} // verus!
