//! The keys under which the database holds its records.
use crate::bytes;
use crate::bytes::{append_bytes, to_be};
use vstd::prelude::*;

verus! {

/// `u:`, before a transparent output's place.
pub open spec fn utxo_tag() -> Seq<u8> {
    seq![0x75u8, 0x3a]
}

/// `a:`, before an anonymous output's place.
pub open spec fn anon_tag() -> Seq<u8> {
    seq![0x61u8, 0x3a]
}

/// `h:`, before a height that leads to a block's hash.
pub open spec fn height_tag() -> Seq<u8> {
    seq![0x68u8, 0x3a]
}

/// `b:`, before the hash of a block.
pub open spec fn block_tag() -> Seq<u8> {
    seq![0x62u8, 0x3a]
}

/// `hdr:`, before a height that leads to a header.
pub open spec fn header_tag() -> Seq<u8> {
    seq![0x68u8, 0x64, 0x72, 0x3a]
}

/// `addr:`, before the hash of an output's script.
pub open spec fn addr_tag() -> Seq<u8> {
    seq![0x61u8, 0x64, 0x64, 0x72, 0x3a]
}

/// `tip`, the hash of the best block.
pub open spec fn tip_key() -> Seq<u8> {
    seq![0x74u8, 0x69, 0x70]
}

/// `height`, the height of the best block.
pub open spec fn best_height_key() -> Seq<u8> {
    seq![0x68u8, 0x65, 0x69, 0x67, 0x68, 0x74]
}

/// `genesis_hash`, the hash of the first block.
pub open spec fn genesis_key() -> Seq<u8> {
    seq![0x67u8, 0x65, 0x6e, 0x65, 0x73, 0x69, 0x73, 0x5f, 0x68, 0x61, 0x73, 0x68]
}

/// `utxo_set_hash`, the combined hash of the unspent outputs.
pub open spec fn set_hash_key() -> Seq<u8> {
    seq![0x75u8, 0x74, 0x78, 0x6f, 0x5f, 0x73, 0x65, 0x74, 0x5f, 0x68, 0x61, 0x73, 0x68]
}

/// `total_supply`, the sum of the unspent outputs.
pub open spec fn supply_key() -> Seq<u8> {
    seq![0x74u8, 0x6f, 0x74, 0x61, 0x6c, 0x5f, 0x73, 0x75, 0x70, 0x70, 0x6c, 0x79]
}

/// `state:total_supply`, the sum of the subsidies paid.
pub open spec fn issued_key() -> Seq<u8> {
    seq![0x73u8, 0x74, 0x61, 0x74, 0x65, 0x3a] + supply_key()
}

/// `reorg:pending:`, before the name of a journal.
pub open spec fn journal_tag() -> Seq<u8> {
    seq![0x72u8, 0x65, 0x6f, 0x72, 0x67, 0x3a, 0x70, 0x65, 0x6e, 0x64, 0x69, 0x6e, 0x67, 0x3a]
}

/// The tag before the place of an output.
pub open spec fn outpoint_tag(anonymous: bool) -> Seq<u8> {
    if anonymous {
        anon_tag()
    } else {
        utxo_tag()
    }
}

/// The key of an unspent output.
pub open spec fn outpoint_key(anonymous: bool, txid: Seq<u8>, vout: u32) -> Seq<u8> {
    outpoint_tag(anonymous) + txid + bytes::be_bytes(vout as nat, 4)
}

/// The key that leads from a height to the block's hash.
pub open spec fn height_key(height: usize) -> Seq<u8> {
    height_tag() + bytes::be_bytes(height as nat, 8)
}

/// The key of a block.
pub open spec fn block_key(hash: Seq<u8>) -> Seq<u8> {
    block_tag() + hash
}

/// The key of a header.
pub open spec fn header_key(height: usize) -> Seq<u8> {
    header_tag() + bytes::be_bytes(height as nat, 8)
}

/// The key of an output in the index by scripts.
pub open spec fn addr_key(script_hash: Seq<u8>, txid: Seq<u8>, vout: u32) -> Seq<u8> {
    addr_tag() + script_hash + txid + bytes::be_bytes(vout as nat, 4)
}

/// The key of a journal.
pub open spec fn journal_key(name: Seq<u8>) -> Seq<u8> {
    journal_tag() + name
}

/// A height as a stored value.
pub open spec fn height_bytes(height: usize) -> Seq<u8> {
    bytes::be_bytes(height as nat, 8)
}

/// The key of an unspent output.
pub fn make_outpoint_key(anonymous: bool, txid: &[u8; 32], vout: u32) -> (r: Vec<u8>)
    ensures
        r@ == outpoint_key(anonymous, txid@, vout),
{
    let mut key: Vec<u8> = if anonymous {
        vec![0x61, 0x3a]
    } else {
        vec![0x75, 0x3a]
    };
    assert(key@ =~= outpoint_tag(anonymous));
    append_bytes(&mut key, txid.as_slice());
    let v = to_be(vout as u128, 4);
    append_bytes(&mut key, v.as_slice());
    key
}

/// The key that leads from a height to the block's hash.
pub fn make_height_key(height: usize) -> (r: Vec<u8>)
    ensures
        r@ == height_key(height),
{
    let mut key: Vec<u8> = vec![0x68, 0x3a];
    assert(key@ =~= height_tag());
    let v = to_be(height as u128, 8);
    append_bytes(&mut key, v.as_slice());
    key
}

/// The key of a block.
pub fn make_block_key(hash: &[u8]) -> (r: Vec<u8>)
    ensures
        r@ == block_key(hash@),
{
    let mut key: Vec<u8> = vec![0x62, 0x3a];
    assert(key@ =~= block_tag());
    append_bytes(&mut key, hash);
    key
}

/// The key of a header.
pub fn make_header_key(height: usize) -> (r: Vec<u8>)
    ensures
        r@ == header_key(height),
{
    let mut key: Vec<u8> = vec![0x68, 0x64, 0x72, 0x3a];
    assert(key@ =~= header_tag());
    let v = to_be(height as u128, 8);
    append_bytes(&mut key, v.as_slice());
    key
}

/// The key of an output in the index by scripts.
pub fn make_addr_key(script_hash: &[u8; 20], txid: &[u8; 32], vout: u32) -> (r: Vec<u8>)
    ensures
        r@ == addr_key(script_hash@, txid@, vout),
{
    let mut key: Vec<u8> = make_addr_prefix(script_hash);
    append_bytes(&mut key, txid.as_slice());
    let v = to_be(vout as u128, 4);
    append_bytes(&mut key, v.as_slice());
    key
}

/// What the keys of all outputs with one script begin with.
pub fn make_addr_prefix(script_hash: &[u8; 20]) -> (r: Vec<u8>)
    ensures
        r@ == addr_tag() + script_hash@,
{
    let mut key: Vec<u8> = vec![0x61, 0x64, 0x64, 0x72, 0x3a];
    assert(key@ =~= addr_tag());
    append_bytes(&mut key, script_hash.as_slice());
    key
}

/// The key of a journal.
pub fn make_journal_key(name: &[u8]) -> (r: Vec<u8>)
    ensures
        r@ == journal_key(name@),
{
    let mut key: Vec<u8> =
        vec![0x72, 0x65, 0x6f, 0x72, 0x67, 0x3a, 0x70, 0x65, 0x6e, 0x64, 0x69, 0x6e, 0x67, 0x3a];
    assert(key@ =~= journal_tag());
    append_bytes(&mut key, name);
    key
}

/// The key of the best block's hash.
pub fn make_tip_key() -> (r: Vec<u8>)
    ensures
        r@ == tip_key(),
{
    let key: Vec<u8> = vec![0x74, 0x69, 0x70];
    assert(key@ =~= tip_key());
    key
}

/// The key of the best block's height.
pub fn make_best_height_key() -> (r: Vec<u8>)
    ensures
        r@ == best_height_key(),
{
    let key: Vec<u8> = vec![0x68, 0x65, 0x69, 0x67, 0x68, 0x74];
    assert(key@ =~= best_height_key());
    key
}

/// The key of the first block's hash.
pub fn make_genesis_key() -> (r: Vec<u8>)
    ensures
        r@ == genesis_key(),
{
    let key: Vec<u8> =
        vec![0x67, 0x65, 0x6e, 0x65, 0x73, 0x69, 0x73, 0x5f, 0x68, 0x61, 0x73, 0x68];
    assert(key@ =~= genesis_key());
    key
}

/// The key of the combined hash of the unspent outputs.
pub fn make_set_hash_key() -> (r: Vec<u8>)
    ensures
        r@ == set_hash_key(),
{
    let key: Vec<u8> =
        vec![0x75, 0x74, 0x78, 0x6f, 0x5f, 0x73, 0x65, 0x74, 0x5f, 0x68, 0x61, 0x73, 0x68];
    assert(key@ =~= set_hash_key());
    key
}

/// The key of the sum of the unspent outputs.
pub fn make_supply_key() -> (r: Vec<u8>)
    ensures
        r@ == supply_key(),
{
    let key: Vec<u8> =
        vec![0x74, 0x6f, 0x74, 0x61, 0x6c, 0x5f, 0x73, 0x75, 0x70, 0x70, 0x6c, 0x79];
    assert(key@ =~= supply_key());
    key
}

/// The key of the sum of the subsidies paid.
pub fn make_issued_key() -> (r: Vec<u8>)
    ensures
        r@ == issued_key(),
{
    let mut key: Vec<u8> = vec![0x73, 0x74, 0x61, 0x74, 0x65, 0x3a];
    assert(key@ =~= seq![0x73u8, 0x74, 0x61, 0x74, 0x65, 0x3a]);
    let rest = make_supply_key();
    append_bytes(&mut key, rest.as_slice());
    key
}

/// A height as a stored value.
pub fn make_height_bytes(height: usize) -> (r: Vec<u8>)
    ensures
        r@ == height_bytes(height),
{
    to_be(height as u128, 8)
}

/// Two unspent outputs with the same key are the same output.
pub proof fn law_outpoint_key_injective(a: bool, s: Seq<u8>, m: u32, b: bool, t: Seq<u8>, n: u32)
    requires
        outpoint_key(a, s, m) == outpoint_key(b, t, n),
    ensures
        a == b,
        s == t,
        m == n,
{
    let x = outpoint_key(a, s, m);
    let y = outpoint_key(b, t, n);
    bytes::lemma_be_bytes_len(m as nat, 4);
    bytes::lemma_be_bytes_len(n as nat, 4);
    assert(x[0] == outpoint_tag(a)[0]);
    assert(y[0] == outpoint_tag(b)[0]);
    let end = x.len() as int;
    assert(x.subrange(2, end - 4) =~= s);
    assert(y.subrange(2, end - 4) =~= t);
    assert(x.subrange(end - 4, end) =~= bytes::be_bytes(m as nat, 4));
    assert(y.subrange(end - 4, end) =~= bytes::be_bytes(n as nat, 4));
    bytes::lemma_pow256_values();
    bytes::lemma_be_injective(m as nat, n as nat, 4);
}

/// Two heights with the same key are the same height.
pub proof fn law_height_key_injective(a: usize, b: usize)
    requires
        height_key(a) == height_key(b),
    ensures
        a == b,
{
    bytes::lemma_be_bytes_len(a as nat, 8);
    bytes::lemma_be_bytes_len(b as nat, 8);
    assert(height_key(a).subrange(2, 10) =~= bytes::be_bytes(a as nat, 8));
    assert(height_key(b).subrange(2, 10) =~= bytes::be_bytes(b as nat, 8));
    bytes::lemma_pow256_values();
    bytes::lemma_be_injective(a as nat, b as nat, 8);
}

} // verus!
