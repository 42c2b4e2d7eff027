//! The maps of the transaction pool, kept in the `dashmap` crate.
//!
//! The maps are held by the pool alone, which changes them only through
//! exclusive references, so that what one of them holds does not change behind
//! a shared reference.
use crate::bytes;
use crate::tx;
use crate::tx::Transaction;
use dashmap::DashMap;
use std::collections::hash_map::RandomState;
use std::sync::Arc;
use vstd::prelude::*;

verus! {

/// `dashmap::DashMap`, a map split into shards.
#[verifier::external_type_specification]
#[verifier::external_body]
#[verifier::reject_recursive_types(K)]
#[verifier::reject_recursive_types(V)]
#[verifier::reject_recursive_types(S)]
pub struct ExDashMap<K, V, S>(dashmap::DashMap<K, V, S>);

/// A transaction in the pool.
#[derive(Debug)]
pub struct MempoolEntry {
    /// The transaction.
    pub tx: Arc<Transaction>,
    /// Its fee for each byte.
    pub fee_per_byte: u64,
    /// When it came, in milliseconds.
    pub time: u128,
    /// The transactions in the pool that it depends on, none twice.
    pub depends_on: Vec<[u8; 32]>,
    /// Its fee.
    pub fee: u64,
}

/// What a [`MempoolEntry`] says.
pub struct EntryView {
    pub tx: tx::TxView,
    pub fee_per_byte: u64,
    pub time: u128,
    pub depends_on: Seq<Seq<u8>>,
    pub fee: u64,
}

impl View for MempoolEntry {
    type V = EntryView;

    open spec fn view(&self) -> EntryView {
        EntryView {
            tx: self.tx@,
            fee_per_byte: self.fee_per_byte,
            time: self.time,
            depends_on: tx::ids(self.depends_on@),
            fee: self.fee,
        }
    }
}

/// A copy of a list of identifiers.
pub fn copy_ids(v: &Vec<[u8; 32]>) -> (r: Vec<[u8; 32]>)
    ensures
        r@ == v@,
{
    let mut out: Vec<[u8; 32]> = Vec::new();
    let mut i: usize = 0;
    while i < v.len()
        invariant
            i <= v@.len(),
            out@ == v@.take(i as int),
        decreases v@.len() - i,
    {
        out.push(v[i]);
        assert(out@ =~= v@.take(i + 1));
        i += 1;
    }
    assert(out@ =~= v@);
    out
}

impl Clone for MempoolEntry {
    fn clone(&self) -> (r: Self)
        ensures
            r@ == self@,
    {
        MempoolEntry {
            tx: self.tx.clone(),
            fee_per_byte: self.fee_per_byte,
            time: self.time,
            depends_on: copy_ids(&self.depends_on),
            fee: self.fee,
        }
    }
}

/// Transactions by their identifier.
pub type TxMap = DashMap<[u8; 32], MempoolEntry, RandomState>;

/// Lists of identifiers by an identifier.
pub type IdListMap = DashMap<[u8; 32], Vec<[u8; 32]>, RandomState>;

/// Lists of identifiers by a number.
pub type NumberMap = DashMap<u128, Vec<[u8; 32]>, RandomState>;

/// What a map of transactions holds.
pub uninterp spec fn pool_txs(m: TxMap) -> Map<Seq<u8>, EntryView>;

/// What a map of lists by an identifier holds.
pub uninterp spec fn pool_lists(m: IdListMap) -> Map<Seq<u8>, Seq<Seq<u8>>>;

/// What a map of lists by a number holds.
pub uninterp spec fn pool_numbers(m: NumberMap) -> Map<u128, Seq<Seq<u8>>>;

/// What a map holds at a key.
pub open spec fn at<K, V>(m: Map<K, V>, k: K) -> Option<V> {
    if m.dom().contains(k) {
        Some(m[k])
    } else {
        None
    }
}

/// What an optional entry says.
pub open spec fn entry_opt(o: Option<MempoolEntry>) -> Option<EntryView> {
    match o {
        Some(e) => Some(e@),
        None => None,
    }
}

/// What an optional list says.
pub open spec fn list_opt(o: Option<Vec<[u8; 32]>>) -> Option<Seq<Seq<u8>>> {
    match o {
        Some(v) => Some(tx::ids(v@)),
        None => None,
    }
}

/// `DashMap::new` makes an empty map.
#[verifier::external_body]
pub(crate) fn txs_new() -> (r: TxMap)
    ensures
        pool_txs(r).dom().is_empty(),
        pool_txs(r).dom().finite(),
{
    DashMap::new()
}

/// `DashMap::get` finds what a key has.
#[verifier::external_body]
pub(crate) fn txs_get(m: &TxMap, id: &[u8; 32]) -> (r: Option<MempoolEntry>)
    ensures
        entry_opt(r) == at(pool_txs(*m), id@),
{
    match m.get(id) {
        Some(e) => Some(e.value().clone()),
        None => None,
    }
}

/// `DashMap::insert` gives a key a value.
#[verifier::external_body]
pub(crate) fn txs_put(m: &mut TxMap, id: [u8; 32], e: MempoolEntry)
    ensures
        pool_txs(*final(m)) == pool_txs(*old(m)).insert(id@, e@),
{
    m.insert(id, e);
}

/// `DashMap::remove` takes out a key with its value.
#[verifier::external_body]
pub(crate) fn txs_take(m: &mut TxMap, id: &[u8; 32]) -> (r: Option<MempoolEntry>)
    ensures
        entry_opt(r) == at(pool_txs(*old(m)), id@),
        pool_txs(*final(m)) == pool_txs(*old(m)).remove(id@),
{
    match m.remove(id) {
        Some((_, e)) => Some(e),
        None => None,
    }
}

/// `DashMap::len` is the number of keys.
#[verifier::external_body]
pub(crate) fn txs_len(m: &TxMap) -> (r: usize)
    ensures
        pool_txs(*m).dom().finite() ==> r == pool_txs(*m).dom().len(),
{
    m.len()
}

/// `DashMap::iter` goes through every key once, in no order that is known.
#[verifier::external_body]
pub(crate) fn txs_keys(m: &TxMap) -> (r: Vec<[u8; 32]>)
    ensures
        tx::ids(r@).no_duplicates(),
        forall|k: Seq<u8>| pool_txs(*m).dom().contains(k) == #[trigger] tx::ids(r@).contains(k),
{
    m.iter().map(|e| *e.key()).collect()
}

/// `DashMap::new` makes an empty map.
#[verifier::external_body]
pub(crate) fn lists_new() -> (r: IdListMap)
    ensures
        pool_lists(r).dom().is_empty(),
{
    DashMap::new()
}

/// `DashMap::get` finds what a key has.
#[verifier::external_body]
pub(crate) fn lists_get(m: &IdListMap, id: &[u8; 32]) -> (r: Option<Vec<[u8; 32]>>)
    ensures
        list_opt(r) == at(pool_lists(*m), id@),
{
    match m.get(id) {
        Some(e) => Some(e.value().clone()),
        None => None,
    }
}

/// `DashMap::insert` gives a key a value.
#[verifier::external_body]
pub(crate) fn lists_put(m: &mut IdListMap, id: [u8; 32], v: Vec<[u8; 32]>)
    ensures
        pool_lists(*final(m)) == pool_lists(*old(m)).insert(id@, tx::ids(v@)),
{
    m.insert(id, v);
}

/// `DashMap::remove` takes out a key with its value.
#[verifier::external_body]
pub(crate) fn lists_take(m: &mut IdListMap, id: &[u8; 32]) -> (r: Option<Vec<[u8; 32]>>)
    ensures
        list_opt(r) == at(pool_lists(*old(m)), id@),
        pool_lists(*final(m)) == pool_lists(*old(m)).remove(id@),
{
    match m.remove(id) {
        Some((_, v)) => Some(v),
        None => None,
    }
}

/// `DashMap::new` makes an empty map.
#[verifier::external_body]
pub(crate) fn numbers_new() -> (r: NumberMap)
    ensures
        pool_numbers(r).dom().is_empty(),
{
    DashMap::new()
}

/// `DashMap::get` finds what a key has.
#[verifier::external_body]
pub(crate) fn numbers_get(m: &NumberMap, k: u128) -> (r: Option<Vec<[u8; 32]>>)
    ensures
        list_opt(r) == at(pool_numbers(*m), k),
{
    match m.get(&k) {
        Some(e) => Some(e.value().clone()),
        None => None,
    }
}

/// `DashMap::insert` gives a key a value.
#[verifier::external_body]
pub(crate) fn numbers_put(m: &mut NumberMap, k: u128, v: Vec<[u8; 32]>)
    ensures
        pool_numbers(*final(m)) == pool_numbers(*old(m)).insert(k, tx::ids(v@)),
{
    m.insert(k, v);
}

/// `DashMap::remove` takes out a key with its value.
#[verifier::external_body]
pub(crate) fn numbers_take(m: &mut NumberMap, k: u128) -> (r: Option<Vec<[u8; 32]>>)
    ensures
        list_opt(r) == at(pool_numbers(*old(m)), k),
        pool_numbers(*final(m)) == pool_numbers(*old(m)).remove(k),
{
    match m.remove(&k) {
        Some((_, v)) => Some(v),
        None => None,
    }
}

/// `DashMap::iter` goes through every key once, in no order that is known.
#[verifier::external_body]
pub(crate) fn numbers_keys(m: &NumberMap) -> (r: Vec<u128>)
    ensures
        r@.no_duplicates(),
        forall|k: u128| pool_numbers(*m).dom().contains(k) == #[trigger] r@.contains(k),
{
    m.iter().map(|e| *e.key()).collect()
}

} // verus!
