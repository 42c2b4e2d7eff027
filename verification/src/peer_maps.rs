//! The maps of the peer manager and of the address list, kept in the `dashmap`
//! crate.
//!
//! Each map has one holder, which changes it only through exclusive
//! references, so that what one of them holds does not change behind a shared
//! reference.
use crate::pool_maps;
use dashmap::DashMap;
use std::collections::hash_map::RandomState;
use vstd::prelude::*;

verus! {

/// Keys and times by the name of a peer.
pub type KeyCache = DashMap<[u8; 32], ([u8; 32], u128), RandomState>;

/// Counts by the name of a peer.
pub type CountMap = DashMap<[u8; 32], usize, RandomState>;

/// Amounts by the hash of a public key.
pub type AmountMap = DashMap<[u8; 20], u64, RandomState>;

/// What a map of keys and times holds.
pub uninterp spec fn cached_keys(m: KeyCache) -> Map<Seq<u8>, (Seq<u8>, u128)>;

/// What a map of counts holds.
pub uninterp spec fn counts(m: CountMap) -> Map<Seq<u8>, usize>;

/// What a map of amounts holds.
pub uninterp spec fn amounts(m: AmountMap) -> Map<Seq<u8>, u64>;

/// What an optional key with its time says.
pub open spec fn key_opt(o: Option<([u8; 32], u128)>) -> Option<(Seq<u8>, u128)> {
    match o {
        Some((k, t)) => Some((k@, t)),
        None => None,
    }
}

/// `DashMap::new` makes an empty map.
#[verifier::external_body]
pub(crate) fn cache_new() -> (r: KeyCache)
    ensures
        cached_keys(r).dom().is_empty(),
{
    DashMap::new()
}

/// `DashMap::get` finds what a key has.
#[verifier::external_body]
pub(crate) fn cache_get(m: &KeyCache, id: &[u8; 32]) -> (r: Option<([u8; 32], u128)>)
    ensures
        key_opt(r) == pool_maps::at(cached_keys(*m), id@),
{
    match m.get(id) {
        Some(e) => Some(*e.value()),
        None => None,
    }
}

/// `DashMap::new` makes an empty map.
#[verifier::external_body]
pub(crate) fn counts_new() -> (r: CountMap)
    ensures
        counts(r).dom().is_empty(),
{
    DashMap::new()
}

/// `DashMap::get` finds what a key has.
#[verifier::external_body]
pub(crate) fn counts_get(m: &CountMap, id: &[u8; 32]) -> (r: Option<usize>)
    ensures
        r == pool_maps::at(counts(*m), id@),
{
    match m.get(id) {
        Some(e) => Some(*e.value()),
        None => None,
    }
}

/// `DashMap::insert` gives a key a value.
#[verifier::external_body]
pub(crate) fn counts_put(m: &mut CountMap, id: [u8; 32], n: usize)
    ensures
        counts(*final(m)) == counts(*old(m)).insert(id@, n),
{
    m.insert(id, n);
}

/// `DashMap::new` makes an empty map.
#[verifier::external_body]
pub(crate) fn amounts_new() -> (r: AmountMap)
    ensures
        amounts(r).dom().is_empty(),
{
    DashMap::new()
}

/// `DashMap::get` finds what a key has.
#[verifier::external_body]
pub(crate) fn amounts_get(m: &AmountMap, id: &[u8; 20]) -> (r: Option<u64>)
    ensures
        r == pool_maps::at(amounts(*m), id@),
{
    match m.get(id) {
        Some(e) => Some(*e.value()),
        None => None,
    }
}

/// `DashMap::insert` gives a key a value.
#[verifier::external_body]
pub(crate) fn amounts_put(m: &mut AmountMap, id: [u8; 20], amount: u64)
    ensures
        amounts(*final(m)) == amounts(*old(m)).insert(id@, amount),
{
    m.insert(id, amount);
}

/// What a list of entries says.
pub open spec fn amount_entries(v: Seq<([u8; 20], u64)>) -> Seq<(Seq<u8>, u64)> {
    v.map_values(|e: ([u8; 20], u64)| (e.0@, e.1))
}

/// `DashMap::into_iter` goes through every key once with its value, in no
/// order that is known.
#[verifier::external_body]
pub(crate) fn amounts_entries(m: AmountMap) -> (r: Vec<([u8; 20], u64)>)
    ensures
        amount_entries(r@).no_duplicates(),
        forall|k: Seq<u8>, a: u64|
            (amounts(m).dom().contains(k) && amounts(m)[k] == a)
                == #[trigger] amount_entries(r@).contains((k, a)),
{
    m.into_iter().collect()
}

} // verus!
