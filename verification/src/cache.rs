//! The cache of targets, kept in the `lru` crate.
use crate::big;
use crate::big::{big_from_be, big_to_be};
use crate::bytes;
use crate::errors::{ChainError, Fault};
use crate::params::LRU_CACHE_SIZE;
use crate::target;
use crate::target::compact_to_target;
use lru::{DefaultHasher, LruCache};
use num_bigint::BigUint;
use vstd::prelude::*;

verus! {

/// `lru::LruCache`, a map that forgets what was not used for long.
#[verifier::external_type_specification]
#[verifier::external_body]
#[verifier::reject_recursive_types(K)]
#[verifier::reject_recursive_types(V)]
#[verifier::reject_recursive_types(S)]
pub struct ExLruCache<K, V, S>(lru::LruCache<K, V, S>);

/// `lru::DefaultHasher`, what the cache hashes its keys with.
#[verifier::external_type_specification]
#[verifier::external_body]
pub struct ExDefaultHasher(lru::DefaultHasher);

/// What a cache holds at the moment.
pub uninterp spec fn cached(c: LruCache<u32, Vec<u8>, DefaultHasher>) -> Map<u32, Seq<u8>>;

/// `lru::LruCache::new` makes an empty cache, of a size that there is room for.
#[verifier::external_body]
fn new_cache(size: usize) -> (r: LruCache<u32, Vec<u8>, DefaultHasher>)
    requires
        0 < size <= LRU_CACHE_SIZE,
    ensures
        cached(r).dom().is_empty(),
{
    LruCache::new(std::num::NonZeroUsize::new(size).expect("a size"))
}

/// `lru::LruCache::get_or_insert` gives what the key has, and gives it `fresh`
/// where it has nothing. Other entries may go, and none comes.
#[verifier::external_body]
fn cache_get_or_insert(
    c: &mut LruCache<u32, Vec<u8>, DefaultHasher>,
    key: u32,
    fresh: Vec<u8>,
) -> (r: Vec<u8>)
    ensures
        r@ == if cached(*old(c)).dom().contains(key) {
            cached(*old(c))[key]
        } else {
            fresh@
        },
        cached(*final(c)).dom().contains(key),
        cached(*final(c))[key] == r@,
        forall|k: u32|
            k != key && #[trigger] cached(*final(c)).dom().contains(k) ==> cached(
                *old(c),
            ).dom().contains(k) && cached(*final(c))[k] == cached(*old(c))[k],
{
    c.get_or_insert(key, || fresh).clone()
}

/// The targets that compact forms stand for, the last used ones.
pub struct TargetCache {
    inner: LruCache<u32, Vec<u8>, DefaultHasher>,
}

impl TargetCache {
    /// Whether the cache holds nothing but what compact forms stand for.
    pub closed spec fn wf(&self) -> bool {
        forall|bits: u32| #[trigger]
            cached(self.inner).dom().contains(bits) ==> target::bits_accepted(bits)
                && bytes::be_value(cached(self.inner)[bits]) == target::target_of(bits)
    }

    /// An empty cache.
    pub fn new() -> (r: Self)
        ensures
            r.wf(),
    {
        TargetCache { inner: new_cache(LRU_CACHE_SIZE) }
    }

    /// The target that a compact form stands for, or an error where its
    /// exponent is too large: what was cached does not matter.
    pub fn target(&mut self, bits: u32) -> (r: Result<BigUint, ChainError>)
        requires
            old(self).wf(),
        ensures
            final(self).wf(),
            target::bits_accepted(bits) ==> r is Ok && big::big(r->Ok_0) == target::target_of(bits),
            !target::bits_accepted(bits) ==> r is Err && r->Err_0@ == Fault::InvalidBlock(
                "target exponent too large"@,
            ),
    {
        match compact_to_target(bits) {
            Err(e) => Err(e),
            Ok(t) => {
                let fresh = big_to_be(&t);
                let data = cache_get_or_insert(&mut self.inner, bits, fresh);
                Ok(big_from_be(data.as_slice()))
            },
        }
    }
}

} // verus!
