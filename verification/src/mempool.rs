//! The pool of transactions that wait to be mined.
use crate::anon;
use crate::bytes;
use crate::bytes::{read32, same32};
use crate::codec;
use crate::codec::deserialize_output;
use crate::errors::{invalid_tx, other, ChainError, Fault};
use crate::params::{MAX_PACKAGE_DEPTH, MAX_PACKAGE_SIZE};
use crate::pool_laws;
use crate::pool_maps;
use crate::pool_maps::{
    copy_ids, lists_get, lists_new, lists_put, lists_take, numbers_get, numbers_keys, numbers_new,
    numbers_put, numbers_take, txs_get, txs_keys, txs_len, txs_new, txs_put, txs_take, IdListMap,
    MempoolEntry, NumberMap, TxMap,
};
use crate::store;
use crate::store::Snapshot;
use crate::tx;
use crate::tx::{output_total, Block, Transaction};
use crate::validate;
use crate::validate::get_record;
use std::sync::Arc;
use vstd::prelude::*;

verus! {

/// The largest number of bytes of a transaction in the pool.
pub const MAX_POOL_TX_SIZE: usize = 500_000;

/// The largest number of transactions in the pool.
pub const MAX_POOL_TXS: usize = 50_000;

/// The largest limit on the bytes of the pool.
pub const MAX_POOL_BYTES: usize = 268_435_456;

/// The pool of transactions that wait to be mined.
pub struct Mempool {
    txs: TxMap,
    heap: Vec<MempoolEntry>,
    total_bytes: usize,
    by_parent: IdListMap,
    fee_index: NumberMap,
    ttl: Vec<(u128, [u8; 32])>,
    max_size: usize,
    expiration_index: NumberMap,
    avg_fee: u64,
    key_images: IdListMap,
    stuck: Ghost<bool>,
}

/// What a [`Mempool`] says: the transactions, the ones that can be put out and
/// how cheap they are, the bytes, which transactions depend on which, which
/// have which fee, when they came, the limit, the average fee for each byte,
/// and the key images with the transaction that spends them.
#[verifier::ext_equal]
pub struct PoolView {
    pub txs: Map<Seq<u8>, pool_maps::EntryView>,
    pub heap: Seq<pool_maps::EntryView>,
    pub total_bytes: usize,
    pub by_parent: Map<Seq<u8>, Seq<Seq<u8>>>,
    pub fee_index: Map<u128, Seq<Seq<u8>>>,
    pub ttl: Seq<(u128, Seq<u8>)>,
    pub max_size: usize,
    pub expiration: Map<u128, Seq<Seq<u8>>>,
    pub avg_fee: u64,
    pub key_images: Map<Seq<u8>, Seq<Seq<u8>>>,
}

/// What entries say.
pub open spec fn entries(v: Seq<MempoolEntry>) -> Seq<pool_maps::EntryView> {
    v.map_values(|e: MempoolEntry| e@)
}

/// What arrivals say.
pub open spec fn arrivals(v: Seq<(u128, [u8; 32])>) -> Seq<(u128, Seq<u8>)> {
    v.map_values(|a: (u128, [u8; 32])| (a.0, a.1@))
}

impl View for Mempool {
    type V = PoolView;

    closed spec fn view(&self) -> PoolView {
        PoolView {
            txs: pool_maps::pool_txs(self.txs),
            heap: entries(self.heap@),
            total_bytes: self.total_bytes,
            by_parent: pool_maps::pool_lists(self.by_parent),
            fee_index: pool_maps::pool_numbers(self.fee_index),
            ttl: arrivals(self.ttl@),
            max_size: self.max_size,
            expiration: pool_maps::pool_numbers(self.expiration_index),
            avg_fee: self.avg_fee,
            key_images: pool_maps::pool_lists(self.key_images),
        }
    }
}

/// The number of bytes of a transaction.
pub open spec fn tx_size(t: tx::TxView) -> nat {
    codec::enc_tx(t).len()
}

/// Whether a pool is in order: it is finite, and none of its transactions is
/// too large.
pub open spec fn pool_ok(p: PoolView) -> bool {
    &&& p.txs.dom().finite()
    &&& forall|id: Seq<u8>| #[trigger]
        p.txs.dom().contains(id) ==> tx_size(p.txs[id].tx) <= MAX_POOL_TX_SIZE
}

/// An empty pool.
pub open spec fn empty_pool(max_size: usize) -> PoolView {
    PoolView {
        txs: Map::empty(),
        heap: Seq::empty(),
        total_bytes: 0,
        by_parent: Map::empty(),
        fee_index: Map::empty(),
        ttl: Seq::empty(),
        max_size,
        expiration: Map::empty(),
        avg_fee: 0,
        key_images: Map::empty(),
    }
}

// ---------------------------------------------------------------------------
// Lists of identifiers
// ---------------------------------------------------------------------------

/// Whether an identifier comes before another, byte by byte.
pub open spec fn id_before(a: Seq<u8>, b: Seq<u8>) -> bool {
    exists|i: int|
        0 <= i < 32 && #[trigger] a[i] < b[i] && (forall|j: int| 0 <= j < i ==> a[j] == b[j])
}

/// A list in order with an identifier put in at its place, where it is not
/// there yet.
pub open spec fn ordered_with(s: Seq<Seq<u8>>, id: Seq<u8>) -> Seq<Seq<u8>>
    decreases s.len(),
{
    if s.len() == 0 {
        seq![id]
    } else if s[0] == id {
        s
    } else if id_before(id, s[0]) {
        seq![id] + s
    } else {
        seq![s[0]] + ordered_with(s.skip(1), id)
    }
}

/// A list without the first occurrence of an identifier.
pub open spec fn without(s: Seq<Seq<u8>>, id: Seq<u8>) -> Seq<Seq<u8>>
    decreases s.len(),
{
    if s.len() == 0 {
        s
    } else if s[0] == id {
        s.skip(1)
    } else {
        seq![s[0]] + without(s.skip(1), id)
    }
}

/// A list with an identifier, where it is not there yet.
pub open spec fn with_id(s: Seq<Seq<u8>>, id: Seq<u8>) -> Seq<Seq<u8>> {
    if s.contains(id) {
        s
    } else {
        s.push(id)
    }
}

fn comes_before(a: &[u8; 32], b: &[u8; 32]) -> (r: bool)
    ensures
        r == id_before(a@, b@),
{
    let mut i: usize = 0;
    while i < 32
        invariant
            i <= 32,
            forall|j: int| 0 <= j < i ==> a@[j] == b@[j],
        decreases 32 - i,
    {
        if a[i] < b[i] {
            assert(a@[i as int] < b@[i as int]);
            return true;
        }
        if a[i] > b[i] {
            assert(!id_before(a@, b@)) by {
                if id_before(a@, b@) {
                    let k = choose|k: int|
                        0 <= k < 32 && #[trigger] a@[k] < b@[k] && (forall|j: int|
                            0 <= j < k ==> a@[j] == b@[j]);
                    if k > i {
                        assert(a@[i as int] == b@[i as int]);
                    }
                }
            }
            return false;
        }
        i += 1;
    }
    false
}

/// Whether a list holds an identifier.
pub fn holds_id(v: &Vec<[u8; 32]>, id: &[u8; 32]) -> (r: bool)
    ensures
        r == tx::ids(v@).contains(id@),
{
    let mut i: usize = 0;
    while i < v.len()
        invariant
            i <= v@.len(),
            forall|j: int| 0 <= j < i ==> (#[trigger] tx::ids(v@)[j]) != id@,
        decreases v@.len() - i,
    {
        proof {
            bytes::lemma_id_ext(v@[i as int], *id);
            assert(tx::ids(v@)[i as int] == v@[i as int]@);
        }
        if same32(&v[i], id) {
            assert(tx::ids(v@).contains(tx::ids(v@)[i as int]));
            return true;
        }
        i += 1;
    }
    false
}

proof fn lemma_ids_push(v: Seq<[u8; 32]>, id: [u8; 32])
    ensures
        tx::ids(v.push(id)) == tx::ids(v).push(id@),
{
    assert(tx::ids(v.push(id)) =~= tx::ids(v).push(id@));
}

proof fn lemma_ids_append(a: Seq<[u8; 32]>, b: Seq<[u8; 32]>)
    ensures
        tx::ids(a + b) == tx::ids(a) + tx::ids(b),
{
    assert(tx::ids(a + b) =~= tx::ids(a) + tx::ids(b));
}

proof fn lemma_ordered_at(s: Seq<Seq<u8>>, id: Seq<u8>, i: int)
    requires
        0 <= i <= s.len(),
        forall|j: int| 0 <= j < i ==> (#[trigger] s[j]) != id && !id_before(id, s[j]),
        i < s.len() ==> s[i] == id || id_before(id, s[i]),
    ensures
        ordered_with(s, id) == if i < s.len() && s[i] == id {
            s
        } else {
            s.insert(i, id)
        },
    decreases i,
{
    if i == 0 {
        assert(s.insert(0, id) =~= seq![id] + s);
    } else {
        let t = s.skip(1);
        assert forall|j: int| 0 <= j < i - 1 implies (#[trigger] t[j]) != id && !id_before(
            id,
            t[j],
        ) by {
            assert(t[j] == s[j + 1]);
        }
        lemma_ordered_at(t, id, i - 1);
        assert(s[0] != id && !id_before(id, s[0]));
        if i < s.len() && s[i] == id {
            assert(seq![s[0]] + t =~= s);
        } else {
            assert(seq![s[0]] + t.insert(i - 1, id) =~= s.insert(i, id));
        }
    }
}

/// Puts an identifier in at its place.
fn insert_ordered(v: &mut Vec<[u8; 32]>, id: [u8; 32])
    ensures
        tx::ids(final(v)@) == ordered_with(tx::ids(old(v)@), id@),
{
    let ghost s = tx::ids(v@);
    let mut i: usize = 0;
    while i < v.len()
        invariant
            i <= v@.len(),
            v@ == old(v)@,
            s == tx::ids(v@),
            forall|j: int| 0 <= j < i ==> (#[trigger] s[j]) != id@ && !id_before(id@, s[j]),
        decreases v@.len() - i,
    {
        proof {
            bytes::lemma_id_ext(v@[i as int], id);
            assert(s[i as int] == v@[i as int]@);
        }
        if same32(&v[i], &id) {
            proof {
                lemma_ordered_at(s, id@, i as int);
            }
            return ;
        }
        if comes_before(&id, &v[i]) {
            proof {
                lemma_ordered_at(s, id@, i as int);
            }
            v.insert(i, id);
            assert(tx::ids(v@) =~= s.insert(i as int, id@));
            return ;
        }
        i += 1;
    }
    proof {
        lemma_ordered_at(s, id@, i as int);
    }
    v.push(id);
    assert(tx::ids(v@) =~= s.insert(i as int, id@));
}

proof fn lemma_without_at(s: Seq<Seq<u8>>, id: Seq<u8>, i: int)
    requires
        0 <= i <= s.len(),
        forall|j: int| 0 <= j < i ==> (#[trigger] s[j]) != id,
        i < s.len() ==> s[i] == id,
    ensures
        without(s, id) == if i < s.len() {
            s.remove(i)
        } else {
            s
        },
    decreases i,
{
    if i == 0 {
        if s.len() > 0 {
            assert(s.remove(0) =~= s.skip(1));
        }
    } else {
        let t = s.skip(1);
        assert forall|j: int| 0 <= j < i - 1 implies (#[trigger] t[j]) != id by {
            assert(t[j] == s[j + 1]);
        }
        lemma_without_at(t, id, i - 1);
        assert(s[0] != id);
        if i < s.len() {
            assert(seq![s[0]] + t.remove(i - 1) =~= s.remove(i));
        } else {
            assert(seq![s[0]] + t =~= s);
        }
    }
}

/// Takes out the first occurrence of an identifier.
fn remove_id(v: &mut Vec<[u8; 32]>, id: &[u8; 32])
    ensures
        tx::ids(final(v)@) == without(tx::ids(old(v)@), id@),
{
    let ghost s = tx::ids(v@);
    let mut i: usize = 0;
    while i < v.len()
        invariant
            i <= v@.len(),
            v@ == old(v)@,
            s == tx::ids(v@),
            forall|j: int| 0 <= j < i ==> (#[trigger] s[j]) != id@,
        decreases v@.len() - i,
    {
        proof {
            bytes::lemma_id_ext(v@[i as int], *id);
            assert(s[i as int] == v@[i as int]@);
        }
        if same32(&v[i], id) {
            proof {
                lemma_without_at(s, id@, i as int);
            }
            v.remove(i);
            assert(tx::ids(v@) =~= s.remove(i as int));
            return ;
        }
        i += 1;
    }
    proof {
        lemma_without_at(s, id@, i as int);
    }
}

// ---------------------------------------------------------------------------
// The average fee
// ---------------------------------------------------------------------------

/// The average of `len` values after one was taken out, given the average
/// before; `None` where it cannot be computed.
pub open spec fn avg_without(avg: u64, len: nat, value: u64) -> Option<u64> {
    let total = avg * (len + 1);
    if len == 0 || total > u64::MAX || total < value {
        None
    } else {
        Some(((total - value) / len as int) as u64)
    }
}

/// The average of `len` values after one was put in, given the average before;
/// `None` where it cannot be computed.
pub open spec fn avg_with(avg: u64, len: nat, value: u64) -> Option<u64> {
    let total = avg * (len - 1) + value;
    if len == 0 || total > u64::MAX {
        None
    } else {
        Some((total / len as int) as u64)
    }
}

fn average_without(avg: u64, len: usize, value: u64) -> (r: Option<u64>)
    ensures
        r == avg_without(avg, len as nat, value),
{
    if len == 0 {
        return None;
    }
    assert(avg * (len + 1) <= u64::MAX * (u64::MAX + 1)) by (nonlinear_arith)
        requires
            avg <= u64::MAX,
            len <= u64::MAX,
    ;
    let total: u128 = avg as u128 * (len as u128 + 1);
    if total > u64::MAX as u128 || total < value as u128 {
        return None;
    }
    let rest: u128 = total - value as u128;
    let q: u128 = rest / len as u128;
    assert(q <= rest) by (nonlinear_arith)
        requires
            q == rest / (len as u128),
            len > 0,
    ;
    Some(q as u64)
}

fn average_with(avg: u64, len: usize, value: u64) -> (r: Option<u64>)
    ensures
        r == avg_with(avg, len as nat, value),
{
    if len == 0 {
        return None;
    }
    assert(avg * (len - 1) <= u64::MAX * (u64::MAX - 1)) by (nonlinear_arith)
        requires
            avg <= u64::MAX,
            1 <= len <= u64::MAX,
    ;
    let total: u128 = avg as u128 * (len as u128 - 1) + value as u128;
    if total > u64::MAX as u128 {
        return None;
    }
    let q: u128 = total / len as u128;
    assert(q <= total) by (nonlinear_arith)
        requires
            q == total / (len as u128),
            len > 0,
    ;
    Some(q as u64)
}

// ---------------------------------------------------------------------------
// Taking transactions out
// ---------------------------------------------------------------------------

/// The key images without those of the first `n` inputs.
pub open spec fn without_images(
    m: Map<Seq<u8>, Seq<Seq<u8>>>,
    inputs: Seq<tx::InputView>,
    n: nat,
) -> Map<Seq<u8>, Seq<Seq<u8>>>
    decreases n,
{
    if n == 0 {
        m
    } else {
        let before = without_images(m, inputs, (n - 1) as nat);
        if inputs[n - 1].script_sig.len() >= 32 {
            before.remove(anon::key_image(inputs[n - 1]))
        } else {
            before
        }
    }
}

/// The pool without a transaction, its key images and its bytes.
pub open spec fn dropped(p: PoolView, id: Seq<u8>, e: pool_maps::EntryView) -> PoolView {
    PoolView {
        txs: p.txs.remove(id),
        key_images: if e.tx.is_anonymous {
            without_images(p.key_images, e.tx.inputs, e.tx.inputs.len())
        } else {
            p.key_images
        },
        total_bytes: p.total_bytes.wrapping_sub(tx_size(e.tx) as usize),
        ..p
    }
}

/// The pool with a transaction taken out of the indices by fee and by time.
pub open spec fn unindexed(p: PoolView, id: Seq<u8>, e: pool_maps::EntryView) -> PoolView {
    let fee = e.fee_per_byte as u128;
    PoolView {
        fee_index: if p.fee_index.dom().contains(fee) {
            p.fee_index.insert(fee, without(p.fee_index[fee], id))
        } else {
            p.fee_index
        },
        expiration: if p.expiration.dom().contains(e.time) {
            p.expiration.insert(e.time, without(p.expiration[e.time], id))
        } else {
            p.expiration
        },
        ..p
    }
}

/// The pool after a transaction was taken out, and whether the average fee
/// could be kept; where it could not, the pool at that point. The transactions
/// that depend on it go first. `fuel` bounds how deep they are.
pub open spec fn removed(p: PoolView, id: Seq<u8>, fuel: nat) -> (PoolView, bool)
    decreases fuel, 0nat,
{
    if !p.txs.dom().contains(id) {
        (p, true)
    } else if fuel == 0 {
        (p, false)
    } else {
        let e = p.txs[id];
        let q = dropped(p, id, e);
        let alone = PoolView { by_parent: q.by_parent.remove(id), ..q };
        let (r, ok) = match pool_maps::at(q.by_parent, id) {
            Some(children) => removed_all(
                alone,
                children,
                children.len(),
                (fuel - 1) as nat,
            ),
            None => (alone, true),
        };
        if !ok {
            (r, false)
        } else {
            let s = unindexed(r, id, e);
            match avg_without(s.avg_fee, s.txs.dom().len(), e.fee_per_byte) {
                Some(a) => (PoolView { avg_fee: a, ..s }, true),
                None => (s, false),
            }
        }
    }
}

/// The pool after the first `n` of several transactions were taken out, and
/// whether the average fee could be kept.
pub open spec fn removed_all(p: PoolView, ids: Seq<Seq<u8>>, n: nat, fuel: nat) -> (PoolView, bool)
    decreases fuel, n + 1,
{
    if n == 0 {
        (p, true)
    } else {
        let (q, ok) = removed_all(p, ids, (n - 1) as nat, fuel);
        if ok {
            removed(q, ids[n - 1], fuel)
        } else {
            (q, false)
        }
    }
}

/// The pool after a transaction was taken out: there are no more transactions
/// below it than in the pool.
pub open spec fn removal(p: PoolView, id: Seq<u8>) -> (PoolView, bool) {
    removed(p, id, p.txs.dom().len())
}

/// The pool after several transactions were taken out.
pub open spec fn removals(p: PoolView, ids: Seq<Seq<u8>>) -> (PoolView, bool) {
    removed_all(p, ids, ids.len(), p.txs.dom().len())
}

proof fn lemma_removed_all_stop(p: PoolView, ids: Seq<Seq<u8>>, i: nat, n: nat, fuel: nat)
    requires
        i <= n,
        !removed_all(p, ids, i, fuel).1,
    ensures
        removed_all(p, ids, n, fuel) == removed_all(p, ids, i, fuel),
    decreases n,
{
    if i < n {
        lemma_removed_all_stop(p, ids, i, (n - 1) as nat, fuel);
    }
}

/// What taking out keeps: nothing comes into the pool, and what can be put out
/// stays.
pub open spec fn only_less(p: PoolView, q: PoolView) -> bool {
    &&& q.txs.dom().subset_of(p.txs.dom())
    &&& forall|id: Seq<u8>| #[trigger]
        q.txs.dom().contains(id) ==> q.txs[id] == p.txs[id]
    &&& q.heap == p.heap
    &&& q.ttl == p.ttl
    &&& q.max_size == p.max_size
}

/// A pool with less in it is in order, and has no more transactions.
pub proof fn lemma_less_len(p: PoolView, q: PoolView)
    requires
        pool_ok(p),
        only_less(p, q),
    ensures
        pool_ok(q),
        q.txs.dom().len() <= p.txs.dom().len(),
{
    vstd::set_lib::lemma_len_subset(q.txs.dom(), p.txs.dom());
}

/// Removing keeps: nothing comes into the pool.
pub proof fn law_removal_only_takes(p: PoolView, id: Seq<u8>, fuel: nat)
    ensures
        only_less(p, removed(p, id, fuel).0),
        removed(p, id, fuel).1 ==> !removed(p, id, fuel).0.txs.dom().contains(id),
    decreases fuel, 0nat,
{
    if p.txs.dom().contains(id) && fuel > 0 {
        let e = p.txs[id];
        let q = dropped(p, id, e);
        let alone = PoolView { by_parent: q.by_parent.remove(id), ..q };
        match pool_maps::at(q.by_parent, id) {
            Some(children) => {
                lemma_removals_only_take(alone, children, children.len(), (fuel - 1) as nat);
            },
            None => {},
        }
    }
}

/// Removing several keeps: nothing comes into the pool. Where the average fee
/// could be kept, none of them is left.
pub proof fn lemma_removals_only_take(p: PoolView, ids: Seq<Seq<u8>>, n: nat, fuel: nat)
    ensures
        only_less(p, removed_all(p, ids, n, fuel).0),
        removed_all(p, ids, n, fuel).1 ==> forall|i: int|
            0 <= i < n ==> !removed_all(p, ids, n, fuel).0.txs.dom().contains(#[trigger] ids[i]),
    decreases fuel, n + 1,
{
    if n > 0 {
        lemma_removals_only_take(p, ids, (n - 1) as nat, fuel);
        let (q, ok) = removed_all(p, ids, (n - 1) as nat, fuel);
        if ok {
            law_removal_only_takes(q, ids[n - 1], fuel);
        }
    }
}

/// Whether identifiers are those of the pool, each once.
pub open spec fn lists_ids(p: PoolView, ids: Seq<Seq<u8>>) -> bool {
    &&& ids.no_duplicates()
    &&& forall|k: Seq<u8>| p.txs.dom().contains(k) == #[trigger] ids.contains(k)
}

/// Whether transactions are those of the pool, each once.
pub open spec fn lists_pool(p: PoolView, txs: Seq<tx::TxView>) -> bool {
    exists|ids: Seq<Seq<u8>>|
        #[trigger] lists_ids(p, ids) && txs == Seq::new(ids.len(), |i: int| p.txs[ids[i]].tx)
}

impl Mempool {
    /// Whether something went wrong with the pool: the average fee could not be
    /// kept, or it could not be made small enough.
    pub closed spec fn is_stuck(&self) -> bool {
        self.stuck@
    }

    /// Whether the pool is in order, and settled unless it is stuck.
    pub open spec fn wf(&self) -> bool {
        &&& pool_ok(self@)
        &&& !self.is_stuck() ==> pool_laws::settled(self@)
    }

    /// An empty pool.
    pub fn new(max_size: usize) -> (r: Self)
        ensures
            r.wf(),
            !r.is_stuck(),
            r@ == empty_pool(max_size),
    {
        let r = Mempool {
            txs: txs_new(),
            heap: Vec::new(),
            total_bytes: 0,
            by_parent: lists_new(),
            fee_index: numbers_new(),
            ttl: Vec::new(),
            max_size,
            expiration_index: numbers_new(),
            avg_fee: 0,
            key_images: lists_new(),
            stuck: Ghost(false),
        };
        assert(r@.txs =~= Map::empty());
        assert(r@.by_parent =~= Map::empty());
        assert(r@.fee_index =~= Map::empty());
        assert(r@.expiration =~= Map::empty());
        assert(r@.key_images =~= Map::empty());
        assert(r@.heap =~= Seq::empty());
        assert(r@.ttl =~= Seq::empty());
        proof {
            pool_laws::lemma_settled_empty(max_size);
        }
        r
    }

    /// Changes the limit on the bytes of the pool, within the largest limit.
    pub fn update_max_size(&mut self, new_max: usize)
        ensures
            final(self)@ == (PoolView {
                max_size: if new_max <= MAX_POOL_BYTES {
                    new_max
                } else {
                    MAX_POOL_BYTES
                },
                ..old(self)@
            }),
            final(self).is_stuck() == old(self).is_stuck(),
            old(self).wf() ==> final(self).wf(),
    {
        let ghost p = self@;
        self.max_size = if new_max <= MAX_POOL_BYTES {
            new_max
        } else {
            MAX_POOL_BYTES
        };
        proof {
            if pool_laws::settled(p) {
                pool_laws::lemma_settled_limit(p, self.max_size);
            }
            assert(self@ =~= (PoolView { max_size: self.max_size, ..p }));
        }
    }

    /// The number of transactions.
    pub fn len(&self) -> (r: usize)
        requires
            self.wf(),
        ensures
            r == self@.txs.dom().len(),
    {
        txs_len(&self.txs)
    }

    /// Whether a transaction is in the pool.
    pub fn contains(&self, txid: &[u8; 32]) -> (r: bool)
        ensures
            r == self@.txs.dom().contains(txid@),
    {
        txs_get(&self.txs, txid).is_some()
    }

    /// A transaction of the pool.
    pub fn get(&self, txid: &[u8; 32]) -> (r: Option<Transaction>)
        ensures
            match r {
                Some(t) => self@.txs.dom().contains(txid@) && t@ == self@.txs[txid@].tx,
                None => !self@.txs.dom().contains(txid@),
            },
    {
        match txs_get(&self.txs, txid) {
            Some(e) => Some((*e.tx).clone()),
            None => None,
        }
    }

    /// The transactions of the pool, each once, in no order that is known.
    pub fn transactions(&self) -> (r: Vec<Transaction>)
        ensures
            lists_pool(self@, r@.map_values(|t: Transaction| t@)),
    {
        let keys = txs_keys(&self.txs);
        let ghost ids = tx::ids(keys@);
        let mut out: Vec<Transaction> = Vec::new();
        let mut i: usize = 0;
        while i < keys.len()
            invariant
                i <= keys@.len(),
                ids == tx::ids(keys@),
                forall|k: Seq<u8>| self@.txs.dom().contains(k) == #[trigger] ids.contains(k),
                out@.len() == i,
                forall|j: int| 0 <= j < i ==> (#[trigger] out@[j])@ == self@.txs[ids[j]].tx,
            decreases keys@.len() - i,
        {
            assert(ids[i as int] == keys@[i as int]@);
            assert(ids.contains(ids[i as int]));
            match self.get(&keys[i]) {
                Some(t) => {
                    out.push(t);
                },
                None => {},
            }
            i += 1;
        }
        proof {
            assert(out@.map_values(|t: Transaction| t@) =~= Seq::new(
                ids.len(),
                |j: int| self@.txs[ids[j]].tx,
            ));
            assert(lists_ids(self@, ids));
        }
        out
    }

    /// The number of bytes of the transactions.
    pub fn bytes(&self) -> (r: usize)
        ensures
            r == self@.total_bytes,
    {
        self.total_bytes
    }

    /// The average fee for each byte.
    pub fn average_fee(&self) -> (r: u64)
        ensures
            r == self@.avg_fee,
    {
        self.avg_fee
    }

    fn forget_images(&mut self, tx: &Transaction)
        ensures
            final(self)@ == (PoolView {
                key_images: without_images(
                    old(self)@.key_images,
                    tx@.inputs,
                    tx@.inputs.len(),
                ),
                ..old(self)@
            }),
    {
        let ghost start = self@;
        let mut i: usize = 0;
        while i < tx.inputs.len()
            invariant
                i <= tx.inputs@.len(),
                start == old(self)@,
                self@ == (PoolView {
                    key_images: without_images(start.key_images, tx@.inputs, i as nat),
                    ..start
                }),
            decreases tx.inputs@.len() - i,
        {
            let vin = &tx.inputs[i];
            assert(tx@.inputs[i as int] == vin@);
            if vin.script_sig.len() >= 32 {
                let image = read32(vin.script_sig.as_slice(), 0);
                lists_take(&mut self.key_images, &image);
            }
            i += 1;
        }
    }

    fn unindex(&mut self, txid: &[u8; 32], fee_per_byte: u64, time: u128)
        ensures
            forall|e: pool_maps::EntryView|
                e.fee_per_byte == fee_per_byte && e.time == time ==> final(self)@
                    == #[trigger] unindexed(old(self)@, txid@, e),
    {
        match numbers_get(&self.fee_index, fee_per_byte as u128) {
            Some(mut set) => {
                remove_id(&mut set, txid);
                numbers_put(&mut self.fee_index, fee_per_byte as u128, set);
            },
            None => {},
        }
        match numbers_get(&self.expiration_index, time) {
            Some(mut list) => {
                remove_id(&mut list, txid);
                numbers_put(&mut self.expiration_index, time, list);
            },
            None => {},
        }
    }

    fn remove_within(&mut self, txid: &[u8; 32], Ghost(fuel): Ghost<nat>) -> (r: bool)
        requires
            pool_ok(old(self)@),
            fuel >= old(self)@.txs.dom().len(),
        ensures
            (final(self)@, r) == removed(old(self)@, txid@, fuel),
            pool_ok(final(self)@),
            only_less(old(self)@, final(self)@),
        decreases fuel, 0nat,
    {
        let ghost before = self@;
        let ghost id = txid@;
        let entry = match txs_take(&mut self.txs, txid) {
            None => {
                assert(self@ =~= before);
                return true;
            },
            Some(e) => e,
        };
        let ghost e = entry@;
        proof {
            assert(before.txs.dom().contains(id));
            if fuel == 0 {
                assert(before.txs.dom().len() == 0);
                assert(before.txs.dom() =~= Set::empty());
            }
        }
        if entry.tx.is_anonymous {
            self.forget_images(&entry.tx);
        }
        let size: usize = entry.tx.size();
        self.total_bytes = self.total_bytes.wrapping_sub(size);
        let ghost q = dropped(before, id, e);
        assert(self@ =~= q);
        let children = lists_take(&mut self.by_parent, txid);
        let ghost alone = PoolView { by_parent: q.by_parent.remove(id), ..q };
        assert(self@ =~= alone);
        proof {
            assert(only_less(before, alone));
            lemma_less_len(before, alone);
            assert(alone.txs.dom() =~= before.txs.dom().remove(id));
            assert(alone.txs.dom().len() == before.txs.dom().len() - 1);
        }
        match children {
            Some(list) => {
                if !self.remove_all_within(&list, Ghost((fuel - 1) as nat)) {
                    return false;
                }
            },
            None => {},
        }
        let ghost r = self@;
        self.unindex(txid, entry.fee_per_byte, entry.time);
        let ghost s = unindexed(r, id, e);
        assert(self@ == s);
        let len: usize = txs_len(&self.txs);
        match average_without(self.avg_fee, len, entry.fee_per_byte) {
            Some(a) => {
                self.avg_fee = a;
                true
            },
            None => false,
        }
    }

    fn remove_all_within(&mut self, ids: &Vec<[u8; 32]>, Ghost(fuel): Ghost<nat>) -> (r: bool)
        requires
            pool_ok(old(self)@),
            fuel >= old(self)@.txs.dom().len(),
        ensures
            (final(self)@, r) == removed_all(old(self)@, tx::ids(ids@), ids@.len(), fuel),
            pool_ok(final(self)@),
            only_less(old(self)@, final(self)@),
        decreases fuel, 1nat,
    {
        let ghost before = self@;
        let ghost all = tx::ids(ids@);
        let mut i: usize = 0;
        while i < ids.len()
            invariant
                i <= ids@.len(),
                all == tx::ids(ids@),
                before == old(self)@,
                pool_ok(self@),
                pool_ok(before),
                only_less(before, self@),
                fuel >= before.txs.dom().len(),
                removed_all(before, all, i as nat, fuel) == (self@, true),
            decreases ids@.len() - i,
        {
            proof {
                lemma_less_len(before, self@);
                assert(all[i as int] == ids@[i as int]@);
            }
            if !self.remove_within(&ids[i], Ghost(fuel)) {
                proof {
                    lemma_removed_all_stop(before, all, (i + 1) as nat, ids@.len(), fuel);
                }
                return false;
            }
            i += 1;
        }
        true
    }

    /// Takes a transaction out of the pool, those that depend on it first.
    /// Returns whether the average fee could be kept: with nothing left, or
    /// less than the fee that goes, it cannot, and the pool is left as it is
    /// at that point.
    pub fn remove(&mut self, txid: &[u8; 32]) -> (r: bool)
        requires
            old(self).wf(),
        ensures
            (final(self)@, r) == removal(old(self)@, txid@),
            final(self).wf(),
            only_less(old(self)@, final(self)@),
            final(self).is_stuck() == (old(self).is_stuck() || !r),
    {
        let ghost p = self@;
        let ghost was = self.stuck@;
        let ghost fuel = self@.txs.dom().len();
        let ok = self.remove_within(txid, Ghost(fuel));
        let ghost stuck = was || !ok;
        self.stuck = Ghost(stuck);
        proof {
            if !was && ok {
                pool_laws::lemma_one_removal(p, txid@);
                pool_laws::lemma_settled_removals(p, seq![txid@]);
            }
        }
        ok
    }

    /// Takes several transactions out of the pool.
    pub fn remove_all(&mut self, ids: &Vec<[u8; 32]>) -> (r: bool)
        requires
            old(self).wf(),
        ensures
            (final(self)@, r) == removals(old(self)@, tx::ids(ids@)),
            final(self).wf(),
            only_less(old(self)@, final(self)@),
            final(self).is_stuck() == (old(self).is_stuck() || !r),
    {
        let ghost p = self@;
        let ghost was = self.stuck@;
        let ghost fuel = self@.txs.dom().len();
        let ok = self.remove_all_within(ids, Ghost(fuel));
        let ghost stuck = was || !ok;
        self.stuck = Ghost(stuck);
        proof {
            if !was && ok {
                pool_laws::lemma_settled_removals(p, tx::ids(ids@));
            }
        }
        ok
    }

    /// Takes the transactions of a block that was added out of the pool.
    pub fn remove_block(&mut self, block: &Block) -> (r: bool)
        requires
            old(self).wf(),
        ensures
            (final(self)@, r) == removals(old(self)@, tx::txids(block@.txs)),
            final(self).wf(),
            only_less(old(self)@, final(self)@),
            final(self).is_stuck() == (old(self).is_stuck() || !r),
    {
        let mut ids: Vec<[u8; 32]> = Vec::new();
        let mut i: usize = 0;
        while i < block.txs.len()
            invariant
                i <= block.txs@.len(),
                ids@.len() == i,
                forall|j: int| 0 <= j < i ==> (#[trigger] ids@[j])@ == tx::txids(block@.txs)[j],
            decreases block.txs@.len() - i,
        {
            ids.push(block.txs[i].hash());
            i += 1;
        }
        assert(tx::ids(ids@) =~= tx::txids(block@.txs));
        self.remove_all(&ids)
    }
}

// ---------------------------------------------------------------------------
// Putting transactions out
// ---------------------------------------------------------------------------

/// Whether an entry is put out before another: the one with the lower fee for
/// each byte, and of two with the same the later one.
pub open spec fn goes_first(a: pool_maps::EntryView, b: pool_maps::EntryView) -> bool {
    a.fee_per_byte < b.fee_per_byte || (a.fee_per_byte == b.fee_per_byte && a.time > b.time)
}

impl MempoolEntry {
    /// Whether the entry is put out before another.
    pub fn goes_before(&self, other: &MempoolEntry) -> (r: bool)
        ensures
            r == goes_first(self@, other@),
    {
        self.fee_per_byte < other.fee_per_byte || (self.fee_per_byte == other.fee_per_byte
            && self.time > other.time)
    }
}

/// The place of the entry that is put out first among the first `n`.
pub open spec fn cheapest(s: Seq<pool_maps::EntryView>, n: nat) -> int
    decreases n,
{
    if n <= 1 {
        0
    } else {
        let j = cheapest(s, (n - 1) as nat);
        if goes_first(s[n - 1], s[j]) {
            n - 1
        } else {
            j
        }
    }
}

/// The place of the entry that is put out first is one of the places, and no
/// entry is put out before it.
pub proof fn law_cheapest_goes_first(s: Seq<pool_maps::EntryView>, n: nat, i: int)
    requires
        0 < n <= s.len(),
        0 <= i < n,
    ensures
        0 <= cheapest(s, n) < n,
        !goes_first(s[i], s[cheapest(s, n)]),
    decreases n,
{
    if n > 1 {
        if i < n - 1 {
            law_cheapest_goes_first(s, (n - 1) as nat, i);
        } else {
            law_cheapest_goes_first(s, (n - 1) as nat, 0);
        }
    }
}

/// The pool after the cheapest entry was put out, and whether the average fee
/// could be kept. One that pays half the average or more only loses its place
/// among those to be put out.
#[verifier::opaque]
pub open spec fn evicted(p: PoolView) -> (PoolView, bool) {
    if p.heap.len() == 0 {
        (p, true)
    } else {
        let i = cheapest(p.heap, p.heap.len());
        let low = p.heap[i];
        let id = tx::txid_of(low.tx);
        let q = PoolView { heap: p.heap.remove(i), ..p };
        if low.fee_per_byte < p.avg_fee / 2 {
            let (r, ok) = removal(q, id);
            if ok {
                match pool_maps::at(r.by_parent, id) {
                    Some(children) => removals(r, children),
                    None => (r, true),
                }
            } else {
                (r, false)
            }
        } else {
            (q, true)
        }
    }
}

/// Whether the pool is too large.
pub open spec fn too_large(p: PoolView) -> bool {
    p.total_bytes > p.max_size || p.txs.dom().len() > MAX_POOL_TXS
}

/// The pool after entries were put out until it is small enough, at most `n`
/// of them, and whether it is and the average fee could be kept.
pub open spec fn shrunk(p: PoolView, n: nat) -> (PoolView, bool)
    decreases n,
{
    if !too_large(p) {
        (p, true)
    } else if n == 0 {
        (p, false)
    } else {
        let (q, ok) = evicted(p);
        if ok {
            shrunk(q, (n - 1) as nat)
        } else {
            (q, false)
        }
    }
}

/// Whether an entry depends on a transaction that is not in the pool.
pub open spec fn misses(p: PoolView, e: pool_maps::EntryView) -> bool {
    exists|i: int|
        0 <= i < e.depends_on.len() && !p.txs.dom().contains(#[trigger] e.depends_on[i])
}

/// Whether a list holds the transactions that depend on one that is not in the
/// pool, each once, in whatever order.
pub open spec fn lists_stranded(p: PoolView, ids: Seq<Seq<u8>>) -> bool {
    &&& ids.no_duplicates()
    &&& forall|id: Seq<u8>| #[trigger]
        ids.contains(id) <==> p.txs.dom().contains(id) && misses(p, p.txs[id])
}

impl Mempool {
    /// Puts out the entry with the lowest fee for each byte. Returns whether
    /// the average fee could be kept.
    pub fn evict_low_fee_package(&mut self) -> (r: bool)
        requires
            old(self).wf(),
        ensures
            (final(self)@, r) == evicted(old(self)@),
            final(self).wf(),
            final(self).is_stuck() == (old(self).is_stuck() || !r),
    {
        let ghost p = self@;
        let ghost was = self.stuck@;
        let ok = self.evict_within();
        let ghost stuck = was || !ok;
        self.stuck = Ghost(stuck);
        proof {
            if !was && ok {
                pool_laws::lemma_settled_evicted(p);
            }
        }
        ok
    }

    fn evict_within(&mut self) -> (r: bool)
        requires
            pool_ok(old(self)@),
        ensures
            (final(self)@, r) == evicted(old(self)@),
            pool_ok(final(self)@),
            old(self)@.heap.len() > 0 ==> final(self)@.heap.len() == old(self)@.heap.len() - 1,
    {
        proof {
            reveal(evicted);
        }
        let ghost p = self@;
        if self.heap.len() == 0 {
            return true;
        }
        let mut j: usize = 0;
        let mut n: usize = 1;
        while n < self.heap.len()
            invariant
                1 <= n <= self.heap@.len(),
                j < n,
                *self == *old(self),
                p == self@,
                j == cheapest(p.heap, n as nat),
            decreases self.heap@.len() - n,
        {
            assert(p.heap[n as int] == self.heap@[n as int]@);
            assert(p.heap[j as int] == self.heap@[j as int]@);
            if self.heap[n].goes_before(&self.heap[j]) {
                j = n;
            }
            n += 1;
        }
        let avg: u64 = self.avg_fee;
        assert(p.heap[j as int] == self.heap@[j as int]@);
        let low = self.heap.remove(j);
        let ghost q = PoolView { heap: p.heap.remove(j as int), ..p };
        proof {
            assert(self@.heap =~= q.heap);
            assert(self@ =~= q);
        }
        if low.fee_per_byte < avg / 2 {
            let id = low.tx.hash();
            let ghost fuel = self@.txs.dom().len();
            if !self.remove_within(&id, Ghost(fuel)) {
                return false;
            }
            let ghost left = self@.txs.dom().len();
            match lists_get(&self.by_parent, &id) {
                Some(children) => self.remove_all_within(&children, Ghost(left)),
                None => true,
            }
        } else {
            true
        }
    }

    fn is_too_large(&self) -> (r: bool)
        requires
            pool_ok(self@),
        ensures
            r == too_large(self@),
    {
        self.total_bytes > self.max_size || txs_len(&self.txs) > MAX_POOL_TXS
    }

    fn shrink(&mut self) -> (r: bool)
        requires
            pool_ok(old(self)@),
        ensures
            (final(self)@, r) == shrunk(old(self)@, old(self)@.heap.len()),
            pool_ok(final(self)@),
    {
        let ghost all = shrunk(self@, self@.heap.len());
        while self.is_too_large()
            invariant
                pool_ok(self@),
                all == shrunk(old(self)@, old(self)@.heap.len()),
                shrunk(self@, self@.heap.len()) == all,
            decreases self@.heap.len(),
        {
            if self.heap.len() == 0 {
                assert(self@.heap.len() == 0);
                return false;
            }
            assert(self@.heap.len() > 0);
            if !self.evict_within() {
                return false;
            }
        }
        true
    }

    fn misses_parent(&self, e: &MempoolEntry) -> (r: bool)
        ensures
            r == misses(self@, e@),
    {
        let mut i: usize = 0;
        while i < e.depends_on.len()
            invariant
                i <= e.depends_on@.len(),
                forall|j: int|
                    0 <= j < i ==> self@.txs.dom().contains(#[trigger] e@.depends_on[j]),
            decreases e.depends_on@.len() - i,
        {
            assert(e@.depends_on[i as int] == e.depends_on@[i as int]@);
            if !self.contains(&e.depends_on[i]) {
                assert(!self@.txs.dom().contains(e@.depends_on[i as int]));
                return true;
            }
            i += 1;
        }
        false
    }

    fn stranded(&self) -> (r: Vec<[u8; 32]>)
        ensures
            lists_stranded(self@, tx::ids(r@)),
    {
        let keys = txs_keys(&self.txs);
        let ghost all = tx::ids(keys@);
        let mut out: Vec<[u8; 32]> = Vec::new();
        let mut i: usize = 0;
        while i < keys.len()
            invariant
                i <= keys@.len(),
                all == tx::ids(keys@),
                all.no_duplicates(),
                forall|k: Seq<u8>| self@.txs.dom().contains(k) == #[trigger] all.contains(k),
                tx::ids(out@).no_duplicates(),
                forall|id: Seq<u8>| #[trigger]
                    tx::ids(out@).contains(id) <==> all.take(i as int).contains(id) && misses(
                        self@,
                        self@.txs[id],
                    ),
            decreases keys@.len() - i,
        {
            let ghost was = tx::ids(out@);
            let ghost id = all[i as int];
            proof {
                assert(id == keys@[i as int]@);
                assert(all.contains(id));
                assert(all.take(i + 1) =~= all.take(i as int).push(id));
                assert(!all.take(i as int).contains(id)) by {
                    if all.take(i as int).contains(id) {
                        let k = choose|k: int| 0 <= k < i && all.take(i as int)[k] == id;
                        assert(all[k] == all[i as int]);
                    }
                }
                assert forall|x: Seq<u8>| all.take(i + 1).contains(x) == (all.take(
                    i as int,
                ).contains(x) || x == id) by {
                    lemma_push_contains(all.take(i as int), id, x);
                }
            }
            match txs_get(&self.txs, &keys[i]) {
                Some(e) => {
                    if self.misses_parent(&e) {
                        out.push(keys[i]);
                        proof {
                            assert(tx::ids(out@) =~= was.push(id));
                            assert(!was.contains(id));
                            lemma_push_distinct(was, id);
                            assert forall|x: Seq<u8>| #[trigger]
                                tx::ids(out@).contains(x) == (was.contains(x) || x == id) by {
                                lemma_push_contains(was, id, x);
                            }
                        }
                    }
                },
                None => {},
            }
            i += 1;
        }
        assert(all.take(i as int) =~= all);
        out
    }

    /// Takes out the transactions that depend on one that is not in the pool.
    /// Returns whether the average fee could be kept.
    pub fn remove_orphaned_txs(&mut self) -> (r: bool)
        requires
            old(self).wf(),
        ensures
            exists|ids: Seq<Seq<u8>>|
                lists_stranded(old(self)@, ids) && (final(self)@, r) == #[trigger] removals(
                    old(self)@,
                    ids,
                ),
            final(self).wf(),
            final(self).is_stuck() == (old(self).is_stuck() || !r),
    {
        let ghost p = self@;
        let ghost was = self.stuck@;
        let ok = self.drop_orphans();
        let ghost stuck = was || !ok;
        self.stuck = Ghost(stuck);
        proof {
            let ids = choose|ids: Seq<Seq<u8>>|
                lists_stranded(p, ids) && (self@, ok) == #[trigger] removals(p, ids);
            if !was && ok {
                pool_laws::lemma_settled_removals(p, ids);
            }
            assert((self@, ok) == removals(p, ids));
        }
        ok
    }

    fn drop_orphans(&mut self) -> (r: bool)
        requires
            pool_ok(old(self)@),
        ensures
            exists|ids: Seq<Seq<u8>>|
                lists_stranded(old(self)@, ids) && (final(self)@, r) == #[trigger] removals(
                    old(self)@,
                    ids,
                ),
            pool_ok(final(self)@),
    {
        let ids = self.stranded();
        let ghost p = self@;
        let ghost fuel = p.txs.dom().len();
        let r = self.remove_all_within(&ids, Ghost(fuel));
        assert((self@, r) == removals(p, tx::ids(ids@)));
        r
    }
}

proof fn lemma_push_distinct(s: Seq<Seq<u8>>, x: Seq<u8>)
    requires
        s.no_duplicates(),
        !s.contains(x),
    ensures
        s.push(x).no_duplicates(),
{
    let t = s.push(x);
    assert forall|i: int, j: int| 0 <= i < t.len() && 0 <= j < t.len() && i != j implies t[i]
        != t[j] by {
        if i < s.len() && j < s.len() {
            assert(s[i] != s[j]);
        } else if i < s.len() {
            assert(s.contains(s[i]));
        } else {
            assert(s.contains(s[j]));
        }
    }
}

proof fn lemma_push_contains(s: Seq<Seq<u8>>, x: Seq<u8>, y: Seq<u8>)
    ensures
        s.push(x).contains(y) == (s.contains(y) || x == y),
{
    if s.contains(y) {
        let i = choose|i: int| 0 <= i < s.len() && s[i] == y;
        assert(s.push(x)[i] == y);
    }
    if x == y {
        assert(s.push(x)[s.len() as int] == y);
    }
    if s.push(x).contains(y) {
        let i = choose|i: int| 0 <= i < s.push(x).len() && s.push(x)[i] == y;
        if i < s.len() {
            assert(s[i] == y);
        }
    }
}

// ---------------------------------------------------------------------------
// Taking a transaction in
// ---------------------------------------------------------------------------

/// The transactions in the pool that others depend on, from those in `stack`
/// on: each is looked at once, the last first. Meeting one again is an error;
/// looking stops at the largest depth. The list, and how many were looked at.
pub open spec fn ancestors(
    p: PoolView,
    stack: Seq<Seq<u8>>,
    deps: Seq<Seq<u8>>,
    depth: nat,
) -> Result<(Seq<Seq<u8>>, nat), Fault>
    decreases MAX_PACKAGE_DEPTH - depth,
{
    if stack.len() == 0 || depth >= MAX_PACKAGE_DEPTH {
        Ok((deps, depth))
    } else {
        let parent = stack.last();
        if deps.contains(parent) {
            Err(Fault::Other("Cycle detected in dependencies"@))
        } else {
            ancestors(
                p,
                stack.drop_last() + (match pool_maps::at(p.txs, parent) {
                    Some(e) => e.depends_on,
                    None => Seq::empty(),
                }),
                deps.push(parent),
                depth + 1,
            )
        }
    }
}

/// The transactions in the pool that the first `n` inputs name.
pub open spec fn parents(p: PoolView, inputs: Seq<tx::InputView>, n: nat) -> Seq<Seq<u8>>
    decreases n,
{
    if n == 0 {
        Seq::empty()
    } else {
        let before = parents(p, inputs, (n - 1) as nat);
        if p.txs.dom().contains(inputs[n - 1].txid@) {
            before.push(inputs[n - 1].txid@)
        } else {
            before
        }
    }
}

/// The bytes of a transaction with the first `n` of those it depends on.
pub open spec fn package_size(p: PoolView, size: nat, deps: Seq<Seq<u8>>, n: nat) -> nat
    decreases n,
{
    if n == 0 {
        size
    } else {
        package_size(p, size, deps, (n - 1) as nat) + (match pool_maps::at(p.txs, deps[n - 1]) {
            Some(e) => tx_size(e.tx),
            None => 0,
        })
    }
}

/// Whether a transaction with those it depends on is too large.
pub open spec fn package_too_large(p: PoolView, size: nat, deps: Seq<Seq<u8>>) -> bool {
    exists|n: nat|
        1 <= n <= deps.len() && #[trigger] package_size(p, size, deps, n) > MAX_PACKAGE_SIZE
}

/// What the first `n` inputs bring in from the database, and the transactions
/// depended on with those in the pool that the others name.
pub open spec fn brought(
    p: PoolView,
    db: store::Db,
    t: tx::TxView,
    deps: Seq<Seq<u8>>,
    n: nat,
) -> Result<(u64, Seq<Seq<u8>>), Fault>
    decreases n,
{
    if n == 0 {
        Ok((0, deps))
    } else {
        let vin = t.inputs[n - 1];
        match brought(p, db, t, deps, (n - 1) as nat) {
            Err(e) => Err(e),
            Ok((sum, list)) => match validate::record(db, t.is_anonymous, vin) {
                Some(b) => match codec::read_output(b) {
                    None => Err(Fault::Other("Deserialize output failed"@)),
                    Some(o) => if sum + o.value > u64::MAX {
                        Err(Fault::ValueOverflow)
                    } else {
                        Ok(((sum + o.value) as u64, list))
                    },
                },
                None => if p.txs.dom().contains(vin.txid@) {
                    Ok((sum, with_id(list, vin.txid@)))
                } else {
                    Err(Fault::MissingUTXO)
                },
            },
        }
    }
}

/// What is wrong with the key image of input `i`.
pub open spec fn image_fault(p: PoolView, inputs: Seq<tx::InputView>, i: int) -> Option<Fault> {
    if inputs[i].script_sig.len() < 32 {
        Some(Fault::InvalidScript)
    } else if p.key_images.dom().contains(anon::key_image(inputs[i])) {
        Some(Fault::DoubleSpend)
    } else {
        None
    }
}

/// What a transaction brings in and what it depends on, where it may be taken
/// in as far as its size and its inputs go.
pub open spec fn package(p: PoolView, db: store::Db, t: tx::TxView) -> Result<
    (u64, Seq<Seq<u8>>),
    Fault,
> {
    let size = tx_size(t);
    if size > MAX_POOL_TX_SIZE {
        Err(Fault::InvalidTx("Invalid size"@))
    } else {
        match ancestors(p, parents(p, t.inputs, t.inputs.len()), Seq::empty(), 0) {
            Err(e) => Err(e),
            Ok((deps, depth)) => if depth >= MAX_PACKAGE_DEPTH {
                Err(Fault::PackageDepthExceeded)
            } else if package_too_large(p, size, deps) {
                Err(Fault::Other("Package size exceeded"@))
            } else {
                brought(p, db, t, deps, t.inputs.len())
            },
        }
    }
}

/// The entry that a transaction gets, or why it may not be taken in.
#[verifier::opaque]
pub open spec fn entry_for(p: PoolView, db: store::Db, t: tx::TxView, now_ms: u128) -> Result<
    pool_maps::EntryView,
    Fault,
> {
    match package(p, db, t) {
        Err(e) => Err(e),
        Ok((sum, deps)) => {
            let outs = tx::sum(tx::values(t.outputs));
            if outs > u64::MAX || sum < outs {
                Err(Fault::ValueOverflow)
            } else {
                let entry = pool_maps::EntryView {
                    tx: t,
                    fee_per_byte: ((sum - outs) / tx_size(t) as int) as u64,
                    time: now_ms,
                    depends_on: deps,
                    fee: (sum - outs) as u64,
                };
                if t.is_anonymous {
                    match crate::errors::first_fault(
                        |i: int| image_fault(p, t.inputs, i),
                        t.inputs.len(),
                    ) {
                        Some(e) => Err(e),
                        None => Ok(entry),
                    }
                } else {
                    Ok(entry)
                }
            }
        },
    }
}

/// The key images with those of the first `n` inputs.
pub open spec fn with_images(
    m: Map<Seq<u8>, Seq<Seq<u8>>>,
    id: Seq<u8>,
    inputs: Seq<tx::InputView>,
    n: nat,
) -> Map<Seq<u8>, Seq<Seq<u8>>>
    decreases n,
{
    if n == 0 {
        m
    } else {
        let before = with_images(m, id, inputs, (n - 1) as nat);
        if inputs[n - 1].script_sig.len() >= 32 {
            before.insert(anon::key_image(inputs[n - 1]), seq![id])
        } else {
            before
        }
    }
}

/// A list with an identifier at its end, a new one where there is none.
pub open spec fn appended(o: Option<Seq<Seq<u8>>>, id: Seq<u8>) -> Seq<Seq<u8>> {
    match o {
        Some(s) => s.push(id),
        None => seq![id],
    }
}

/// The lists of dependents with a transaction under the first `n` of those it
/// depends on.
pub open spec fn with_child(
    m: Map<Seq<u8>, Seq<Seq<u8>>>,
    id: Seq<u8>,
    deps: Seq<Seq<u8>>,
    n: nat,
) -> Map<Seq<u8>, Seq<Seq<u8>>>
    decreases n,
{
    if n == 0 {
        m
    } else {
        let before = with_child(m, id, deps, (n - 1) as nat);
        before.insert(deps[n - 1], appended(pool_maps::at(before, deps[n - 1]), id))
    }
}

/// The pool with an entry in it and in every index.
#[verifier::opaque]
pub open spec fn enrolled(p: PoolView, id: Seq<u8>, e: pool_maps::EntryView) -> PoolView {
    let fee = e.fee_per_byte as u128;
    PoolView {
        txs: p.txs.insert(id, e),
        heap: p.heap.push(e),
        total_bytes: p.total_bytes.wrapping_add(tx_size(e.tx) as usize),
        by_parent: with_child(p.by_parent, id, e.depends_on, e.depends_on.len()),
        fee_index: p.fee_index.insert(
            fee,
            ordered_with(
                match pool_maps::at(p.fee_index, fee) {
                    Some(s) => s,
                    None => Seq::empty(),
                },
                id,
            ),
        ),
        ttl: p.ttl.push((e.time, id)),
        expiration: p.expiration.insert(e.time, appended(pool_maps::at(p.expiration, e.time), id)),
        key_images: if e.tx.is_anonymous {
            with_images(p.key_images, id, e.tx.inputs, e.tx.inputs.len())
        } else {
            p.key_images
        },
        ..p
    }
}

/// What became of a transaction that was offered to the pool.
#[derive(Debug, Clone, Copy, PartialEq, Eq, Structural)]
pub enum Admission {
    /// It was in the pool.
    Known,
    /// It is in the pool now, unless it was put out again at once.
    Added,
    /// It is in the pool now, but the average fee could not be kept, or
    /// putting out does not make the pool small enough.
    Stuck,
}

/// The pool after an entry was taken in and the pool was brought within its
/// limit, before transactions that miss another are taken out.
pub open spec fn taken_in(p: PoolView, id: Seq<u8>, e: pool_maps::EntryView) -> (PoolView, bool) {
    let q = enrolled(p, id, e);
    match avg_with(q.avg_fee, q.txs.dom().len(), e.fee_per_byte) {
        None => (q, false),
        Some(a) => {
            let r = PoolView { avg_fee: a, ..q };
            shrunk(r, r.heap.len())
        },
    }
}

/// Whether offering a transaction to the pool `p` came to `r` and left `q`.
pub open spec fn offered(
    p: PoolView,
    db: store::Db,
    t: tx::TxView,
    now_ms: u128,
    r: Result<Admission, Fault>,
    q: PoolView,
) -> bool {
    let id = tx::txid_of(t);
    if p.txs.dom().contains(id) {
        r == Ok::<_, Fault>(Admission::Known) && q == p
    } else {
        match entry_for(p, db, t, now_ms) {
            Err(e) => r == Err::<Admission, _>(e) && q == p,
            Ok(e) => {
                let (s, ok) = taken_in(p, id, e);
                if !ok {
                    r == Ok::<_, Fault>(Admission::Stuck) && q == s
                } else {
                    exists|ids: Seq<Seq<u8>>|
                        lists_stranded(s, ids) && q == (#[trigger] removals(s, ids)).0 && r == Ok::<
                            _,
                            Fault,
                        >(
                            if removals(s, ids).1 {
                                Admission::Added
                            } else {
                                Admission::Stuck
                            },
                        )
                }
            },
        }
    }
}

/// What offering a transaction came to, with the error taken by its view.
pub open spec fn outcome(r: Result<Admission, ChainError>) -> Result<Admission, Fault> {
    match r {
        Ok(a) => Ok(a),
        Err(e) => Err(e@),
    }
}

impl Mempool {
    fn pool_parents(&self, tx: &Transaction) -> (r: Vec<[u8; 32]>)
        ensures
            tx::ids(r@) == parents(self@, tx@.inputs, tx@.inputs.len()),
    {
        let mut out: Vec<[u8; 32]> = Vec::new();
        let mut i: usize = 0;
        assert(tx::ids(out@) =~= Seq::<Seq<u8>>::empty());
        while i < tx.inputs.len()
            invariant
                i <= tx.inputs@.len(),
                tx::ids(out@) == parents(self@, tx@.inputs, i as nat),
            decreases tx.inputs@.len() - i,
        {
            let vin = &tx.inputs[i];
            assert(tx@.inputs[i as int] == vin@);
            if self.contains(&vin.txid) {
                proof {
                    lemma_ids_push(out@, vin.txid);
                }
                out.push(vin.txid);
            }
            i += 1;
        }
        out
    }

    fn pool_ancestors(&self, start: Vec<[u8; 32]>) -> (r: Result<
        (Vec<[u8; 32]>, usize),
        ChainError,
    >)
        ensures
            match r {
                Ok((deps, depth)) => ancestors(
                    self@,
                    tx::ids(start@),
                    Seq::empty(),
                    0,
                ) == Ok::<_, Fault>((tx::ids(deps@), depth as nat)),
                Err(e) => ancestors(self@, tx::ids(start@), Seq::empty(), 0) == Err::<
                    (Seq<Seq<u8>>, nat),
                    _,
                >(e@),
            },
    {
        let ghost first = tx::ids(start@);
        let ghost all = ancestors(self@, first, Seq::empty(), 0);
        let mut stack = start;
        let mut deps: Vec<[u8; 32]> = Vec::new();
        let mut depth: usize = 0;
        assert(tx::ids(deps@) =~= Seq::<Seq<u8>>::empty());
        while stack.len() > 0 && depth < MAX_PACKAGE_DEPTH
            invariant
                depth <= MAX_PACKAGE_DEPTH,
                first == tx::ids(start@),
                all == ancestors(self@, first, Seq::empty(), 0),
                ancestors(self@, tx::ids(stack@), tx::ids(deps@), depth as nat) == all,
            decreases MAX_PACKAGE_DEPTH - depth,
        {
            let ghost s = tx::ids(stack@);
            let ghost d = tx::ids(deps@);
            let last: usize = stack.len() - 1;
            let parent: [u8; 32] = stack[last];
            stack.truncate(last);
            proof {
                assert(s.last() == parent@);
                assert(tx::ids(stack@) =~= s.drop_last());
            }
            if holds_id(&deps, &parent) {
                return Err(other("Cycle detected in dependencies"));
            }
            proof {
                lemma_ids_push(deps@, parent);
            }
            deps.push(parent);
            match txs_get(&self.txs, &parent) {
                Some(e) => {
                    let mut more = copy_ids(&e.depends_on);
                    proof {
                        lemma_ids_append(stack@, more@);
                    }
                    stack.append(&mut more);
                },
                None => {
                    assert(s.drop_last() + Seq::<Seq<u8>>::empty() =~= s.drop_last());
                },
            }
            depth += 1;
        }
        Ok((deps, depth))
    }

    fn fits_package(&self, size: usize, deps: &Vec<[u8; 32]>) -> (r: bool)
        requires
            pool_ok(self@),
            size <= MAX_POOL_TX_SIZE,
        ensures
            r == !package_too_large(self@, size as nat, tx::ids(deps@)),
    {
        let ghost list = tx::ids(deps@);
        let mut total: usize = size;
        let mut i: usize = 0;
        while i < deps.len()
            invariant
                i <= deps@.len(),
                pool_ok(self@),
                list == tx::ids(deps@),
                total == package_size(self@, size as nat, list, i as nat),
                total <= MAX_PACKAGE_SIZE,
                forall|n: nat|
                    1 <= n <= i ==> #[trigger] package_size(self@, size as nat, list, n)
                        <= MAX_PACKAGE_SIZE,
            decreases deps@.len() - i,
        {
            assert(list[i as int] == deps@[i as int]@);
            match txs_get(&self.txs, &deps[i]) {
                Some(e) => {
                    assert(self@.txs.dom().contains(list[i as int]));
                    total = total + e.tx.size();
                },
                None => {},
            }
            i += 1;
            assert(total == package_size(self@, size as nat, list, i as nat));
            if total > MAX_PACKAGE_SIZE {
                return false;
            }
        }
        true
    }

    fn bring_in(&self, db: &Snapshot, tx: &Transaction, deps: Vec<[u8; 32]>) -> (r: Result<
        (u64, Vec<[u8; 32]>),
        ChainError,
    >)
        ensures
            ({
                let b = brought(self@, db@, tx@, tx::ids(deps@), tx@.inputs.len());
                match r {
                    Ok((sum, list)) => b == Ok::<_, Fault>((sum, tx::ids(list@))),
                    Err(e) => b == Err::<(u64, Seq<Seq<u8>>), _>(e@),
                }
            }),
    {
        let ghost start = tx::ids(deps@);
        let mut list = deps;
        let mut sum: u64 = 0;
        let mut i: usize = 0;
        while i < tx.inputs.len()
            invariant
                i <= tx.inputs@.len(),
                start == tx::ids(deps@),
                brought(self@, db@, tx@, start, i as nat) == Ok::<_, Fault>(
                    (sum, tx::ids(list@)),
                ),
            decreases tx.inputs@.len() - i,
        {
            let vin = &tx.inputs[i];
            assert(tx@.inputs[i as int] == vin@);
            let res: Result<(), ChainError> = match get_record(
                db,
                tx.is_anonymous,
                &vin.txid,
                vin.vout,
            ) {
                Some(b) => match deserialize_output(b.as_slice()) {
                    None => Err(other("Deserialize output failed")),
                    Some(o) => match sum.checked_add(o.value) {
                        Some(x) => {
                            sum = x;
                            Ok(())
                        },
                        None => Err(ChainError::ValueOverflow),
                    },
                },
                None => if self.contains(&vin.txid) {
                    if !holds_id(&list, &vin.txid) {
                        proof {
                            lemma_ids_push(list@, vin.txid);
                        }
                        list.push(vin.txid);
                    }
                    Ok(())
                } else {
                    Err(ChainError::MissingUTXO)
                },
            };
            match res {
                Ok(_) => {},
                Err(e) => {
                    proof {
                        lemma_brought_stop(
                            self@,
                            db@,
                            tx@,
                            start,
                            (i + 1) as nat,
                            tx@.inputs.len(),
                            e@,
                        );
                    }
                    return Err(e);
                },
            }
            i += 1;
        }
        Ok((sum, list))
    }

    fn check_images(&self, tx: &Transaction) -> (r: Result<(), ChainError>)
        ensures
            ({
                let fault = crate::errors::first_fault(
                    |i: int| image_fault(self@, tx@.inputs, i),
                    tx@.inputs.len(),
                );
                match r {
                    Ok(_) => fault is None,
                    Err(e) => fault == Some(e@),
                }
            }),
    {
        let ghost check = |i: int| image_fault(self@, tx@.inputs, i);
        let mut i: usize = 0;
        while i < tx.inputs.len()
            invariant
                i <= tx.inputs@.len(),
                check == (|i: int| image_fault(self@, tx@.inputs, i)),
                crate::errors::first_fault(check, i as nat) is None,
            decreases tx.inputs@.len() - i,
        {
            let vin = &tx.inputs[i];
            assert(tx@.inputs[i as int] == vin@);
            let res: Result<(), ChainError> = if vin.script_sig.len() < 32 {
                Err(ChainError::InvalidScript)
            } else {
                let image = read32(vin.script_sig.as_slice(), 0);
                if lists_get(&self.key_images, &image).is_some() {
                    Err(ChainError::DoubleSpend)
                } else {
                    Ok(())
                }
            };
            match res {
                Ok(_) => {
                    assert(check(i as int) is None);
                },
                Err(e) => {
                    proof {
                        assert(check(i as int) == Some(e@));
                        assert(crate::errors::first_fault(check, (i + 1) as nat) == Some(e@));
                        crate::errors::lemma_first_fault(check, (i + 1) as nat, tx@.inputs.len());
                    }
                    return Err(e);
                },
            }
            i += 1;
        }
        Ok(())
    }

    fn make_entry(&self, db: &Snapshot, tx: Transaction, now_ms: u128) -> (r: Result<
        MempoolEntry,
        ChainError,
    >)
        requires
            pool_ok(self@),
        ensures
            match r {
                Ok(e) => entry_for(self@, db@, tx@, now_ms) == Ok::<_, Fault>(e@) && tx_size(e@.tx)
                    <= MAX_POOL_TX_SIZE,
                Err(e) => entry_for(self@, db@, tx@, now_ms) == Err::<pool_maps::EntryView, _>(e@),
            },
    {
        proof {
            reveal(entry_for);
        }
        let size: usize = tx.size();
        if size == 0 || size > MAX_POOL_TX_SIZE {
            proof {
                codec::lemma_tx_nonempty(tx@);
            }
            return Err(invalid_tx("Invalid size"));
        }
        let stack = self.pool_parents(&tx);
        let (deps, depth) = match self.pool_ancestors(stack) {
            Ok(x) => x,
            Err(e) => {
                return Err(e);
            },
        };
        if depth >= MAX_PACKAGE_DEPTH {
            return Err(ChainError::PackageDepthExceeded);
        }
        if !self.fits_package(size, &deps) {
            return Err(other("Package size exceeded"));
        }
        let (input_sum, depends_on) = match self.bring_in(db, &tx, deps) {
            Ok(x) => x,
            Err(e) => {
                return Err(e);
            },
        };
        let output_sum: u64 = match output_total(&tx.outputs) {
            Some(s) => s,
            None => {
                return Err(ChainError::ValueOverflow);
            },
        };
        let fee: u64 = match input_sum.checked_sub(output_sum) {
            Some(f) => f,
            None => {
                return Err(ChainError::ValueOverflow);
            },
        };
        let fee_per_byte: u64 = fee / size as u64;
        if tx.is_anonymous {
            match self.check_images(&tx) {
                Ok(_) => {},
                Err(e) => {
                    return Err(e);
                },
            }
        }
        Ok(MempoolEntry { tx: Arc::new(tx), fee_per_byte, time: now_ms, depends_on, fee })
    }

    fn note_images(&mut self, txid: &[u8; 32], tx: &Transaction)
        ensures
            final(self)@ == (PoolView {
                key_images: with_images(
                    old(self)@.key_images,
                    txid@,
                    tx@.inputs,
                    tx@.inputs.len(),
                ),
                ..old(self)@
            }),
    {
        let ghost start = self@;
        let mut i: usize = 0;
        while i < tx.inputs.len()
            invariant
                i <= tx.inputs@.len(),
                start == old(self)@,
                self@ == (PoolView {
                    key_images: with_images(start.key_images, txid@, tx@.inputs, i as nat),
                    ..start
                }),
            decreases tx.inputs@.len() - i,
        {
            let vin = &tx.inputs[i];
            assert(tx@.inputs[i as int] == vin@);
            if vin.script_sig.len() >= 32 {
                let image = read32(vin.script_sig.as_slice(), 0);
                let mut one: Vec<[u8; 32]> = Vec::new();
                one.push(*txid);
                assert(tx::ids(one@) =~= seq![txid@]);
                lists_put(&mut self.key_images, image, one);
            }
            i += 1;
        }
    }

    fn note_child(&mut self, txid: &[u8; 32], deps: &Vec<[u8; 32]>)
        ensures
            final(self)@ == (PoolView {
                by_parent: with_child(
                    old(self)@.by_parent,
                    txid@,
                    tx::ids(deps@),
                    deps@.len(),
                ),
                ..old(self)@
            }),
    {
        let ghost start = self@;
        let ghost all = tx::ids(deps@);
        let mut i: usize = 0;
        while i < deps.len()
            invariant
                i <= deps@.len(),
                all == tx::ids(deps@),
                start == old(self)@,
                self@ == (PoolView {
                    by_parent: with_child(start.by_parent, txid@, all, i as nat),
                    ..start
                }),
            decreases deps@.len() - i,
        {
            assert(all[i as int] == deps@[i as int]@);
            let mut list: Vec<[u8; 32]> = match lists_get(&self.by_parent, &deps[i]) {
                Some(v) => v,
                None => Vec::new(),
            };
            let ghost was = pool_maps::at(self@.by_parent, all[i as int]);
            proof {
                lemma_ids_push(list@, *txid);
                if was is None {
                    assert(tx::ids(list@) =~= Seq::<Seq<u8>>::empty());
                    assert(tx::ids(list@).push(txid@) =~= seq![txid@]);
                }
            }
            list.push(*txid);
            lists_put(&mut self.by_parent, deps[i], list);
            i += 1;
        }
    }

    fn enroll(&mut self, txid: [u8; 32], entry: MempoolEntry)
        requires
            pool_ok(old(self)@),
            tx_size(entry@.tx) <= MAX_POOL_TX_SIZE,
        ensures
            final(self)@ == enrolled(old(self)@, txid@, entry@),
            pool_ok(final(self)@),
    {
        proof {
            reveal(enrolled);
        }
        let ghost p = self@;
        let ghost e = entry@;
        let ghost id = txid@;
        if entry.tx.is_anonymous {
            self.note_images(&txid, &entry.tx);
        }
        let size: usize = entry.tx.size();
        self.heap.push(entry.clone());
        assert(self@.heap =~= p.heap.push(e));
        self.ttl.push((entry.time, txid));
        assert(self@.ttl =~= p.ttl.push((e.time, id)));
        let mut list: Vec<[u8; 32]> = match numbers_get(&self.expiration_index, entry.time) {
            Some(v) => v,
            None => Vec::new(),
        };
        proof {
            lemma_ids_push(list@, txid);
            if pool_maps::at(p.expiration, e.time) is None {
                assert(tx::ids(list@) =~= Seq::<Seq<u8>>::empty());
                assert(tx::ids(list@).push(id) =~= seq![id]);
            }
        }
        list.push(txid);
        numbers_put(&mut self.expiration_index, entry.time, list);
        self.total_bytes = self.total_bytes.wrapping_add(size);
        self.note_child(&txid, &entry.depends_on);
        let mut set: Vec<[u8; 32]> = match numbers_get(
            &self.fee_index,
            entry.fee_per_byte as u128,
        ) {
            Some(v) => v,
            None => Vec::new(),
        };
        proof {
            if pool_maps::at(p.fee_index, e.fee_per_byte as u128) is None {
                assert(tx::ids(set@) =~= Seq::<Seq<u8>>::empty());
            }
        }
        insert_ordered(&mut set, txid);
        numbers_put(&mut self.fee_index, entry.fee_per_byte as u128, set);
        txs_put(&mut self.txs, txid, entry);
        assert(self@ =~= enrolled(p, id, e));
        assert(pool_ok(self@));
    }

    /// Offers a transaction to the pool. After one was added to a pool that is
    /// not stuck, the pool has no more bytes and no more transactions than it may
    /// have, and nothing in it depends on a transaction that is gone.
    pub fn insert(&mut self, tx: Transaction, db: &Snapshot, now_ms: u128) -> (r: Result<
        Admission,
        ChainError,
    >)
        requires
            old(self).wf(),
        ensures
            offered(old(self)@, db@, tx@, now_ms, outcome(r), final(self)@),
            final(self).wf(),
            final(self).is_stuck() == (old(self).is_stuck() || r == Ok::<_, ChainError>(
                Admission::Stuck,
            )),
            !old(self).is_stuck() && r == Ok::<_, ChainError>(Admission::Added) ==> {
                let q = final(self)@;
                &&& q.total_bytes <= q.max_size
                &&& q.txs.dom().len() <= MAX_POOL_TXS
                &&& forall|k: Seq<u8>| #[trigger]
                    q.txs.dom().contains(k) ==> !misses(q, q.txs[k])
            },
    {
        let ghost p = self@;
        let ghost was = self.stuck@;
        let ghost t = tx@;
        let r = self.take_in(tx, db, now_ms);
        let ghost stuck = was || r == Ok::<_, ChainError>(Admission::Stuck);
        self.stuck = Ghost(stuck);
        proof {
            let q = self@;
            let o = outcome(r);
            if !was && o != Ok::<_, Fault>(Admission::Stuck) {
                pool_laws::lemma_settled_offered(p, db@, t, now_ms, o, q);
            }
            if !was && o == Ok::<_, Fault>(Admission::Added) {
                pool_laws::law_added_keeps_limits(p, db@, t, now_ms, q);
                pool_laws::law_no_dependency_is_missing(p, db@, t, now_ms, q);
            }
        }
        r
    }

    fn take_in(&mut self, tx: Transaction, db: &Snapshot, now_ms: u128) -> (r: Result<
        Admission,
        ChainError,
    >)
        requires
            pool_ok(old(self)@),
        ensures
            offered(old(self)@, db@, tx@, now_ms, outcome(r), final(self)@),
            pool_ok(final(self)@),
    {
        let ghost p = self@;
        let txid = tx.hash();
        if self.contains(&txid) {
            return Ok(Admission::Known);
        }
        let entry = match self.make_entry(db, tx, now_ms) {
            Ok(e) => e,
            Err(e) => {
                return Err(e);
            },
        };
        let ghost e = entry@;
        let fee_per_byte: u64 = entry.fee_per_byte;
        self.enroll(txid, entry);
        let len: usize = txs_len(&self.txs);
        match average_with(self.avg_fee, len, fee_per_byte) {
            Some(a) => {
                self.avg_fee = a;
            },
            None => {
                return Ok(Admission::Stuck);
            },
        }
        if !self.shrink() {
            return Ok(Admission::Stuck);
        }
        let ghost s = self@;
        assert(taken_in(p, txid@, e) == (s, true));
        let ok = self.drop_orphans();
        proof {
            let ids = choose|ids: Seq<Seq<u8>>|
                lists_stranded(s, ids) && (self@, ok) == #[trigger] removals(s, ids);
            lemma_offered_added(p, db@, tx@, now_ms, e, ids, self@, ok);
        }
        Ok(
            if ok {
                Admission::Added
            } else {
                Admission::Stuck
            },
        )
    }
}

proof fn lemma_offered_added(
    p: PoolView,
    db: store::Db,
    t: tx::TxView,
    now_ms: u128,
    e: pool_maps::EntryView,
    ids: Seq<Seq<u8>>,
    q: PoolView,
    ok: bool,
)
    requires
        !p.txs.dom().contains(tx::txid_of(t)),
        entry_for(p, db, t, now_ms) == Ok::<_, Fault>(e),
        taken_in(p, tx::txid_of(t), e).1,
        lists_stranded(taken_in(p, tx::txid_of(t), e).0, ids),
        removals(taken_in(p, tx::txid_of(t), e).0, ids) == (q, ok),
    ensures
        offered(
            p,
            db,
            t,
            now_ms,
            Ok(
                if ok {
                    Admission::Added
                } else {
                    Admission::Stuck
                },
            ),
            q,
        ),
{
}

proof fn lemma_brought_stop(
    p: PoolView,
    db: store::Db,
    t: tx::TxView,
    deps: Seq<Seq<u8>>,
    i: nat,
    n: nat,
    e: Fault,
)
    requires
        i <= n,
        brought(p, db, t, deps, i) == Err::<(u64, Seq<Seq<u8>>), Fault>(e),
    ensures
        brought(p, db, t, deps, n) == Err::<(u64, Seq<Seq<u8>>), Fault>(e),
    decreases n,
{
    if i < n {
        lemma_brought_stop(p, db, t, deps, i, (n - 1) as nat, e);
    }
}

/// A refused transaction leaves the pool as it is.
pub proof fn law_refused_leaves_pool(
    p: PoolView,
    db: store::Db,
    t: tx::TxView,
    now_ms: u128,
    r: Result<Admission, Fault>,
    q: PoolView,
)
    requires
        offered(p, db, t, now_ms, r, q),
        r is Err || r == Ok::<_, Fault>(Admission::Known),
    ensures
        q == p,
{
}

// ---------------------------------------------------------------------------
// The bytes of the pool
// ---------------------------------------------------------------------------

/// The bytes of transactions.
pub open spec fn bytes_in(m: Map<Seq<u8>, pool_maps::EntryView>) -> nat
    decreases m.dom().len(),
{
    if !m.dom().finite() || m.dom().len() == 0 {
        0
    } else {
        let id = m.dom().choose();
        proof {
            assert(m.remove(id).dom() =~= m.dom().remove(id));
        }
        tx_size(m[id].tx) + bytes_in(m.remove(id))
    }
}

/// Whether the bytes that a pool counts are those of its transactions.
pub open spec fn counted(p: PoolView) -> bool {
    p.txs.dom().finite() && p.total_bytes == bytes_in(p.txs)
}

proof fn lemma_bytes_without(m: Map<Seq<u8>, pool_maps::EntryView>, id: Seq<u8>)
    requires
        m.dom().finite(),
        m.dom().contains(id),
    ensures
        bytes_in(m) == tx_size(m[id].tx) + bytes_in(m.remove(id)),
    decreases m.dom().len(),
{
    let c = m.dom().choose();
    assert(m.dom().contains(c));
    assert(m.remove(c).dom() =~= m.dom().remove(c));
    assert(m.remove(id).dom() =~= m.dom().remove(id));
    if c != id {
        lemma_bytes_without(m.remove(c), id);
        lemma_bytes_without(m.remove(id), c);
        assert(m.remove(c).remove(id) =~= m.remove(id).remove(c));
    }
}

proof fn lemma_bytes_with(
    m: Map<Seq<u8>, pool_maps::EntryView>,
    id: Seq<u8>,
    e: pool_maps::EntryView,
)
    requires
        m.dom().finite(),
        !m.dom().contains(id),
    ensures
        bytes_in(m.insert(id, e)) == bytes_in(m) + tx_size(e.tx),
{
    let more = m.insert(id, e);
    assert(more.dom() =~= m.dom().insert(id));
    lemma_bytes_without(more, id);
    assert(more.remove(id) =~= m);
}

/// Whether every key image that a transaction of the pool spends is noted, as
/// spent by that transaction.
pub open spec fn images_noted(p: PoolView) -> bool {
    forall|id: Seq<u8>, i: int|
        p.txs.dom().contains(id) && p.txs[id].tx.is_anonymous && 0 <= i
            < p.txs[id].tx.inputs.len() && p.txs[id].tx.inputs[i].script_sig.len() >= 32
            ==> pool_maps::at(
            p.key_images,
            anon::key_image(#[trigger] p.txs[id].tx.inputs[i]),
        ) == Some(seq![id])
}

/// Whether every transaction of the pool is listed under its fee for each byte.
pub open spec fn fees_listed(p: PoolView) -> bool {
    forall|id: Seq<u8>| #[trigger]
        p.txs.dom().contains(id) ==> p.fee_index.dom().contains(p.txs[id].fee_per_byte as u128)
            && p.fee_index[p.txs[id].fee_per_byte as u128].contains(id)
}

/// Whether what holds of the bytes, of the key images and of the fees of a pool
/// holds of another.
pub open spec fn keeps(p: PoolView, q: PoolView) -> bool {
    &&& counted(p) ==> counted(q)
    &&& images_noted(p) ==> images_noted(q)
    &&& fees_listed(p) ==> fees_listed(q)
}

proof fn lemma_without_holds(s: Seq<Seq<u8>>, id: Seq<u8>, x: Seq<u8>)
    requires
        s.contains(x),
        x != id,
    ensures
        without(s, id).contains(x),
    decreases s.len(),
{
    let j = choose|j: int| 0 <= j < s.len() && s[j] == x;
    if s[0] == id {
        assert(s.skip(1)[j - 1] == x);
    } else if j == 0 {
        assert(without(s, id)[0] == x);
    } else {
        assert(s.skip(1)[j - 1] == x);
        lemma_without_holds(s.skip(1), id, x);
        let rest = without(s.skip(1), id);
        let k = choose|k: int| 0 <= k < rest.len() && rest[k] == x;
        assert(without(s, id)[k + 1] == x);
    }
}

proof fn lemma_ordered_holds(s: Seq<Seq<u8>>, id: Seq<u8>, x: Seq<u8>)
    requires
        s.contains(x) || x == id,
    ensures
        ordered_with(s, id).contains(x),
    decreases s.len(),
{
    if s.len() == 0 {
        assert(seq![id][0] == x);
    } else if s[0] == id {
        assert(s[0] == id);
    } else if id_before(id, s[0]) {
        let all = seq![id] + s;
        assert(all[0] == id);
        if x != id {
            let j = choose|j: int| 0 <= j < s.len() && s[j] == x;
            assert(all[j + 1] == x);
        }
    } else {
        let rest = ordered_with(s.skip(1), id);
        let all = seq![s[0]] + rest;
        assert(all[0] == s[0]);
        if x != s[0] {
            if x != id {
                let j = choose|j: int| 0 <= j < s.len() && s[j] == x;
                assert(s.skip(1)[j - 1] == x);
            }
            lemma_ordered_holds(s.skip(1), id, x);
            let k = choose|k: int| 0 <= k < rest.len() && rest[k] == x;
            assert(all[k + 1] == x);
        }
    }
}

proof fn lemma_unindexed_keeps(p: PoolView, id: Seq<u8>, e: pool_maps::EntryView)
    requires
        !p.txs.dom().contains(id),
    ensures
        keeps(p, unindexed(p, id, e)),
{
    let q = unindexed(p, id, e);
    if fees_listed(p) {
        assert forall|k: Seq<u8>| #[trigger]
            q.txs.dom().contains(k) implies q.fee_index.dom().contains(
            q.txs[k].fee_per_byte as u128,
        ) && q.fee_index[q.txs[k].fee_per_byte as u128].contains(k) by {
            assert(p.txs.dom().contains(k));
            let fee = p.txs[k].fee_per_byte as u128;
            if fee == e.fee_per_byte as u128 {
                lemma_without_holds(p.fee_index[fee], id, k);
            }
        }
    }
}

proof fn lemma_without_images(
    m: Map<Seq<u8>, Seq<Seq<u8>>>,
    inputs: Seq<tx::InputView>,
    n: nat,
    image: Seq<u8>,
)
    requires
        n <= inputs.len(),
        forall|i: int|
            0 <= i < n && inputs[i].script_sig.len() >= 32 ==> anon::key_image(
                #[trigger] inputs[i],
            ) != image,
    ensures
        pool_maps::at(without_images(m, inputs, n), image) == pool_maps::at(m, image),
    decreases n,
{
    if n > 0 {
        lemma_without_images(m, inputs, (n - 1) as nat, image);
        assert(inputs[n - 1].script_sig.len() >= 32 ==> anon::key_image(inputs[n - 1]) != image);
    }
}

proof fn lemma_with_images(
    m: Map<Seq<u8>, Seq<Seq<u8>>>,
    id: Seq<u8>,
    inputs: Seq<tx::InputView>,
    n: nat,
    image: Seq<u8>,
)
    requires
        n <= inputs.len(),
    ensures
        (exists|i: int|
            0 <= i < n && inputs[i].script_sig.len() >= 32 && anon::key_image(#[trigger] inputs[i])
                == image) ==> pool_maps::at(with_images(m, id, inputs, n), image) == Some(
            seq![id],
        ),
        !(exists|i: int|
            0 <= i < n && inputs[i].script_sig.len() >= 32 && anon::key_image(#[trigger] inputs[i])
                == image) ==> pool_maps::at(with_images(m, id, inputs, n), image)
            == pool_maps::at(m, image),
    decreases n,
{
    if n > 0 {
        lemma_with_images(m, id, inputs, (n - 1) as nat, image);
    }
}

proof fn lemma_dropped_keeps(p: PoolView, id: Seq<u8>)
    requires
        p.txs.dom().contains(id),
    ensures
        keeps(p, dropped(p, id, p.txs[id])),
{
    let e = p.txs[id];
    let q = dropped(p, id, e);
    if counted(p) {
        lemma_bytes_without(p.txs, id);
        assert(q.txs.dom() =~= p.txs.dom().remove(id));
    }
    if images_noted(p) && e.tx.is_anonymous {
        assert forall|k: Seq<u8>, i: int|
            q.txs.dom().contains(k) && q.txs[k].tx.is_anonymous && 0 <= i
                < q.txs[k].tx.inputs.len() && q.txs[k].tx.inputs[i].script_sig.len()
                >= 32 implies pool_maps::at(
            q.key_images,
            anon::key_image(#[trigger] q.txs[k].tx.inputs[i]),
        ) == Some(seq![k]) by {
            let image = anon::key_image(p.txs[k].tx.inputs[i]);
            assert(pool_maps::at(p.key_images, image) == Some(seq![k]));
            assert forall|j: int|
                0 <= j < e.tx.inputs.len() && e.tx.inputs[j].script_sig.len()
                    >= 32 implies anon::key_image(#[trigger] e.tx.inputs[j]) != image by {
                assert(pool_maps::at(
                    p.key_images,
                    anon::key_image(p.txs[id].tx.inputs[j]),
                ) == Some(seq![id]));
                assert(seq![id][0] == id && seq![k][0] == k);
            }
            lemma_without_images(p.key_images, e.tx.inputs, e.tx.inputs.len(), image);
        }
    }
}

proof fn lemma_removal_keeps(p: PoolView, id: Seq<u8>, fuel: nat)
    ensures
        keeps(p, removed(p, id, fuel).0),
    decreases fuel, 0nat,
{
    if p.txs.dom().contains(id) && fuel > 0 {
        let q = dropped(p, id, p.txs[id]);
        let alone = PoolView { by_parent: q.by_parent.remove(id), ..q };
        lemma_dropped_keeps(p, id);
        assert(keeps(q, alone));
        let (r, ok) = match pool_maps::at(q.by_parent, id) {
            Some(children) => {
                let n = children.len();
                lemma_removals_keep(alone, children, n, (fuel - 1) as nat);
                lemma_removals_only_take(alone, children, n, (fuel - 1) as nat);
                removed_all(alone, children, n, (fuel - 1) as nat)
            },
            None => (alone, true),
        };
        assert(!r.txs.dom().contains(id));
        lemma_unindexed_keeps(r, id, p.txs[id]);
    }
}

/// What holds of the bytes, of the key images and of the fees goes on holding
/// when transactions are taken out.
pub proof fn lemma_removals_keep(p: PoolView, ids: Seq<Seq<u8>>, n: nat, fuel: nat)
    ensures
        keeps(p, removed_all(p, ids, n, fuel).0),
    decreases fuel, n + 1,
{
    if n > 0 {
        lemma_removals_keep(p, ids, (n - 1) as nat, fuel);
        let (q, ok) = removed_all(p, ids, (n - 1) as nat, fuel);
        if ok {
            lemma_removal_keeps(q, ids[n - 1], fuel);
        }
    }
}

/// What holds of the bytes, of the key images and of the fees goes on holding
/// when an entry is put out.
pub proof fn lemma_evicted_keeps(p: PoolView)
    ensures
        keeps(p, evicted(p).0),
{
    reveal(evicted);
    if p.heap.len() > 0 {
        let i = cheapest(p.heap, p.heap.len());
        let id = tx::txid_of(p.heap[i].tx);
        let q = PoolView { heap: p.heap.remove(i), ..p };
        assert(keeps(p, q));
        lemma_removal_keeps(q, id, q.txs.dom().len());
        let r = removal(q, id).0;
        match pool_maps::at(r.by_parent, id) {
            Some(children) => {
                lemma_removals_keep(r, children, children.len(), r.txs.dom().len());
            },
            None => {},
        }
    }
}

proof fn lemma_shrunk_keeps(p: PoolView, n: nat)
    ensures
        keeps(p, shrunk(p, n).0),
    decreases n,
{
    if too_large(p) && n > 0 {
        lemma_evicted_keeps(p);
        if evicted(p).1 {
            lemma_shrunk_keeps(evicted(p).0, (n - 1) as nat);
        }
    }
}

/// An entry is that of the transaction, which is not too large and spends no key
/// image of the pool.
pub proof fn lemma_entry_made(p: PoolView, db: store::Db, t: tx::TxView, now_ms: u128)
    requires
        entry_for(p, db, t, now_ms) is Ok,
    ensures
        entry_for(p, db, t, now_ms)->Ok_0.tx == t,
        tx_size(t) <= MAX_POOL_TX_SIZE,
        t.is_anonymous ==> forall|i: int|
            0 <= i < t.inputs.len() ==> !p.key_images.dom().contains(
                anon::key_image(#[trigger] t.inputs[i]),
            ),
{
    reveal(entry_for);
    if t.is_anonymous {
        let check = |j: int| image_fault(p, t.inputs, j);
        assert forall|i: int| 0 <= i < t.inputs.len() implies !p.key_images.dom().contains(
            anon::key_image(#[trigger] t.inputs[i]),
        ) by {
            if check(i) is Some {
                assert(crate::errors::first_fault(check, (i + 1) as nat) is Some);
                crate::errors::lemma_first_fault(check, (i + 1) as nat, t.inputs.len());
            }
        }
    }
}

proof fn lemma_enrolled_notes(p: PoolView, db: store::Db, t: tx::TxView, now_ms: u128)
    requires
        images_noted(p),
        !p.txs.dom().contains(tx::txid_of(t)),
        entry_for(p, db, t, now_ms) is Ok,
    ensures
        images_noted(enrolled(p, tx::txid_of(t), entry_for(p, db, t, now_ms)->Ok_0)),
{
    reveal(enrolled);
    lemma_entry_made(p, db, t, now_ms);
    let id = tx::txid_of(t);
    let e = entry_for(p, db, t, now_ms)->Ok_0;
    let q = enrolled(p, id, e);
    assert forall|k: Seq<u8>, i: int|
        q.txs.dom().contains(k) && q.txs[k].tx.is_anonymous && 0 <= i < q.txs[k].tx.inputs.len()
            && q.txs[k].tx.inputs[i].script_sig.len() >= 32 implies pool_maps::at(
        q.key_images,
        anon::key_image(#[trigger] q.txs[k].tx.inputs[i]),
    ) == Some(seq![k]) by {
        let image = anon::key_image(q.txs[k].tx.inputs[i]);
        if t.is_anonymous {
            lemma_with_images(p.key_images, id, t.inputs, t.inputs.len(), image);
        }
        if k == id {
            assert(q.txs[k] == e);
            assert(anon::key_image(t.inputs[i]) == image);
        } else {
            assert(q.txs[k] == p.txs[k]);
            assert(pool_maps::at(
                p.key_images,
                anon::key_image(p.txs[k].tx.inputs[i]),
            ) == Some(seq![k]));
        }
    }
}

proof fn lemma_enrolled_lists(p: PoolView, id: Seq<u8>, e: pool_maps::EntryView)
    requires
        fees_listed(p),
    ensures
        fees_listed(enrolled(p, id, e)),
{
    reveal(enrolled);
    let q = enrolled(p, id, e);
    let fee = e.fee_per_byte as u128;
    let before = match pool_maps::at(p.fee_index, fee) {
        Some(s) => s,
        None => Seq::empty(),
    };
    lemma_ordered_holds(before, id, id);
    assert forall|k: Seq<u8>| #[trigger] q.txs.dom().contains(k) implies q.fee_index.dom().contains(
        q.txs[k].fee_per_byte as u128,
    ) && q.fee_index[q.txs[k].fee_per_byte as u128].contains(k) by {
        if k != id {
            assert(p.txs.dom().contains(k));
            if p.txs[k].fee_per_byte as u128 == fee {
                lemma_ordered_holds(before, id, k);
            }
        }
    }
}

proof fn lemma_taken_in_keeps(p: PoolView, db: store::Db, t: tx::TxView, now_ms: u128)
    requires
        !p.txs.dom().contains(tx::txid_of(t)),
        entry_for(p, db, t, now_ms) is Ok,
    ensures
        ({
            let q = taken_in(p, tx::txid_of(t), entry_for(p, db, t, now_ms)->Ok_0).0;
            &&& counted(p) && p.total_bytes + MAX_POOL_TX_SIZE <= usize::MAX ==> counted(q)
            &&& images_noted(p) ==> images_noted(q)
            &&& fees_listed(p) ==> fees_listed(q)
        }),
{
    let id = tx::txid_of(t);
    let e = entry_for(p, db, t, now_ms)->Ok_0;
    let q = enrolled(p, id, e);
    lemma_entry_made(p, db, t, now_ms);
    if fees_listed(p) {
        lemma_enrolled_lists(p, id, e);
    }
    if images_noted(p) {
        lemma_enrolled_notes(p, db, t, now_ms);
    }
    if counted(p) && p.total_bytes + MAX_POOL_TX_SIZE <= usize::MAX {
        reveal(enrolled);
        lemma_bytes_with(p.txs, id, e);
        assert(q.txs.dom() =~= p.txs.dom().insert(id));
        assert(counted(q));
    }
    match avg_with(q.avg_fee, q.txs.dom().len(), e.fee_per_byte) {
        None => {},
        Some(a) => {
            let r = PoolView { avg_fee: a, ..q };
            assert(keeps(q, r));
            lemma_shrunk_keeps(r, r.heap.len());
        },
    }
}

/// What holds of the bytes, of the key images and of the fees goes on holding
/// when a transaction is offered.
pub proof fn lemma_offered_keeps(
    p: PoolView,
    db: store::Db,
    t: tx::TxView,
    now_ms: u128,
    r: Result<Admission, Fault>,
    q: PoolView,
)
    requires
        offered(p, db, t, now_ms, r, q),
    ensures
        counted(p) && p.total_bytes + MAX_POOL_TX_SIZE <= usize::MAX ==> counted(q),
        images_noted(p) ==> images_noted(q),
        fees_listed(p) ==> fees_listed(q),
{
    let id = tx::txid_of(t);
    if !p.txs.dom().contains(id) && entry_for(p, db, t, now_ms) is Ok {
        lemma_taken_in_keeps(p, db, t, now_ms);
        let (s, ok) = taken_in(p, id, entry_for(p, db, t, now_ms)->Ok_0);
        if ok {
            let ids = choose|ids: Seq<Seq<u8>>|
                lists_stranded(s, ids) && q == (#[trigger] removals(s, ids)).0;
            lemma_removals_keep(s, ids, ids.len(), s.txs.dom().len());
        }
    }
}

/// What holds of the bytes, of the key images and of the fees goes on holding
/// when old transactions are forgotten.
pub proof fn lemma_cleaned_keeps(p: PoolView, now_ms: u128, expiration_ms: u128)
    ensures
        keeps(p, cleaned(p, now_ms, expiration_ms).0),
{
    let ids = p.ttl.map_values(|a: (u128, Seq<u8>)| a.1);
    lemma_removals_keep(p, ids, ids.len(), p.txs.dom().len());
}

/// The pool counts the bytes of its transactions: an empty one does, and one
/// that does goes on doing so, whatever is offered to it, taken out of it or
/// put out of it, and whatever grows too old.
pub proof fn law_pool_counts_bytes(
    p: PoolView,
    db: store::Db,
    t: tx::TxView,
    now_ms: u128,
    r: Result<Admission, Fault>,
    q: PoolView,
    ids: Seq<Seq<u8>>,
    expiration_ms: u128,
    max_size: usize,
)
    requires
        counted(p),
        p.total_bytes + MAX_POOL_TX_SIZE <= usize::MAX,
        offered(p, db, t, now_ms, r, q),
    ensures
        counted(empty_pool(max_size)),
        counted(q),
        counted(removals(p, ids).0),
        counted(evicted(p).0),
        counted(cleaned(p, now_ms, expiration_ms).0),
{
    assert(empty_pool(max_size).txs.dom() =~= Set::<Seq<u8>>::empty());
    lemma_offered_keeps(p, db, t, now_ms, r, q);
    lemma_removals_keep(p, ids, ids.len(), p.txs.dom().len());
    lemma_evicted_keeps(p);
    lemma_cleaned_keeps(p, now_ms, expiration_ms);
}

/// The pool notes the key images that its transactions spend: an empty one
/// does, and one that does goes on doing so, whatever is offered to it, taken
/// out of it or put out of it, and whatever grows too old.
pub proof fn law_pool_notes_images(
    p: PoolView,
    db: store::Db,
    t: tx::TxView,
    now_ms: u128,
    r: Result<Admission, Fault>,
    q: PoolView,
    ids: Seq<Seq<u8>>,
    expiration_ms: u128,
    max_size: usize,
)
    requires
        images_noted(p),
        offered(p, db, t, now_ms, r, q),
    ensures
        images_noted(empty_pool(max_size)),
        images_noted(q),
        images_noted(removals(p, ids).0),
        images_noted(evicted(p).0),
        images_noted(cleaned(p, now_ms, expiration_ms).0),
{
    lemma_offered_keeps(p, db, t, now_ms, r, q);
    lemma_removals_keep(p, ids, ids.len(), p.txs.dom().len());
    lemma_evicted_keeps(p);
    lemma_cleaned_keeps(p, now_ms, expiration_ms);
}

/// The pool lists its transactions under their fees, so that each is looked at
/// when a block is filled: an empty one does, and one that does goes on doing
/// so, whatever is offered to it, taken out of it or put out of it, and
/// whatever grows too old.
pub proof fn law_pool_lists_fees(
    p: PoolView,
    db: store::Db,
    t: tx::TxView,
    now_ms: u128,
    r: Result<Admission, Fault>,
    q: PoolView,
    ids: Seq<Seq<u8>>,
    expiration_ms: u128,
    max_size: usize,
)
    requires
        fees_listed(p),
        offered(p, db, t, now_ms, r, q),
    ensures
        fees_listed(empty_pool(max_size)),
        fees_listed(q),
        fees_listed(removals(p, ids).0),
        fees_listed(evicted(p).0),
        fees_listed(cleaned(p, now_ms, expiration_ms).0),
{
    lemma_offered_keeps(p, db, t, now_ms, r, q);
    lemma_removals_keep(p, ids, ids.len(), p.txs.dom().len());
    lemma_evicted_keeps(p);
    lemma_cleaned_keeps(p, now_ms, expiration_ms);
}

/// No key image is spent twice in the pool: two of its transactions that spend
/// the same one are the same.
pub proof fn law_images_spent_once(p: PoolView, a: Seq<u8>, i: int, b: Seq<u8>, j: int)
    requires
        images_noted(p),
        p.txs.dom().contains(a),
        p.txs.dom().contains(b),
        p.txs[a].tx.is_anonymous,
        p.txs[b].tx.is_anonymous,
        0 <= i < p.txs[a].tx.inputs.len(),
        0 <= j < p.txs[b].tx.inputs.len(),
        p.txs[a].tx.inputs[i].script_sig.len() >= 32,
        p.txs[b].tx.inputs[j].script_sig.len() >= 32,
        anon::key_image(p.txs[a].tx.inputs[i]) == anon::key_image(p.txs[b].tx.inputs[j]),
    ensures
        a == b,
{
    assert(pool_maps::at(p.key_images, anon::key_image(p.txs[a].tx.inputs[i])) == Some(seq![a]));
    assert(pool_maps::at(p.key_images, anon::key_image(p.txs[b].tx.inputs[j])) == Some(seq![b]));
    assert(seq![a][0] == a && seq![b][0] == b);
}

/// A pool that was brought within its limits is within them.
pub proof fn lemma_shrunk_fits(p: PoolView, n: nat)
    requires
        shrunk(p, n).1,
    ensures
        !too_large(shrunk(p, n).0),
    decreases n,
{
    if too_large(p) && n > 0 {
        lemma_shrunk_fits(evicted(p).0, (n - 1) as nat);
    }
}

/// Two transactions that spend the same key image are not in the pool
/// together: one that spends a noted key image is refused.
pub proof fn law_key_image_taken(
    p: PoolView,
    db: store::Db,
    t: tx::TxView,
    now_ms: u128,
    r: Result<Admission, Fault>,
    q: PoolView,
    i: int,
)
    requires
        offered(p, db, t, now_ms, r, q),
        !p.txs.dom().contains(tx::txid_of(t)),
        t.is_anonymous,
        0 <= i < t.inputs.len(),
        t.inputs[i].script_sig.len() >= 32,
        p.key_images.dom().contains(anon::key_image(t.inputs[i])),
    ensures
        r is Err,
        q == p,
{
    reveal(entry_for);
    let check = |j: int| image_fault(p, t.inputs, j);
    assert(check(i) is Some);
    assert(crate::errors::first_fault(check, (i + 1) as nat) is Some);
    crate::errors::lemma_first_fault(check, (i + 1) as nat, t.inputs.len());
}

// ---------------------------------------------------------------------------
// Choosing transactions for a block
// ---------------------------------------------------------------------------

/// A transaction with those it depends on, these first: the transactions,
/// their bytes, their identifiers, and the identifiers looked at for it and
/// for all packages so far.
pub struct PackageView {
    pub txs: Seq<tx::TxView>,
    pub size: nat,
    pub ids: Seq<Seq<u8>>,
    pub seen: Seq<Seq<u8>>,
    pub marked: Seq<Seq<u8>>,
}

/// The package with those that it depends on, from those in `stack` on, the
/// last first, up to the largest depth.
pub open spec fn grown(
    p: PoolView,
    stack: Seq<Seq<u8>>,
    k: PackageView,
    depth: nat,
) -> PackageView
    decreases MAX_PACKAGE_DEPTH - depth,
{
    if stack.len() == 0 || depth >= MAX_PACKAGE_DEPTH {
        k
    } else {
        let parent = stack.last();
        let rest = stack.drop_last();
        if k.seen.contains(parent) {
            grown(p, rest, k, depth + 1)
        } else {
            let noted = PackageView {
                seen: k.seen.push(parent),
                marked: k.marked.push(parent),
                ..k
            };
            match pool_maps::at(p.txs, parent) {
                None => grown(p, rest, noted, depth + 1),
                Some(e) => grown(
                    p,
                    rest + e.depends_on,
                    PackageView {
                        txs: seq![e.tx] + k.txs,
                        size: k.size + tx_size(e.tx),
                        ids: k.ids.push(parent),
                        ..noted
                    },
                    depth + 1,
                ),
            }
        }
    }
}

/// What was chosen so far: the transactions, their bytes, their identifiers,
/// and the identifiers looked at as dependencies.
pub struct Chosen {
    pub txs: Seq<tx::TxView>,
    pub size: nat,
    pub included: Seq<Seq<u8>>,
    pub marked: Seq<Seq<u8>>,
}

/// The choice after a transaction was considered: it is chosen with those it
/// depends on where all of them fit, unless it was looked at before.
pub open spec fn considered(p: PoolView, max_size: nat, id: Seq<u8>, c: Chosen) -> Chosen {
    if c.included.contains(id) || c.marked.contains(id) {
        c
    } else {
        match pool_maps::at(p.txs, id) {
            None => c,
            Some(e) => {
                let k = grown(
                    p,
                    e.depends_on,
                    PackageView {
                        txs: seq![e.tx],
                        size: tx_size(e.tx),
                        ids: seq![id],
                        seen: Seq::empty(),
                        marked: c.marked,
                    },
                    0,
                );
                if k.size <= max_size - c.size && k.size <= MAX_PACKAGE_SIZE {
                    Chosen {
                        txs: c.txs + k.txs,
                        size: c.size + k.size,
                        included: c.included + k.ids,
                        marked: k.marked,
                    }
                } else {
                    Chosen { marked: k.marked, ..c }
                }
            },
        }
    }
}

/// The choice after the first `n` transactions of one fee were considered.
pub open spec fn considered_all(
    p: PoolView,
    max_size: nat,
    ids: Seq<Seq<u8>>,
    n: nat,
    c: Chosen,
) -> Chosen
    decreases n,
{
    if n == 0 {
        c
    } else {
        considered(p, max_size, ids[n - 1], considered_all(p, max_size, ids, (n - 1) as nat, c))
    }
}

/// The choice after the first `n` fees were gone through; nothing more is
/// chosen once the limit is reached.
pub open spec fn chosen(p: PoolView, max_size: nat, rates: Seq<u128>, n: nat) -> Chosen
    decreases n,
{
    if n == 0 {
        Chosen { txs: Seq::empty(), size: 0, included: Seq::empty(), marked: Seq::empty() }
    } else {
        let c = chosen(p, max_size, rates, (n - 1) as nat);
        if c.size >= max_size {
            c
        } else {
            match pool_maps::at(p.fee_index, rates[n - 1]) {
                Some(ids) => considered_all(p, max_size, ids, ids.len(), c),
                None => c,
            }
        }
    }
}

/// Whether a list holds the fees of the pool, the highest first.
pub open spec fn lists_rates(p: PoolView, rates: Seq<u128>) -> bool {
    &&& forall|i: int, j: int| 0 <= i < j < rates.len() ==> rates[i] > rates[j]
    &&& forall|k: u128| p.fee_index.dom().contains(k) == #[trigger] rates.contains(k)
}

/// What is chosen fits the limit.
pub proof fn law_chosen_fits(p: PoolView, max_size: nat, rates: Seq<u128>, n: nat)
    ensures
        chosen(p, max_size, rates, n).size <= max_size,
    decreases n,
{
    if n > 0 {
        law_chosen_fits(p, max_size, rates, (n - 1) as nat);
        let c = chosen(p, max_size, rates, (n - 1) as nat);
        match pool_maps::at(p.fee_index, rates[n - 1]) {
            Some(ids) => {
                lemma_considered_fits(p, max_size, ids, ids.len(), c);
            },
            None => {},
        }
    }
}

proof fn lemma_considered_fits(
    p: PoolView,
    max_size: nat,
    ids: Seq<Seq<u8>>,
    n: nat,
    c: Chosen,
)
    requires
        c.size <= max_size,
    ensures
        considered_all(p, max_size, ids, n, c).size <= max_size,
    decreases n,
{
    if n > 0 {
        lemma_considered_fits(p, max_size, ids, (n - 1) as nat, c);
    }
}

/// Whether a transaction is in the pool.
pub open spec fn holds_tx(p: PoolView, t: tx::TxView) -> bool {
    exists|id: Seq<u8>| #[trigger] p.txs.dom().contains(id) && p.txs[id].tx == t
}

/// Whether all of the transactions are in the pool.
pub open spec fn holds_all(p: PoolView, txs: Seq<tx::TxView>) -> bool {
    forall|i: int| 0 <= i < txs.len() ==> #[trigger] holds_tx(p, txs[i])
}

/// What is chosen for a block comes from the pool.
pub proof fn law_chosen_from_pool(p: PoolView, max_size: nat, rates: Seq<u128>, n: nat)
    ensures
        holds_all(p, chosen(p, max_size, rates, n).txs),
    decreases n,
{
    if n > 0 {
        law_chosen_from_pool(p, max_size, rates, (n - 1) as nat);
        let c = chosen(p, max_size, rates, (n - 1) as nat);
        match pool_maps::at(p.fee_index, rates[n - 1]) {
            Some(ids) => {
                lemma_considered_from_pool(p, max_size, ids, ids.len(), c);
            },
            None => {},
        }
    }
}

proof fn lemma_considered_from_pool(
    p: PoolView,
    max_size: nat,
    ids: Seq<Seq<u8>>,
    n: nat,
    c: Chosen,
)
    requires
        holds_all(p, c.txs),
    ensures
        holds_all(p, considered_all(p, max_size, ids, n, c).txs),
    decreases n,
{
    if n > 0 {
        lemma_considered_from_pool(p, max_size, ids, (n - 1) as nat, c);
        let b = considered_all(p, max_size, ids, (n - 1) as nat, c);
        let id = ids[n - 1];
        match pool_maps::at(p.txs, id) {
            None => {},
            Some(e) => {
                let k = PackageView {
                    txs: seq![e.tx],
                    size: tx_size(e.tx),
                    ids: seq![id],
                    seen: Seq::empty(),
                    marked: b.marked,
                };
                assert(holds_tx(p, e.tx)) by {
                    assert(p.txs.dom().contains(id));
                }
                lemma_grown_from_pool(p, e.depends_on, k, 0);
                let all = b.txs + grown(p, e.depends_on, k, 0).txs;
                assert forall|i: int| 0 <= i < all.len() implies #[trigger] holds_tx(
                    p,
                    all[i],
                ) by {
                    if i < b.txs.len() {
                        assert(holds_tx(p, b.txs[i]));
                    } else {
                        assert(holds_tx(
                            p,
                            grown(p, e.depends_on, k, 0).txs[i - b.txs.len()],
                        ));
                    }
                }
            },
        }
    }
}

proof fn lemma_grown_from_pool(p: PoolView, stack: Seq<Seq<u8>>, k: PackageView, depth: nat)
    requires
        holds_all(p, k.txs),
    ensures
        holds_all(p, grown(p, stack, k, depth).txs),
    decreases MAX_PACKAGE_DEPTH - depth,
{
    if stack.len() > 0 && depth < MAX_PACKAGE_DEPTH {
        let parent = stack.last();
        let rest = stack.drop_last();
        if k.seen.contains(parent) {
            lemma_grown_from_pool(p, rest, k, depth + 1);
        } else {
            let noted = PackageView {
                seen: k.seen.push(parent),
                marked: k.marked.push(parent),
                ..k
            };
            match pool_maps::at(p.txs, parent) {
                None => {
                    lemma_grown_from_pool(p, rest, noted, depth + 1);
                },
                Some(e) => {
                    let more = PackageView {
                        txs: seq![e.tx] + k.txs,
                        size: k.size + tx_size(e.tx),
                        ids: k.ids.push(parent),
                        ..noted
                    };
                    assert forall|i: int| 0 <= i < more.txs.len() implies #[trigger] holds_tx(
                        p,
                        more.txs[i],
                    ) by {
                        if i == 0 {
                            assert(p.txs.dom().contains(parent));
                        } else {
                            assert(holds_tx(p, k.txs[i - 1]));
                        }
                    }
                    lemma_grown_from_pool(p, rest + e.depends_on, more, depth + 1);
                },
            }
        }
    }
}

/// What is being put together for a block.
struct Picker {
    txs: Vec<Transaction>,
    size: usize,
    included: Vec<[u8; 32]>,
    marked: Vec<[u8; 32]>,
}

impl Picker {
    spec fn view(&self) -> Chosen {
        Chosen {
            txs: self.txs@.map_values(|t: Transaction| t@),
            size: self.size as nat,
            included: tx::ids(self.included@),
            marked: tx::ids(self.marked@),
        }
    }
}

/// A transaction with those it depends on.
struct Package {
    txs: Vec<Transaction>,
    size: usize,
    ids: Vec<[u8; 32]>,
    seen: Vec<[u8; 32]>,
    marked: Vec<[u8; 32]>,
}

impl Package {
    spec fn view(&self) -> PackageView {
        PackageView {
            txs: self.txs@.map_values(|t: Transaction| t@),
            size: self.size as nat,
            ids: tx::ids(self.ids@),
            seen: tx::ids(self.seen@),
            marked: tx::ids(self.marked@),
        }
    }
}

/// Puts numbers in order, the highest first.
fn sort_down(v: &Vec<u128>) -> (r: Vec<u128>)
    requires
        v@.no_duplicates(),
    ensures
        forall|i: int, j: int| 0 <= i < j < r@.len() ==> r@[i] > r@[j],
        forall|k: u128| v@.contains(k) == #[trigger] r@.contains(k),
{
    let mut out: Vec<u128> = Vec::new();
    let mut i: usize = 0;
    while i < v.len()
        invariant
            i <= v@.len(),
            v@.no_duplicates(),
            forall|a: int, b: int| 0 <= a < b < out@.len() ==> out@[a] > out@[b],
            forall|k: u128| v@.take(i as int).contains(k) == #[trigger] out@.contains(k),
        decreases v@.len() - i,
    {
        let x: u128 = v[i];
        let ghost s = out@;
        proof {
            assert(!v@.take(i as int).contains(x)) by {
                if v@.take(i as int).contains(x) {
                    let k = choose|k: int| 0 <= k < i && v@.take(i as int)[k] == x;
                    assert(v@[k] == v@[i as int]);
                }
            }
            assert(!s.contains(x));
        }
        let mut j: usize = 0;
        while j < out.len() && out[j] > x
            invariant
                j <= out@.len(),
                out@ == s,
                forall|a: int| 0 <= a < j ==> s[a] > x,
            decreases out@.len() - j,
        {
            j += 1;
        }
        out.insert(j, x);
        proof {
            assert(out@ == s.insert(j as int, x));
            assert(forall|a: int| 0 <= a < s.len() ==> s.contains(#[trigger] s[a]));
            assert forall|a: int, b: int| 0 <= a < b < out@.len() implies out@[a] > out@[b] by {
                if j < s.len() {
                    assert(s.contains(s[j as int]));
                    assert(s[j as int] < x);
                }
                if a < j && b > j {
                    assert(s[a] > s[b - 1]);
                } else if a > j {
                    assert(s[a - 1] > s[b - 1]);
                } else if a == j {
                    if b - 1 > j {
                        assert(s[j as int] > s[b - 1]);
                    }
                }
            }
            let more = v@.take(i + 1);
            assert(more =~= v@.take(i as int).push(x));
            assert forall|k: u128| v@.take(i + 1).contains(k) == #[trigger] out@.contains(k) by {
                if v@.take(i + 1).contains(k) {
                    if k == x {
                        assert(out@[j as int] == k);
                    } else {
                        let z = choose|z: int| 0 <= z < more.len() && more[z] == k;
                        assert(v@.take(i as int)[z] == k);
                        assert(s.contains(k));
                        let y = choose|y: int| 0 <= y < s.len() && s[y] == k;
                        if y < j {
                            assert(out@[y] == k);
                        } else {
                            assert(out@[y + 1] == k);
                        }
                    }
                }
                if out@.contains(k) {
                    let y = choose|y: int| 0 <= y < out@.len() && out@[y] == k;
                    if y == j {
                        assert(more[i as int] == k);
                    } else {
                        if y < j {
                            assert(s[y] == k);
                        } else {
                            assert(s[y - 1] == k);
                        }
                        assert(s.contains(k));
                        let z = choose|z: int| 0 <= z < i && v@.take(i as int)[z] == k;
                        assert(more[z] == k);
                    }
                }
            }
        }
        i += 1;
    }
    assert(v@.take(i as int) =~= v@);
    out
}

impl Mempool {
    fn grow(&self, start: Vec<[u8; 32]>, package: Package) -> (r: Package)
        requires
            pool_ok(self@),
            package.size <= MAX_POOL_TX_SIZE,
        ensures
            r.view() == grown(self@, tx::ids(start@), package.view(), 0),
    {
        let ghost all = grown(self@, tx::ids(start@), package.view(), 0);
        let mut stack = start;
        let mut k = package;
        let mut depth: usize = 0;
        while stack.len() > 0 && depth < MAX_PACKAGE_DEPTH
            invariant
                depth <= MAX_PACKAGE_DEPTH,
                pool_ok(self@),
                k.size <= (depth + 1) * MAX_POOL_TX_SIZE,
                all == grown(self@, tx::ids(start@), package.view(), 0),
                grown(self@, tx::ids(stack@), k.view(), depth as nat) == all,
            decreases MAX_PACKAGE_DEPTH - depth,
        {
            let ghost s = tx::ids(stack@);
            let ghost v = k.view();
            let last: usize = stack.len() - 1;
            let parent: [u8; 32] = stack[last];
            stack.truncate(last);
            proof {
                assert(s.last() == parent@);
                assert(tx::ids(stack@) =~= s.drop_last());
            }
            if !holds_id(&k.seen, &parent) {
                proof {
                    lemma_ids_push(k.seen@, parent);
                    lemma_ids_push(k.marked@, parent);
                }
                k.seen.push(parent);
                k.marked.push(parent);
                match txs_get(&self.txs, &parent) {
                    Some(e) => {
                        assert(self@.txs.dom().contains(parent@));
                        let t: Transaction = (*e.tx).clone();
                        let size: usize = e.tx.size();
                        k.txs.insert(0, t);
                        k.size = k.size + size;
                        proof {
                            lemma_ids_push(k.ids@, parent);
                        }
                        k.ids.push(parent);
                        let mut more = copy_ids(&e.depends_on);
                        proof {
                            lemma_ids_append(stack@, more@);
                        }
                        stack.append(&mut more);
                        assert(k.view().txs =~= seq![e@.tx] + v.txs);
                    },
                    None => {},
                }
            }
            depth += 1;
        }
        k
    }

    fn consider(&self, max_size: usize, id: &[u8; 32], c: &mut Picker)
        requires
            pool_ok(self@),
            old(c).size <= max_size,
        ensures
            final(c).view() == considered(self@, max_size as nat, id@, old(c).view()),
            final(c).size <= max_size,
    {
        let ghost before = c.view();
        if holds_id(&c.included, id) || holds_id(&c.marked, id) {
            return ;
        }
        match txs_get(&self.txs, id) {
            None => {},
            Some(e) => {
                assert(self@.txs.dom().contains(id@));
                let mut txs: Vec<Transaction> = Vec::new();
                txs.push((*e.tx).clone());
                let mut ids: Vec<[u8; 32]> = Vec::new();
                ids.push(*id);
                let package = Package {
                    txs,
                    size: e.tx.size(),
                    ids,
                    seen: Vec::new(),
                    marked: copy_ids(&c.marked),
                };
                proof {
                    assert(package.view().txs =~= seq![e@.tx]);
                    assert(package.view().ids =~= seq![id@]);
                    assert(package.view().seen =~= Seq::<Seq<u8>>::empty());
                }
                let mut k = self.grow(copy_ids(&e.depends_on), package);
                let ghost kv = k.view();
                c.marked = k.marked;
                if k.size <= max_size - c.size && k.size <= MAX_PACKAGE_SIZE {
                    proof {
                        lemma_ids_append(c.included@, k.ids@);
                    }
                    c.txs.append(&mut k.txs);
                    c.size = c.size + k.size;
                    c.included.append(&mut k.ids);
                    assert(c.view().txs =~= before.txs + kv.txs);
                }
            },
        }
    }

    /// Chooses transactions for a block of a size: those that pay most for
    /// each byte first, each with those it depends on in front of it.
    pub fn select_txs(&self, max_size: usize) -> (r: Vec<Transaction>)
        requires
            self.wf(),
        ensures
            exists|rates: Seq<u128>| #[trigger]
                lists_rates(self@, rates) && r@.map_values(|t: Transaction| t@) == chosen(
                    self@,
                    max_size as nat,
                    rates,
                    rates.len(),
                ).txs,
    {
        let keys = numbers_keys(&self.fee_index);
        let rates = sort_down(&keys);
        assert(lists_rates(self@, rates@));
        let mut c = Picker {
            txs: Vec::new(),
            size: 0,
            included: Vec::new(),
            marked: Vec::new(),
        };
        let mut i: usize = 0;
        proof {
            assert(c.view().txs =~= Seq::<tx::TxView>::empty());
            assert(c.view().included =~= Seq::<Seq<u8>>::empty());
            assert(c.view().marked =~= Seq::<Seq<u8>>::empty());
        }
        while i < rates.len()
            invariant
                i <= rates@.len(),
                self.wf(),
                c.size <= max_size,
                c.view() == chosen(self@, max_size as nat, rates@, i as nat),
            decreases rates@.len() - i,
        {
            let ghost before = c.view();
            if c.size < max_size {
                match numbers_get(&self.fee_index, rates[i]) {
                    Some(ids) => {
                        let ghost list = tx::ids(ids@);
                        let mut k: usize = 0;
                        while k < ids.len()
                            invariant
                                k <= ids@.len(),
                                list == tx::ids(ids@),
                                self.wf(),
                                c.size <= max_size,
                                c.view() == considered_all(
                                    self@,
                                    max_size as nat,
                                    list,
                                    k as nat,
                                    before,
                                ),
                            decreases ids@.len() - k,
                        {
                            assert(list[k as int] == ids@[k as int]@);
                            self.consider(max_size, &ids[k], &mut c);
                            k += 1;
                        }
                    },
                    None => {},
                }
            }
            i += 1;
        }
        c.txs
    }
}

// ---------------------------------------------------------------------------
// Forgetting old transactions
// ---------------------------------------------------------------------------

/// Whether a time is too long ago.
pub open spec fn too_old(time: u128, now_ms: u128, expiration_ms: u128) -> bool {
    now_ms - time > expiration_ms
}

/// The latest time of the first `n` arrivals.
pub open spec fn latest(s: Seq<(u128, Seq<u8>)>, n: nat) -> u128
    decreases n,
{
    if n == 0 {
        0
    } else {
        let t = latest(s, (n - 1) as nat);
        if s[n - 1].0 > t {
            s[n - 1].0
        } else {
            t
        }
    }
}

/// The index by time without the times that are too long ago.
pub open spec fn young(
    m: Map<u128, Seq<Seq<u8>>>,
    now_ms: u128,
    expiration_ms: u128,
) -> Map<u128, Seq<Seq<u8>>> {
    m.restrict(Set::new(|t: u128| !too_old(t, now_ms, expiration_ms)))
}

/// The pool after old transactions were forgotten, and whether the average fee
/// could be kept. The arrivals are judged by the latest: where it is too long
/// ago, all of them are taken out.
pub open spec fn cleaned(p: PoolView, now_ms: u128, expiration_ms: u128) -> (PoolView, bool) {
    let (q, ok) = if p.ttl.len() > 0 && too_old(
        latest(p.ttl, p.ttl.len()),
        now_ms,
        expiration_ms,
    ) {
        let (r, ok) = removals(p, p.ttl.map_values(|a: (u128, Seq<u8>)| a.1));
        if ok {
            (PoolView { ttl: Seq::empty(), ..r }, true)
        } else {
            (r, false)
        }
    } else {
        (p, true)
    };
    if ok {
        (PoolView { expiration: young(q.expiration, now_ms, expiration_ms), ..q }, true)
    } else {
        (q, false)
    }
}

impl Mempool {
    fn drop_old_times(&mut self, now_ms: u128, expiration_ms: u128)
        ensures
            final(self)@ == (PoolView {
                expiration: young(old(self)@.expiration, now_ms, expiration_ms),
                ..old(self)@
            }),
    {
        let ghost p = self@;
        let keys = numbers_keys(&self.expiration_index);
        let mut i: usize = 0;
        while i < keys.len()
            invariant
                i <= keys@.len(),
                p == old(self)@,
                forall|k: u128| p.expiration.dom().contains(k) == #[trigger] keys@.contains(k),
                self@ == (PoolView { expiration: self@.expiration, ..p }),
                forall|k: u128| #[trigger]
                    self@.expiration.dom().contains(k) <==> p.expiration.dom().contains(k) && !(
                    keys@.take(i as int).contains(k) && too_old(k, now_ms, expiration_ms)),
                forall|k: u128| #[trigger]
                    self@.expiration.dom().contains(k) ==> self@.expiration[k] == p.expiration[k],
            decreases keys@.len() - i,
        {
            let k: u128 = keys[i];
            proof {
                let more = keys@.take(i + 1);
                assert(more =~= keys@.take(i as int).push(k));
                assert forall|x: u128| keys@.take(i + 1).contains(x) == (keys@.take(
                    i as int,
                ).contains(x) || x == k) by {
                    if keys@.take(i as int).contains(x) {
                        let z = choose|z: int| 0 <= z < i && keys@.take(i as int)[z] == x;
                        assert(more[z] == x);
                    }
                    assert(more[i as int] == k);
                    if more.contains(x) && x != k {
                        let z = choose|z: int| 0 <= z < more.len() && more[z] == x;
                        assert(keys@.take(i as int)[z] == x);
                    }
                }
            }
            if now_ms.saturating_sub(k) > expiration_ms {
                numbers_take(&mut self.expiration_index, k);
            }
            i += 1;
        }
        proof {
            assert(keys@.take(i as int) =~= keys@);
            assert(self@.expiration =~= young(p.expiration, now_ms, expiration_ms));
        }
    }

    /// Forgets old transactions. Returns whether the average fee could be kept.
    pub fn clean_expired(&mut self, now_ms: u128, expiration_ms: u128) -> (r: bool)
        requires
            old(self).wf(),
        ensures
            (final(self)@, r) == cleaned(old(self)@, now_ms, expiration_ms),
            final(self).wf(),
            final(self).is_stuck() == (old(self).is_stuck() || !r),
    {
        let ghost p = self@;
        let ghost was = self.stuck@;
        let ok = self.clean_within(now_ms, expiration_ms);
        let ghost stuck = was || !ok;
        self.stuck = Ghost(stuck);
        proof {
            if !was && ok {
                pool_laws::lemma_settled_cleaned(p, now_ms, expiration_ms);
            }
        }
        ok
    }

    fn clean_within(&mut self, now_ms: u128, expiration_ms: u128) -> (r: bool)
        requires
            pool_ok(old(self)@),
        ensures
            (final(self)@, r) == cleaned(old(self)@, now_ms, expiration_ms),
            pool_ok(final(self)@),
    {
        let ghost p = self@;
        let mut newest: u128 = 0;
        let mut ids: Vec<[u8; 32]> = Vec::new();
        let mut i: usize = 0;
        while i < self.ttl.len()
            invariant
                i <= self.ttl@.len(),
                *self == *old(self),
                p == self@,
                newest == latest(p.ttl, i as nat),
                ids@.len() == i,
                forall|j: int| 0 <= j < i ==> (#[trigger] ids@[j])@ == p.ttl[j].1,
            decreases self.ttl@.len() - i,
        {
            assert(p.ttl[i as int] == (self.ttl@[i as int].0, self.ttl@[i as int].1@));
            if self.ttl[i].0 > newest {
                newest = self.ttl[i].0;
            }
            ids.push(self.ttl[i].1);
            i += 1;
        }
        assert(tx::ids(ids@) =~= p.ttl.map_values(|a: (u128, Seq<u8>)| a.1));
        if self.ttl.len() > 0 && now_ms.saturating_sub(newest) > expiration_ms {
            let ghost fuel = p.txs.dom().len();
            if !self.remove_all_within(&ids, Ghost(fuel)) {
                return false;
            }
            self.ttl = Vec::new();
            assert(self@.ttl =~= Seq::<(u128, Seq<u8>)>::empty());
        }
        self.drop_old_times(now_ms, expiration_ms);
        true
    }
}

// ---------------------------------------------------------------------------
// What the pool takes in, puts out and hands to a block
// ---------------------------------------------------------------------------

proof fn lemma_no_parents(p: PoolView, inputs: Seq<tx::InputView>, n: nat)
    requires
        n <= inputs.len(),
        forall|i: int|
            0 <= i < n ==> !p.txs.dom().contains((#[trigger] inputs[i]).txid@),
    ensures
        parents(p, inputs, n) == Seq::<Seq<u8>>::empty(),
    decreases n,
{
    if n > 0 {
        lemma_no_parents(p, inputs, (n - 1) as nat);
        assert(!p.txs.dom().contains(inputs[n - 1].txid@));
    }
}

proof fn lemma_all_brought(
    p: PoolView,
    db: store::Db,
    t: tx::TxView,
    deps: Seq<Seq<u8>>,
    amounts: Seq<u64>,
    n: nat,
)
    requires
        n <= t.inputs.len(),
        amounts.len() == t.inputs.len(),
        forall|i: int|
            0 <= i < t.inputs.len() ==> {
                let rec = validate::record(db, t.is_anonymous, #[trigger] t.inputs[i]);
                rec is Some && codec::read_output(rec->0) is Some && codec::read_output(
                    rec->0,
                )->0.value == amounts[i]
            },
        tx::sum(amounts) <= u64::MAX,
    ensures
        brought(p, db, t, deps, n) == Ok::<(u64, Seq<Seq<u8>>), Fault>(
            (tx::sum(amounts.take(n as int)) as u64, deps),
        ),
    decreases n,
{
    if n == 0 {
        assert(amounts.take(0) =~= Seq::<u64>::empty());
    } else {
        lemma_all_brought(p, db, t, deps, amounts, (n - 1) as nat);
        let vin = t.inputs[n - 1];
        assert(validate::record(db, t.is_anonymous, vin) is Some);
        assert(amounts.take(n as int).drop_last() =~= amounts.take(n - 1));
        tx::lemma_sum_take(amounts, n as int);
        tx::lemma_sum_take(amounts, n - 1);
    }
}

/// What a transparent transaction that depends on none in the pool is noted
/// with: where it has no more than 500000 bytes, and its inputs bring in what
/// its outputs take out, it is noted as it came, with what is left as its fee
/// and that over its bytes, rounded down, as its rate; where they bring in
/// less, or it is larger, it is refused.
pub proof fn law_plain_transaction_is_noted(
    p: PoolView,
    db: store::Db,
    t: tx::TxView,
    now_ms: u128,
    amounts: Seq<u64>,
)
    requires
        !t.is_anonymous,
        codec::enc_tx(t).len() > 0,
        forall|i: int|
            0 <= i < t.inputs.len() ==> !p.txs.dom().contains((#[trigger] t.inputs[i]).txid@),
        amounts.len() == t.inputs.len(),
        forall|i: int|
            0 <= i < t.inputs.len() ==> {
                let rec = validate::record(db, false, #[trigger] t.inputs[i]);
                rec is Some && codec::read_output(rec->0) is Some && codec::read_output(
                    rec->0,
                )->0.value == amounts[i]
            },
        tx::sum(amounts) <= u64::MAX,
    ensures
        ({
            let r = entry_for(p, db, t, now_ms);
            let ins = tx::sum(amounts);
            let outs = tx::sum(tx::values(t.outputs));
            let size = codec::enc_tx(t).len();
            &&& r is Ok <==> size <= 500_000 && outs <= ins
            &&& size > 500_000 ==> r == Err::<pool_maps::EntryView, Fault>(
                Fault::InvalidTx("Invalid size"@),
            )
            &&& size <= 500_000 && outs > ins ==> r == Err::<pool_maps::EntryView, Fault>(
                Fault::ValueOverflow,
            )
            &&& r is Ok ==> {
                let e = r->Ok_0;
                &&& e.tx == t
                &&& e.time == now_ms
                &&& e.depends_on.len() == 0
                &&& outs + e.fee == ins
                &&& e.fee_per_byte * size <= e.fee < (e.fee_per_byte + 1) * size
            }
        }),
{
    reveal(entry_for);
    let n = t.inputs.len();
    let none = Seq::<Seq<u8>>::empty();
    let size = tx_size(t) as int;
    lemma_no_parents(p, t.inputs, n);
    lemma_all_brought(p, db, t, none, amounts, n);
    assert(amounts.take(n as int) =~= amounts);
    let fee = tx::sum(amounts) - tx::sum(tx::values(t.outputs));
    if fee >= 0 {
        let rate = fee / size;
        vstd::arithmetic::div_mod::lemma_fundamental_div_mod(fee, size);
        assert(size * rate + fee % size == fee);
        assert(rate * size <= fee < (rate + 1) * size && 0 <= rate <= fee) by (nonlinear_arith)
            requires
                size > 0,
                fee >= 0,
                rate == fee / size,
                size * rate + fee % size == fee,
        ;
    }
}

/// A transaction that may be taken in is in the pool afterwards, and nothing
/// else changes among the transactions, where there is room: no more than the
/// allowed bytes, and no more than 50000 transactions. The average rate is that
/// of all, rounded down.
pub proof fn law_noted_transaction_enters(
    p: PoolView,
    id: Seq<u8>,
    e: pool_maps::EntryView,
)
    requires
        p.txs.dom().finite(),
        !p.txs.dom().contains(id),
        p.txs.dom().len() < 50_000,
        p.total_bytes + codec::enc_tx(e.tx).len() <= p.max_size,
        p.avg_fee * p.txs.dom().len() + e.fee_per_byte <= u64::MAX,
    ensures
        ({
            let (q, ok) = taken_in(p, id, e);
            let n = p.txs.dom().len() + 1;
            let all = p.avg_fee * p.txs.dom().len() + e.fee_per_byte;
            &&& ok
            &&& q.txs == p.txs.insert(id, e)
            &&& q.total_bytes == p.total_bytes + codec::enc_tx(e.tx).len()
            &&& q.heap == p.heap.push(e)
            &&& q.max_size == p.max_size
            &&& q.avg_fee * n <= all < (q.avg_fee + 1) * n
        }),
{
    reveal(enrolled);
    let n = (p.txs.dom().len() + 1) as int;
    let all = p.avg_fee * p.txs.dom().len() + e.fee_per_byte;
    let a = all / n;
    vstd::arithmetic::div_mod::lemma_fundamental_div_mod(all, n);
    assert(a * n <= all < (a + 1) * n && 0 <= a <= all) by (nonlinear_arith)
        requires
            n > 0,
            all >= 0,
            a == all / n,
            n * a + all % n == all,
    ;
}

/// What is put out first is among the cheapest: no other pays less for each
/// byte, and of those that pay the same none came later. One that pays half the
/// average or more stays in the pool, one that pays less is taken out of it; and
/// nothing comes into the pool.
pub proof fn law_cheapest_is_put_out(p: PoolView) -> (i: int)
    requires
        p.heap.len() > 0,
    ensures
        0 <= i < p.heap.len(),
        forall|j: int|
            0 <= j < p.heap.len() ==> p.heap[i].fee_per_byte <= (
            #[trigger] p.heap[j]).fee_per_byte,
        forall|j: int|
            0 <= j < p.heap.len() && p.heap[i].fee_per_byte == (
            #[trigger] p.heap[j]).fee_per_byte ==> p.heap[j].time <= p.heap[i].time,
        p.heap[i].fee_per_byte >= p.avg_fee / 2 ==> evicted(p) == (
            PoolView { heap: p.heap.remove(i), ..p },
            true,
        ),
        p.heap[i].fee_per_byte < p.avg_fee / 2 && evicted(p).1 ==> !evicted(
            p,
        ).0.txs.dom().contains(tx::txid_of(p.heap[i].tx)),
        evicted(p).0.heap == p.heap.remove(i),
        evicted(p).0.txs.dom().subset_of(p.txs.dom()),
{
    reveal(evicted);
    let n = p.heap.len();
    let i = cheapest(p.heap, n);
    law_cheapest_goes_first(p.heap, n, 0);
    assert forall|j: int| 0 <= j < n implies p.heap[i].fee_per_byte <= (
    #[trigger] p.heap[j]).fee_per_byte && (p.heap[i].fee_per_byte == p.heap[j].fee_per_byte
        ==> p.heap[j].time <= p.heap[i].time) by {
        law_cheapest_goes_first(p.heap, n, j);
    }
    let id = tx::txid_of(p.heap[i].tx);
    let q = PoolView { heap: p.heap.remove(i), ..p };
    let r = removal(q, id).0;
    law_removal_only_takes(q, id, q.txs.dom().len());
    match pool_maps::at(r.by_parent, id) {
        Some(children) => {
            lemma_removals_only_take(r, children, children.len(), r.txs.dom().len());
        },
        None => {},
    }
    i
}

/// The bytes of transactions.
pub open spec fn bytes_of(txs: Seq<tx::TxView>) -> nat
    decreases txs.len(),
{
    if txs.len() == 0 {
        0
    } else {
        bytes_of(txs.drop_last()) + codec::enc_tx(txs.last()).len()
    }
}

proof fn lemma_bytes_join(a: Seq<tx::TxView>, b: Seq<tx::TxView>)
    ensures
        bytes_of(a + b) == bytes_of(a) + bytes_of(b),
    decreases b.len(),
{
    if b.len() == 0 {
        assert(a + b =~= a);
    } else {
        lemma_bytes_join(a, b.drop_last());
        assert((a + b).drop_last() =~= a + b.drop_last());
    }
}

proof fn lemma_bytes_one(t: tx::TxView)
    ensures
        bytes_of(seq![t]) == codec::enc_tx(t).len(),
{
    assert(seq![t].drop_last() =~= Seq::<tx::TxView>::empty());
    assert(bytes_of(seq![t].drop_last()) == 0);
}

proof fn lemma_grown_bytes(p: PoolView, stack: Seq<Seq<u8>>, k: PackageView, depth: nat)
    requires
        k.size == bytes_of(k.txs),
    ensures
        grown(p, stack, k, depth).size == bytes_of(grown(p, stack, k, depth).txs),
    decreases MAX_PACKAGE_DEPTH - depth,
{
    if stack.len() > 0 && depth < MAX_PACKAGE_DEPTH {
        let parent = stack.last();
        let rest = stack.drop_last();
        let noted = PackageView {
            seen: k.seen.push(parent),
            marked: k.marked.push(parent),
            ..k
        };
        if k.seen.contains(parent) {
            lemma_grown_bytes(p, rest, k, depth + 1);
        } else {
            match pool_maps::at(p.txs, parent) {
                None => {
                    lemma_grown_bytes(p, rest, noted, depth + 1);
                },
                Some(e) => {
                    lemma_bytes_join(seq![e.tx], k.txs);
                    lemma_bytes_one(e.tx);
                    lemma_grown_bytes(
                        p,
                        rest + e.depends_on,
                        PackageView {
                            txs: seq![e.tx] + k.txs,
                            size: k.size + tx_size(e.tx),
                            ids: k.ids.push(parent),
                            ..noted
                        },
                        depth + 1,
                    );
                },
            }
        }
    }
}

proof fn lemma_considered_bytes(p: PoolView, max_size: nat, ids: Seq<Seq<u8>>, n: nat, c: Chosen)
    requires
        c.size == bytes_of(c.txs),
    ensures
        considered_all(p, max_size, ids, n, c).size == bytes_of(
            considered_all(p, max_size, ids, n, c).txs,
        ),
    decreases n,
{
    if n > 0 {
        lemma_considered_bytes(p, max_size, ids, (n - 1) as nat, c);
        let d = considered_all(p, max_size, ids, (n - 1) as nat, c);
        let id = ids[n - 1];
        match pool_maps::at(p.txs, id) {
            None => {},
            Some(e) => {
                let one = PackageView {
                    txs: seq![e.tx],
                    size: tx_size(e.tx),
                    ids: seq![id],
                    seen: Seq::empty(),
                    marked: d.marked,
                };
                lemma_bytes_one(e.tx);
                lemma_grown_bytes(p, e.depends_on, one, 0);
                lemma_bytes_join(d.txs, grown(p, e.depends_on, one, 0).txs);
            },
        }
    }
}

/// The transactions that are chosen for a block have no more bytes together
/// than allowed.
pub proof fn law_chosen_bytes_fit(p: PoolView, max_size: nat, rates: Seq<u128>, n: nat)
    ensures
        bytes_of(chosen(p, max_size, rates, n).txs) <= max_size,
        chosen(p, max_size, rates, n).size == bytes_of(chosen(p, max_size, rates, n).txs),
    decreases n,
{
    law_chosen_fits(p, max_size, rates, n);
    if n > 0 {
        law_chosen_bytes_fit(p, max_size, rates, (n - 1) as nat);
        let c = chosen(p, max_size, rates, (n - 1) as nat);
        match pool_maps::at(p.fee_index, rates[n - 1]) {
            Some(ids) => {
                lemma_considered_bytes(p, max_size, ids, ids.len(), c);
            },
            None => {},
        }
    }
}

/// A transaction that depends on none and was not looked at yet is chosen after
/// those chosen before exactly where it fits: in what is left of the block, and
/// in 1000000 bytes.
pub proof fn law_fitting_transaction_is_chosen(
    p: PoolView,
    max_size: nat,
    id: Seq<u8>,
    c: Chosen,
)
    requires
        !c.included.contains(id),
        !c.marked.contains(id),
        p.txs.dom().contains(id),
        p.txs[id].depends_on.len() == 0,
    ensures
        ({
            let t = p.txs[id].tx;
            let size = codec::enc_tx(t).len();
            let d = considered(p, max_size, id, c);
            &&& c.size + size <= max_size && size <= 1_000_000 ==> d.txs == c.txs.push(t)
                && d.size == c.size + size && d.included == c.included.push(id)
            &&& c.size + size > max_size || size > 1_000_000 ==> d.txs == c.txs && d.size == c.size
                && d.included == c.included
        }),
{
    let t = p.txs[id].tx;
    assert(c.txs + seq![t] =~= c.txs.push(t));
    assert(c.included + seq![id] =~= c.included.push(id));
}

} // verus!
