//! The explorer: blocks, transactions, balances and lists of addresses.
use crate::address;
use crate::address::{address_to_pubkey_hash, pubkey_hash_to_address};
use crate::bytes;
use crate::bytes::{append_bytes, from_be, read20, same32, starts_with};
use crate::codec;
use crate::codec::deserialize_position;
use crate::config;
use crate::config::parse_hash;
use crate::errors::{other, ChainError, Fault};
use crate::hash;
use crate::hash::hash160;
use crate::index;
use crate::index::{query_addr_index, Entry, Row, LOOKUP_AT};
use crate::keys;
use crate::keys::make_addr_prefix;
use crate::ledger;
use crate::ledger::load_block_by_height;
use crate::order;
use crate::order::order_desc;
use crate::peer_maps;
use crate::peer_maps::{amounts_entries, amounts_get, amounts_new, amounts_put, AmountMap};
use crate::secp::PublicKey;
use crate::state::IdMap;
use crate::store;
use crate::store::{Cf, Snapshot};
use crate::text;
use crate::text::parse_number;
use crate::tx;
use crate::tx::{Block, Transaction};
use vstd::prelude::*;

verus! {

/// How many of the latest blocks are searched for a transaction that is not in
/// the index.
pub const SEARCH_DEPTH: usize = 10_000;

/// From which height on a node counts as synchronized.
pub const SYNCED_HEIGHT: usize = 10;

/// Whether a node counts as synchronized.
pub fn is_synchronized(best_height: usize) -> (r: bool)
    ensures
        r == (best_height > SYNCED_HEIGHT),
{
    best_height > SYNCED_HEIGHT
}

// ---------------------------------------------------------------------------
// Blocks
// ---------------------------------------------------------------------------

/// What a block is asked for by.
#[derive(Debug, Clone, Copy, PartialEq, Eq)]
pub enum BlockQuery {
    /// By its hash.
    Hash([u8; 32]),
    /// By its height.
    Height(usize),
}

/// What a [`BlockQuery`] says.
pub enum QueryView {
    Hash(Seq<u8>),
    Height(usize),
}

impl View for BlockQuery {
    type V = QueryView;

    open spec fn view(&self) -> QueryView {
        match self {
            BlockQuery::Hash(h) => QueryView::Hash(h@),
            BlockQuery::Height(n) => QueryView::Height(*n),
        }
    }
}

/// What a text asks for: 64 bytes are a hash, anything else is a height.
pub open spec fn block_query(t: Seq<char>) -> Result<QueryView, Fault> {
    if vstd::utf8::encode_utf8(t).len() == 64 {
        match config::hash_of_text(t) {
            Some(h) => Ok(QueryView::Hash(h)),
            None => Err(Fault::Other("Invalid hash"@)),
        }
    } else {
        match text::number_of(t) {
            Some(n) => if n <= usize::MAX {
                Ok(QueryView::Height(n as usize))
            } else {
                Err(Fault::Other("Invalid height"@))
            },
            None => Err(Fault::Other("Invalid height"@)),
        }
    }
}

/// What a text asks for.
pub fn parse_block_query(t: &str) -> (r: Result<BlockQuery, ChainError>)
    ensures
        (match r {
            Ok(q) => Ok::<QueryView, Fault>(q@),
            Err(e) => Err(e@),
        }) == block_query(t@),
{
    if t.as_bytes().len() == 64 {
        match parse_hash(t) {
            Some(h) => Ok(BlockQuery::Hash(h)),
            None => Err(other("Invalid hash")),
        }
    } else {
        match parse_number(t) {
            Some(n) => {
                if n <= usize::MAX as u64 {
                    Ok(BlockQuery::Height(n as usize))
                } else {
                    Err(other("Invalid height"))
                }
            },
            None => Err(other("Invalid height")),
        }
    }
}

/// The block that is asked for, given the heights of known hashes.
pub open spec fn queried_block(db: store::Db, heights: Map<Seq<u8>, usize>, q: QueryView) -> Result<
    tx::BlockView,
    Fault,
> {
    match q {
        QueryView::Height(h) => ledger::block_at(db, h),
        QueryView::Hash(id) => if heights.dom().contains(id) {
            ledger::block_at(db, heights[id])
        } else {
            Err(Fault::Other("Block not found"@))
        },
    }
}

/// The block that is asked for.
pub fn find_block(db: &Snapshot, heights: &IdMap, q: &BlockQuery) -> (r: Result<Block, ChainError>)
    ensures
        (match r {
            Ok(b) => Ok::<tx::BlockView, Fault>(b@),
            Err(e) => Err(e@),
        }) == queried_block(db@, heights@, q@),
{
    match q {
        BlockQuery::Height(h) => load_block_by_height(db, *h),
        BlockQuery::Hash(id) => match heights.get(id) {
            Some(h) => load_block_by_height(db, h),
            None => Err(other("Block not found")),
        },
    }
}

// ---------------------------------------------------------------------------
// Transactions
// ---------------------------------------------------------------------------

/// Where a transaction is.
pub enum TxPlace {
    /// The index has it: the height of its block, how many blocks confirm it,
    /// and the transaction.
    Indexed(usize, usize, Transaction),
    /// One of the latest blocks holds it: the height of the block.
    Recent(usize),
    /// It was not found.
    Missing,
}

/// What a [`TxPlace`] says.
pub enum PlaceView {
    Indexed(usize, usize, tx::TxView),
    Recent(usize),
    Missing,
}

impl View for TxPlace {
    type V = PlaceView;

    open spec fn view(&self) -> PlaceView {
        match self {
            TxPlace::Indexed(h, c, t) => PlaceView::Indexed(*h, *c, t@),
            TxPlace::Recent(h) => PlaceView::Recent(*h),
            TxPlace::Missing => PlaceView::Missing,
        }
    }
}

/// Whether a block holds a transaction.
pub open spec fn holds_tx(b: tx::BlockView, txid: Seq<u8>) -> bool {
    tx::txids(b.txs).contains(txid)
}

/// The latest block from a height down to another that holds a transaction.
pub open spec fn search_down(db: store::Db, txid: Seq<u8>, from: int, low: int) -> Result<
    PlaceView,
    Fault,
>
    decreases from - low + 1,
{
    if from < low {
        Ok(PlaceView::Missing)
    } else {
        match ledger::block_at(db, from as usize) {
            Err(e) => Err(e),
            Ok(b) => if holds_tx(b, txid) {
                Ok(PlaceView::Recent(from as usize))
            } else {
                search_down(db, txid, from - 1, low)
            },
        }
    }
}

/// The lowest height that is searched.
pub open spec fn search_floor(best_height: usize) -> int {
    if best_height > SEARCH_DEPTH {
        best_height - SEARCH_DEPTH
    } else {
        0
    }
}

/// Where a transaction is, by the index or by the latest blocks.
pub open spec fn tx_place(db: store::Db, best_height: usize, txid: Seq<u8>) -> Result<
    PlaceView,
    Fault,
> {
    match store::read(db, Cf::TxIndex, txid) {
        Some(data) => match codec::read_position(data) {
            None => Err(Fault::Other("Deserialize position failed"@)),
            Some(p) => if p.0 > best_height {
                Err(Fault::Other("Height out of range"@))
            } else {
                match ledger::block_at(db, p.0 as usize) {
                    Err(e) => Err(e),
                    Ok(b) => if p.1 >= b.txs.len() {
                        Err(Fault::Other("Position out of range"@))
                    } else {
                        Ok(
                            PlaceView::Indexed(
                                p.0 as usize,
                                index::confirmations_of(best_height, p.0),
                                b.txs[p.1 as int],
                            ),
                        )
                    },
                }
            },
        },
        None => search_down(db, txid, best_height as int, search_floor(best_height)),
    }
}

/// Whether a block holds a transaction.
fn block_holds(b: &Block, txid: &[u8; 32]) -> (r: bool)
    ensures
        r == holds_tx(b@, txid@),
{
    let ghost ids = tx::txids(b@.txs);
    let mut i: usize = 0;
    while i < b.txs.len()
        invariant
            i <= b.txs@.len(),
            ids == tx::txids(b@.txs),
            forall|j: int| 0 <= j < i ==> #[trigger] ids[j] != txid@,
        decreases b.txs@.len() - i,
    {
        let id = b.txs[i].hash();
        proof {
            bytes::lemma_id_ext(id, *txid);
            assert(b@.txs[i as int] == b.txs@[i as int]@);
            assert(ids[i as int] == id@);
        }
        if same32(&id, txid) {
            assert(ids.contains(txid@));
            return true;
        }
        i += 1;
    }
    proof {
        if ids.contains(txid@) {
            let j = ids.index_of(txid@);
            assert(ids[j] == txid@);
        }
    }
    false
}

/// What a result with a place says.
pub open spec fn place_verdict(r: Result<TxPlace, ChainError>) -> Result<PlaceView, Fault> {
    match r {
        Ok(p) => Ok(p@),
        Err(e) => Err(e@),
    }
}

/// The latest block that holds a transaction.
fn search_blocks(db: &Snapshot, best_height: usize, txid: &[u8; 32]) -> (r: Result<
    TxPlace,
    ChainError,
>)
    ensures
        place_verdict(r) == search_down(
            db@,
            txid@,
            best_height as int,
            search_floor(best_height),
        ),
{
    let low: usize = best_height.saturating_sub(SEARCH_DEPTH);
    let mut h: usize = best_height;
    loop
        invariant
            low == search_floor(best_height),
            low <= h <= best_height,
            search_down(db@, txid@, best_height as int, low as int) == search_down(
                db@,
                txid@,
                h as int,
                low as int,
            ),
        decreases h,
    {
        match load_block_by_height(db, h) {
            Err(e) => {
                return Err(e);
            },
            Ok(b) => {
                if block_holds(&b, txid) {
                    return Ok(TxPlace::Recent(h));
                }
            },
        }
        if h == low {
            assert(search_down(db@, txid@, h - 1, low as int) == Ok::<PlaceView, Fault>(
                PlaceView::Missing,
            ));
            return Ok(TxPlace::Missing);
        }
        h = h - 1;
    }
}

/// Where a transaction is, by the index or by the latest blocks. A record of
/// the index that points outside the chain or its block is an error.
pub fn find_tx(db: &Snapshot, best_height: usize, txid: &[u8; 32]) -> (r: Result<
    TxPlace,
    ChainError,
>)
    ensures
        place_verdict(r) == tx_place(db@, best_height, txid@),
{
    match db.get(Cf::TxIndex, txid.as_slice()) {
        Some(data) => match deserialize_position(data.as_slice()) {
            None => Err(other("Deserialize position failed")),
            Some((height, at)) => {
                if height > best_height as u64 {
                    return Err(other("Height out of range"));
                }
                let h: usize = height as usize;
                match load_block_by_height(db, h) {
                    Err(e) => Err(e),
                    Ok(b) => {
                        if at >= b.txs.len() as u64 {
                            return Err(other("Position out of range"));
                        }
                        let t = b.txs[at as usize].clone();
                        assert(b@.txs[at as int] == b.txs@[at as int]@);
                        Ok(TxPlace::Indexed(h, index::confirmations(best_height, height), t))
                    },
                }
            },
        },
        None => search_blocks(db, best_height, txid),
    }
}

// ---------------------------------------------------------------------------
// Pages
// ---------------------------------------------------------------------------

/// From where to where a page of a list reaches, pages being counted from 1;
/// `None` where there is no such page number.
pub open spec fn page_of(page: usize, size: usize, total: nat) -> Option<(int, int)> {
    let start = (page - 1) * size;
    let end = start + size;
    if page == 0 || end > usize::MAX {
        None
    } else {
        Some(
            (
                if start < total {
                    start
                } else {
                    total as int
                },
                if end < total {
                    end
                } else {
                    total as int
                },
            ),
        )
    }
}

/// From where to where a page of a list reaches.
pub fn page_bounds(page: usize, size: usize, total: usize) -> (r: Option<(usize, usize)>)
    ensures
        (match r {
            Some((a, b)) => Some((a as int, b as int)),
            None => None::<(int, int)>,
        }) == page_of(page, size, total as nat),
        r is Some ==> (r->0).0 <= (r->0).1 <= total,
{
    if page == 0 {
        return None;
    }
    proof {
        assert(0 <= (page - 1) * size) by (nonlinear_arith)
            requires
                page >= 1,
        ;
    }
    let start: usize = match (page - 1).checked_mul(size) {
        Some(s) => s,
        None => {
            return None;
        },
    };
    let end: usize = match start.checked_add(size) {
        Some(e) => e,
        None => {
            return None;
        },
    };
    Some(
        (
            if start < total {
                start
            } else {
                total
            },
            if end < total {
                end
            } else {
                total
            },
        ),
    )
}

/// Pages follow one another: where one ends the next begins.
pub proof fn law_pages_follow(page: usize, size: usize, total: nat)
    requires
        page < usize::MAX,
        page_of(page, size, total) is Some,
        page_of((page + 1) as usize, size, total) is Some,
    ensures
        (page_of(page, size, total)->0).1 == (page_of((page + 1) as usize, size, total)->0).0,
        page == 1 ==> (page_of(page, size, total)->0).0 == 0,
{
    assert((page - 1) * size + size == page * size) by (nonlinear_arith);
    assert(0 * size == 0);
}

/// The entries of an address on a page, and how many there are in all.
pub open spec fn address_page(
    rows: Seq<(Seq<u8>, Seq<u8>)>,
    address: Seq<char>,
    page: usize,
    size: usize,
) -> Result<(nat, Seq<index::EntryView>), Fault> {
    match address::address_hash(address) {
        Err(e) => Err(e),
        Ok(pkh) => {
            let found = index::entries_of(
                index::rows_at(rows, index::prefix_of(pkh)),
                LOOKUP_AT as int,
            );
            match found.1 {
                Some(e) => Err(e),
                None => match page_of(page, size, found.0.len()) {
                    None => Err(Fault::Other("Invalid page"@)),
                    Some(b) => Ok((found.0.len(), found.0.subrange(b.0, b.1))),
                },
            }
        },
    }
}

/// The entries of an address on a page, and how many there are in all.
pub fn list_address(rows: &Vec<Row>, address: &str, page: usize, size: usize) -> (r: Result<
    (usize, Vec<Entry>),
    ChainError,
>)
    ensures
        (match r {
            Ok((n, v)) => Ok::<(nat, Seq<index::EntryView>), Fault>(
                (n as nat, index::entries_view(v@)),
            ),
            Err(e) => Err(e@),
        }) == address_page(index::rows_view(rows@), address@, page, size),
{
    let pkh = match address_to_pubkey_hash(address) {
        Ok(h) => h,
        Err(e) => {
            return Err(e);
        },
    };
    let all = match query_addr_index(rows, &pkh) {
        Ok(v) => v,
        Err(e) => {
            return Err(e);
        },
    };
    match page_bounds(page, size, all.len()) {
        None => Err(other("Invalid page")),
        Some((start, end)) => {
            let mut out: Vec<Entry> = Vec::new();
            let mut i: usize = start;
            while i < end
                invariant
                    start <= i <= end <= all@.len(),
                    out@.len() == i - start,
                    forall|j: int| 0 <= j < out@.len() ==> #[trigger] out@[j] == all@[start + j],
                decreases end - i,
            {
                out.push(all[i]);
                i += 1;
            }
            assert(index::entries_view(out@) =~= index::entries_view(all@).subrange(
                start as int,
                end as int,
            ));
            Ok((all.len(), out))
        },
    }
}

// ---------------------------------------------------------------------------
// Balances
// ---------------------------------------------------------------------------

/// What the first `n` rows come to.
pub open spec fn strict_balance(rows: Seq<(Seq<u8>, Seq<u8>)>, n: nat) -> Result<nat, Fault>
    decreases n,
{
    if n == 0 {
        Ok(0)
    } else {
        match strict_balance(rows, (n - 1) as nat) {
            Err(e) => Err(e),
            Ok(b) => if rows[n - 1].1.len() != 8 {
                Err(Fault::Other("Invalid index value"@))
            } else if b + bytes::be_value(rows[n - 1].1) > u64::MAX {
                Err(Fault::ValueOverflow)
            } else {
                Ok(b + bytes::be_value(rows[n - 1].1))
            },
        }
    }
}

/// The balance of an address.
pub open spec fn address_balance(rows: Seq<(Seq<u8>, Seq<u8>)>, address: Seq<char>) -> Result<
    nat,
    Fault,
> {
    match address::address_hash(address) {
        Err(e) => Err(e),
        Ok(pkh) => {
            let own = index::rows_at(rows, index::prefix_of(pkh));
            strict_balance(own, own.len())
        },
    }
}

proof fn lemma_strict_prefix(a: Seq<(Seq<u8>, Seq<u8>)>, b: Seq<(Seq<u8>, Seq<u8>)>, n: nat)
    requires
        n <= a.len() <= b.len(),
        forall|i: int| 0 <= i < a.len() ==> a[i] == b[i],
    ensures
        strict_balance(a, n) == strict_balance(b, n),
    decreases n,
{
    if n > 0 {
        lemma_strict_prefix(a, b, (n - 1) as nat);
    }
}

proof fn lemma_strict_fails(rows: Seq<(Seq<u8>, Seq<u8>)>, i: nat, n: nat)
    requires
        i <= n,
        strict_balance(rows, i) is Err,
    ensures
        strict_balance(rows, n) == strict_balance(rows, i),
    decreases n,
{
    if i < n {
        lemma_strict_fails(rows, i, (n - 1) as nat);
    }
}

proof fn lemma_filter_grows(
    all: Seq<(Seq<u8>, Seq<u8>)>,
    prefix: Seq<u8>,
    i: int,
    n: int,
)
    requires
        0 <= i <= n <= all.len(),
    ensures
        index::rows_at(all.take(i), prefix).len() <= index::rows_at(all.take(n), prefix).len(),
        forall|j: int|
            0 <= j < index::rows_at(all.take(i), prefix).len() ==> #[trigger] index::rows_at(
                all.take(i),
                prefix,
            )[j] == index::rows_at(all.take(n), prefix)[j],
    decreases n - i,
{
    if i < n {
        lemma_filter_grows(all, prefix, i, n - 1);
        reveal(Seq::filter);
        assert(all.take(n).drop_last() =~= all.take(n - 1));
    }
}

/// The balance of an address.
pub fn get_address_balance(rows: &Vec<Row>, address: &str) -> (r: Result<u64, ChainError>)
    ensures
        (match r {
            Ok(b) => Ok::<nat, Fault>(b as nat),
            Err(e) => Err(e@),
        }) == address_balance(index::rows_view(rows@), address@),
{
    let pkh = match address_to_pubkey_hash(address) {
        Ok(h) => h,
        Err(e) => {
            return Err(e);
        },
    };
    let prefix = make_addr_prefix(&pkh);
    sum_rows(rows, prefix)
}

/// What the rows with a prefix come to.
fn sum_rows(rows: &Vec<Row>, prefix: Vec<u8>) -> (r: Result<u64, ChainError>)
    ensures
        ({
            let own = index::rows_at(index::rows_view(rows@), prefix@);
            (match r {
                Ok(b) => Ok::<nat, Fault>(b as nat),
                Err(e) => Err(e@),
            }) == strict_balance(own, own.len())
        }),
{
    let ghost all = index::rows_view(rows@);
    let ghost own = index::rows_at(all, prefix@);
    let mut balance: u64 = 0;
    let mut i: usize = 0;
    proof {
        reveal(Seq::filter);
        assert(all.take(0) =~= Seq::<(Seq<u8>, Seq<u8>)>::empty());
        assert(all.take(all.len() as int) =~= all);
    }
    while i < rows.len()
        invariant
            i <= rows@.len(),
            all == index::rows_view(rows@),
            own == index::rows_at(all, prefix@),
            all.take(all.len() as int) == all,
            strict_balance(
                index::rows_at(all.take(i as int), prefix@),
                index::rows_at(all.take(i as int), prefix@).len(),
            ) == Ok::<nat, Fault>(balance as nat),
        decreases rows@.len() - i,
    {
        let ghost before = index::rows_at(all.take(i as int), prefix@);
        let ghost after = index::rows_at(all.take(i + 1), prefix@);
        proof {
            reveal(Seq::filter);
            assert(all.take(i + 1).drop_last() =~= all.take(i as int));
            assert(all.take(i + 1).last() == index::row_view(rows@[i as int]));
        }
        if starts_with(rows[i].0.as_slice(), prefix.as_slice()) {
            proof {
                assert(after == before.push(index::row_view(rows@[i as int])));
                lemma_strict_prefix(before, after, before.len());
                lemma_filter_grows(all, prefix@, i + 1, all.len() as int);
                lemma_strict_prefix(after, own, after.len());
            }
            let value = rows[i].1.as_slice();
            if value.len() != 8 {
                proof {
                    lemma_strict_fails(own, after.len(), own.len());
                }
                return Err(other("Invalid index value"));
            }
            proof {
                bytes::lemma_be_write_read(value@);
                bytes::lemma_pow256_values();
            }
            let amount: u64 = from_be(value) as u64;
            if amount > u64::MAX - balance {
                proof {
                    lemma_strict_fails(own, after.len(), own.len());
                }
                return Err(ChainError::ValueOverflow);
            }
            balance = balance + amount;
        }
        i += 1;
    }
    Ok(balance)
}

// ---------------------------------------------------------------------------
// The richest addresses
// ---------------------------------------------------------------------------

/// The amounts by hash of the first `n` rows of the index.
pub open spec fn totals_upto(rows: Seq<(Seq<u8>, Seq<u8>)>, n: nat) -> Result<
    Map<Seq<u8>, u64>,
    Fault,
>
    decreases n,
{
    if n == 0 {
        Ok(Map::empty())
    } else {
        let (key, value) = rows[n - 1];
        match totals_upto(rows, (n - 1) as nat) {
            Err(e) => Err(e),
            Ok(m) => if !keys::addr_tag().is_prefix_of(key) {
                Ok(m)
            } else if key.len() < 25 {
                Err(Fault::Other("Index key too short"@))
            } else if value.len() != 8 {
                Err(Fault::Other("Invalid index value"@))
            } else {
                let pkh = key.subrange(5, 25);
                let sum = amount_at(m, pkh) + bytes::be_value(value);
                if sum > u64::MAX {
                    Err(Fault::ValueOverflow)
                } else {
                    Ok(m.insert(pkh, sum as u64))
                }
            },
        }
    }
}

/// The amount of a hash.
pub open spec fn amount_at(m: Map<Seq<u8>, u64>, pkh: Seq<u8>) -> nat {
    if m.dom().contains(pkh) {
        m[pkh] as nat
    } else {
        0
    }
}

proof fn lemma_totals_fail(rows: Seq<(Seq<u8>, Seq<u8>)>, i: nat, n: nat)
    requires
        i <= n,
        totals_upto(rows, i) is Err,
    ensures
        totals_upto(rows, n) == totals_upto(rows, i),
    decreases n,
{
    if i < n {
        lemma_totals_fail(rows, i, (n - 1) as nat);
    }
}

/// The amounts by hash of the rows of the index.
fn total_amounts(rows: &Vec<Row>) -> (r: Result<AmountMap, ChainError>)
    ensures
        (match r {
            Ok(m) => Ok::<Map<Seq<u8>, u64>, Fault>(peer_maps::amounts(m)),
            Err(e) => Err(e@),
        }) == totals_upto(index::rows_view(rows@), rows@.len()),
{
    let ghost all = index::rows_view(rows@);
    let tag: Vec<u8> = vec![0x61, 0x64, 0x64, 0x72, 0x3a];
    assert(tag@ =~= keys::addr_tag());
    let mut m = amounts_new();
    let mut i: usize = 0;
    assert(peer_maps::amounts(m) =~= Map::<Seq<u8>, u64>::empty());
    while i < rows.len()
        invariant
            i <= rows@.len(),
            all == index::rows_view(rows@),
            tag@ == keys::addr_tag(),
            totals_upto(all, i as nat) == Ok::<Map<Seq<u8>, u64>, Fault>(peer_maps::amounts(m)),
        decreases rows@.len() - i,
    {
        let key = rows[i].0.as_slice();
        let value = rows[i].1.as_slice();
        assert(all[i as int] == (key@, value@));
        let ghost next = (i + 1) as nat;
        if starts_with(key, tag.as_slice()) {
            if key.len() < 25 {
                proof {
                    lemma_totals_fail(all, next, all.len());
                }
                return Err(other("Index key too short"));
            }
            if value.len() != 8 {
                proof {
                    lemma_totals_fail(all, next, all.len());
                }
                return Err(other("Invalid index value"));
            }
            let pkh = read20(key, 5);
            proof {
                bytes::lemma_be_write_read(value@);
                bytes::lemma_pow256_values();
            }
            let amount: u64 = from_be(value) as u64;
            let before: u64 = match amounts_get(&m, &pkh) {
                Some(a) => a,
                None => 0,
            };
            assert(before == amount_at(peer_maps::amounts(m), pkh@));
            if amount > u64::MAX - before {
                proof {
                    lemma_totals_fail(all, next, all.len());
                }
                return Err(ChainError::ValueOverflow);
            }
            amounts_put(&mut m, pkh, before + amount);
        }
        i += 1;
    }
    Ok(m)
}

/// A line of the list of the richest addresses.
#[derive(Debug, PartialEq, Eq)]
pub struct RichEntry {
    /// The rank, counted from 1.
    pub rank: usize,
    /// The address.
    pub address: String,
    /// The amount.
    pub amount: u64,
}

/// What a [`RichEntry`] says.
pub struct RichView {
    pub rank: nat,
    pub address: Seq<char>,
    pub amount: u64,
}

impl View for RichEntry {
    type V = RichView;

    open spec fn view(&self) -> RichView {
        RichView { rank: self.rank as nat, address: self.address@, amount: self.amount }
    }
}

/// Whether entries are those of a map, each once.
pub open spec fn lists_amounts(m: Map<Seq<u8>, u64>, e: Seq<(Seq<u8>, u64)>) -> bool {
    &&& e.no_duplicates()
    &&& forall|k: Seq<u8>, a: u64|
        (m.dom().contains(k) && m[k] == a) == #[trigger] e.contains((k, a))
}

/// The amounts of entries.
pub open spec fn entry_amounts(e: Seq<(Seq<u8>, u64)>) -> Seq<u64> {
    e.map_values(|x: (Seq<u8>, u64)| x.1)
}

/// The lines of a list of entries from a place on, the richest first.
pub open spec fn rich_lines(e: Seq<(Seq<u8>, u64)>, start: nat, size: nat) -> Seq<RichView> {
    let o = order::order_of(entry_amounts(e));
    Seq::new(
        if start >= e.len() {
            0
        } else if e.len() - start < size {
            (e.len() - start) as nat
        } else {
            size
        },
        |i: int|
            RichView {
                rank: (start + i + 1) as nat,
                address: address::address_text(
                    address::PUBKEY_HASH_VERSION,
                    e[o[start + i]].0,
                ),
                amount: e[o[start + i]].1,
            },
    )
}

/// What a list of lines says.
pub open spec fn rich_view(v: Seq<RichEntry>) -> Seq<RichView> {
    v.map_values(|e: RichEntry| e@)
}

/// Whether lines are a page of the richest addresses; of addresses with the
/// same amount, any may come first.
pub open spec fn rich_page(m: Map<Seq<u8>, u64>, start: nat, size: nat, v: Seq<RichView>) -> bool {
    exists|e: Seq<(Seq<u8>, u64)>| #[trigger] lists_amounts(m, e) && v == rich_lines(e, start, size)
}

/// A page of the richest addresses, pages being counted from 1.
pub fn rich_list(rows: &Vec<Row>, page: usize, size: usize) -> (r: Result<Vec<RichEntry>, ChainError>)
    ensures
        match totals_upto(index::rows_view(rows@), rows@.len()) {
            Err(f) => r is Err && r->Err_0@ == f,
            Ok(m) => if page == 0 || (page - 1) * size > usize::MAX {
                r is Err && r->Err_0@ == Fault::Other("Invalid page"@)
            } else {
                r is Ok && rich_page(
                    m,
                    ((page - 1) * size) as nat,
                    size as nat,
                    rich_view(r->Ok_0@),
                )
            },
        },
{
    let m = match total_amounts(rows) {
        Ok(m) => m,
        Err(e) => {
            return Err(e);
        },
    };
    let ghost held = peer_maps::amounts(m);
    if page == 0 {
        return Err(other("Invalid page"));
    }
    proof {
        assert(0 <= (page - 1) * size) by (nonlinear_arith)
            requires
                page >= 1,
        ;
    }
    let start: usize = match (page - 1).checked_mul(size) {
        Some(s) => s,
        None => {
            return Err(other("Invalid page"));
        },
    };
    let entries = amounts_entries(m);
    let ghost e = peer_maps::amount_entries(entries@);
    assert(lists_amounts(held, e));
    let mut keys: Vec<u64> = Vec::new();
    let mut j: usize = 0;
    while j < entries.len()
        invariant
            j <= entries@.len(),
            keys@.len() == j,
            forall|k: int| 0 <= k < j ==> #[trigger] keys@[k] == entries@[k].1,
        decreases entries@.len() - j,
    {
        keys.push(entries[j].1);
        j += 1;
    }
    assert(keys@ =~= entry_amounts(e));
    let o = order_desc(&keys);
    let end: usize = if start >= o.len() {
        start
    } else if o.len() - start < size {
        o.len()
    } else {
        start + size
    };
    let mut out: Vec<RichEntry> = Vec::new();
    let mut i: usize = start;
    let ghost lines = rich_lines(e, start as nat, size as nat);
    while i < end
        invariant
            start <= i <= end,
            end > start ==> end <= o@.len(),
            o@.len() == entries@.len(),
            e == peer_maps::amount_entries(entries@),
            lines == rich_lines(e, start as nat, size as nat),
            lines.len() == end - start,
            order::places(o@) == order::order_of(entry_amounts(e)),
            forall|k: int| 0 <= k < o@.len() ==> #[trigger] o@[k] < entries@.len(),
            out@.len() == i - start,
            forall|k: int| 0 <= k < out@.len() ==> (#[trigger] out@[k])@ == lines[k],
        decreases end - i,
    {
        let p: usize = o[i];
        let address = pubkey_hash_to_address(&entries[p].0);
        proof {
            assert(order::places(o@)[i as int] == p);
            assert(e[p as int] == (entries@[p as int].0@, entries@[p as int].1));
        }
        out.push(RichEntry { rank: i + 1, address, amount: entries[p].1 });
        i += 1;
    }
    assert(rich_view(out@) =~= lines);
    Ok(out)
}

/// On a page of the richest addresses no line is richer than one before it.
pub proof fn law_richest_first(e: Seq<(Seq<u8>, u64)>, start: nat, size: nat, i: int, j: int)
    requires
        0 <= i < j < rich_lines(e, start, size).len(),
    ensures
        rich_lines(e, start, size)[i].amount >= rich_lines(e, start, size)[j].amount,
        rich_lines(e, start, size)[j].rank == rich_lines(e, start, size)[i].rank + (j - i),
{
    order::law_order_sorts(entry_amounts(e), e.len());
    let o = order::order_of(entry_amounts(e));
    assert(entry_amounts(e)[o[start + i]] == e[o[start + i]].1);
    assert(entry_amounts(e)[o[start + j]] == e[o[start + j]].1);
}

// ---------------------------------------------------------------------------
// Addresses with several keys
// ---------------------------------------------------------------------------

/// The opcode that checks several signatures.
pub const OP_CHECKMULTISIG: u8 = 0xae;

/// The bytes of a number, the least significant first, no more than it needs.
pub open spec fn magnitude(n: nat) -> Seq<u8>
    decreases n,
{
    if n > 0xff {
        seq![(n % 0x100) as u8] + magnitude(n / 0x100)
    } else {
        seq![n as u8]
    }
}

/// The bytes of a number with its sign in the highest bit, in a byte of its own
/// where that bit is taken.
pub open spec fn signed_magnitude(n: int) -> Seq<u8> {
    let size: int = if n < 0 {
        -n
    } else {
        n
    };
    let m = magnitude(size as nat);
    let sign: u8 = if n < 0 {
        0x80
    } else {
        0
    };
    if m.last() >= 0x80 {
        m.push(sign)
    } else {
        m.drop_last().push((m.last() + sign) as u8)
    }
}

/// A number, as a script pushes it: small ones have an opcode each, others are
/// pushed as their bytes.
pub open spec fn script_number(n: i64) -> Seq<u8> {
    if n == 0 {
        seq![0u8]
    } else if n == -1 || 1 <= n <= 16 {
        seq![(0x50 + n) as u8]
    } else {
        seq![signed_magnitude(n as int).len() as u8] + signed_magnitude(n as int)
    }
}

/// `bitcoin::script::Builder::push_int` on an empty script, for numbers that
/// every machine can count to: zero, minus one and the numbers up to sixteen
/// have an opcode each, and any other is pushed as its bytes with its sign.
#[verifier::external_body]
pub(crate) fn push_number(n: i64) -> (r: Vec<u8>)
    requires
        -0x8000_0000 < n < 0x8000_0000,
    ensures
        r@ == script_number(n),
{
    bitcoin::script::Builder::new().push_int(n).into_bytes()
}

/// `bitcoin::script::Builder::push_slice` of 33 bytes on an empty script
/// writes their number and the bytes.
#[verifier::external_body]
pub(crate) fn push_key(key: &[u8; 33]) -> (r: Vec<u8>)
    ensures
        r@ == seq![33u8] + key@,
{
    bitcoin::script::Builder::new().push_slice(key).into_bytes()
}

/// The pushes of the first `n` keys.
pub open spec fn pushed_keys(keys: Seq<Seq<u8>>, n: nat) -> Seq<u8>
    decreases n,
{
    if n == 0 {
        Seq::empty()
    } else {
        pushed_keys(keys, (n - 1) as nat) + (seq![33u8] + keys[n - 1])
    }
}

/// The script that asks for a number of signatures out of several keys.
pub open spec fn multisig_script(required: i64, keys: Seq<Seq<u8>>) -> Seq<u8> {
    script_number(required) + pushed_keys(keys, keys.len()) + script_number(
        keys.len() as i64,
    ) + seq![OP_CHECKMULTISIG]
}

/// What a list of keys says.
pub open spec fn keys_view(v: Seq<PublicKey>) -> Seq<Seq<u8>> {
    v.map_values(|k: PublicKey| k@)
}

/// The address of the script that asks for a number of signatures out of
/// several keys, and the script.
pub fn create_multisig(pubkeys: &Vec<PublicKey>, required: i64) -> (r: (String, Vec<u8>))
    requires
        -0x8000_0000 < required < 0x8000_0000,
        pubkeys@.len() < 0x8000_0000,
    ensures
        r.1@ == multisig_script(required, keys_view(pubkeys@)),
        r.0@ == address::address_text(address::PUBKEY_HASH_VERSION, hash::hash160_of(r.1@)),
{
    let ghost keys = keys_view(pubkeys@);
    let mut script = push_number(required);
    let ghost head = script@;
    let mut i: usize = 0;
    assert(head + pushed_keys(keys, 0) =~= head);
    while i < pubkeys.len()
        invariant
            i <= pubkeys@.len(),
            keys == keys_view(pubkeys@),
            script@ == head + pushed_keys(keys, i as nat),
        decreases pubkeys@.len() - i,
    {
        let key = pubkeys[i].serialize();
        let push = push_key(&key);
        append_bytes(&mut script, push.as_slice());
        proof {
            assert(keys[i as int] == key@);
            assert(script@ =~= head + pushed_keys(keys, (i + 1) as nat));
        }
        i += 1;
    }
    let count = push_number(pubkeys.len() as i64);
    append_bytes(&mut script, count.as_slice());
    script.push(OP_CHECKMULTISIG);
    assert(script@ =~= multisig_script(required, keys));
    let h = hash160(script.as_slice());
    (pubkey_hash_to_address(&h), script)
}

} // verus!
