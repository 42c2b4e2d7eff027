//! The index of outputs by the hash of their script, as it is read from the
//! database: rows of a key and a value, in the order of their keys.
use crate::bytes;
use crate::bytes::{from_be, read32, starts_with};
use crate::codec;
use crate::codec::deserialize_position;
use crate::errors::{other, ChainError, Fault};
use crate::keys;
use crate::keys::make_addr_prefix;
use crate::ledger;
use crate::ledger::load_block_by_height;
use crate::store;
use crate::store::{Cf, Snapshot};
use vstd::prelude::*;

verus! {

/// A row of the index.
pub type Row = (Vec<u8>, Vec<u8>);

/// What a row says.
pub open spec fn row_view(r: Row) -> (Seq<u8>, Seq<u8>) {
    (r.0@, r.1@)
}

/// What a list of rows says.
pub open spec fn rows_view(v: Seq<Row>) -> Seq<(Seq<u8>, Seq<u8>)> {
    v.map_values(|r: Row| row_view(r))
}

/// Where the name of a transaction begins in a key: after the tag and the hash
/// of the script.
pub const ENTRY_AT: usize = 25;

/// Where the lookup by address takes the name of a transaction to begin:
/// directly after the tag.
pub const LOOKUP_AT: usize = 5;

/// An entry of the index: an output and its amount.
#[derive(Debug, Clone, Copy, PartialEq, Eq)]
pub struct Entry {
    /// The transaction.
    pub txid: [u8; 32],
    /// The position of the output.
    pub vout: u32,
    /// The amount.
    pub value: u64,
}

/// What an [`Entry`] says.
pub struct EntryView {
    pub txid: Seq<u8>,
    pub vout: nat,
    pub value: nat,
}

impl View for Entry {
    type V = EntryView;

    open spec fn view(&self) -> EntryView {
        EntryView { txid: self.txid@, vout: self.vout as nat, value: self.value as nat }
    }
}

/// What a list of entries says.
pub open spec fn entries_view(v: Seq<Entry>) -> Seq<EntryView> {
    v.map_values(|e: Entry| e@)
}

/// The entry that a row holds, with the name of the transaction taken from a
/// place in the key.
pub open spec fn row_entry(row: (Seq<u8>, Seq<u8>), at: int) -> Result<EntryView, Fault> {
    if row.0.len() < at + 36 {
        Err(Fault::Other("Index key too short"@))
    } else if row.1.len() != 8 {
        Err(Fault::Other("Invalid index value"@))
    } else {
        Ok(
            EntryView {
                txid: row.0.subrange(at, at + 32),
                vout: bytes::be_value(row.0.subrange(at + 32, at + 36)),
                value: bytes::be_value(row.1),
            },
        )
    }
}

/// What a result with an entry says.
pub open spec fn entry_verdict(r: Result<Entry, ChainError>) -> Result<EntryView, Fault> {
    match r {
        Ok(e) => Ok(e@),
        Err(e) => Err(e@),
    }
}

/// The entry that a row holds.
pub fn read_entry(row: &Row, at: usize) -> (r: Result<Entry, ChainError>)
    requires
        at <= 25,
    ensures
        entry_verdict(r) == row_entry(row_view(*row), at as int),
{
    let key = row.0.as_slice();
    let value = row.1.as_slice();
    if key.len() < at + 36 {
        return Err(other("Index key too short"));
    }
    if value.len() != 8 {
        return Err(other("Invalid index value"));
    }
    let txid = read32(key, at);
    let tail = vstd::slice::slice_subrange(key, at + 32, at + 36);
    proof {
        bytes::lemma_be_write_read(tail@);
        bytes::lemma_be_write_read(value@);
        bytes::lemma_pow256_values();
    }
    let vout: u32 = from_be(tail) as u32;
    let value: u64 = from_be(value) as u64;
    Ok(Entry { txid, vout, value })
}

/// What the index says of an output is what is read from it, and the row is
/// among those of the script's hash.
pub proof fn law_entry_reads_back(script_hash: Seq<u8>, txid: Seq<u8>, vout: u32, value: u64)
    requires
        script_hash.len() == 20,
        txid.len() == 32,
    ensures
        row_entry(
            (keys::addr_key(script_hash, txid, vout), bytes::be_bytes(value as nat, 8)),
            ENTRY_AT as int,
        ) == Ok::<EntryView, Fault>(
            EntryView { txid, vout: vout as nat, value: value as nat },
        ),
        prefix_of(script_hash).is_prefix_of(keys::addr_key(script_hash, txid, vout)),
{
    let key = keys::addr_key(script_hash, txid, vout);
    bytes::lemma_pow256_values();
    bytes::lemma_be_bytes_len(vout as nat, 4);
    bytes::lemma_be_bytes_len(value as nat, 8);
    bytes::lemma_be_read_write(vout as nat, 4);
    bytes::lemma_be_read_write(value as nat, 8);
    assert(prefix_of(script_hash) =~= key.take(25));
    assert(key.subrange(25, 57) =~= txid);
    assert(key.subrange(57, 61) =~= bytes::be_bytes(vout as nat, 4));
}

/// The rows whose keys begin with a prefix.
pub open spec fn rows_at(rows: Seq<(Seq<u8>, Seq<u8>)>, prefix: Seq<u8>) -> Seq<
    (Seq<u8>, Seq<u8>),
> {
    rows.filter(|r: (Seq<u8>, Seq<u8>)| prefix.is_prefix_of(r.0))
}

/// The prefix of the rows of a hash.
pub open spec fn prefix_of(hash: Seq<u8>) -> Seq<u8> {
    keys::addr_tag() + hash
}

/// The entries of rows up to the first that holds none, and why it does not.
pub open spec fn entries_of(rows: Seq<(Seq<u8>, Seq<u8>)>, at: int) -> (
    Seq<EntryView>,
    Option<Fault>,
)
    decreases rows.len(),
{
    if rows.len() == 0 {
        (Seq::empty(), None)
    } else {
        let before = entries_of(rows.drop_last(), at);
        match before.1 {
            Some(_) => before,
            None => match row_entry(rows.last(), at) {
                Ok(e) => (before.0.push(e), None),
                Err(f) => (before.0, Some(f)),
            },
        }
    }
}

/// What an optional error says.
pub open spec fn fault_opt(o: Option<ChainError>) -> Option<Fault> {
    match o {
        Some(e) => Some(e@),
        None => None,
    }
}

/// The entries of the rows of a hash, up to the first that holds none, and why
/// it does not.
pub fn find_entries(rows: &Vec<Row>, hash: &[u8; 20], at: usize) -> (r: (
    Vec<Entry>,
    Option<ChainError>,
))
    requires
        at <= 25,
    ensures
        (entries_view(r.0@), fault_opt(r.1)) == entries_of(
            rows_at(rows_view(rows@), prefix_of(hash@)),
            at as int,
        ),
{
    let prefix = make_addr_prefix(hash);
    let ghost all = rows_view(rows@);
    let mut found: Vec<Entry> = Vec::new();
    let mut fault: Option<ChainError> = None;
    let mut i: usize = 0;
    proof {
        reveal(Seq::filter);
        assert(all.take(0) =~= Seq::<(Seq<u8>, Seq<u8>)>::empty());
        assert(entries_view(found@) =~= Seq::<EntryView>::empty());
    }
    while i < rows.len()
        invariant
            i <= rows@.len(),
            at <= 25,
            all == rows_view(rows@),
            prefix@ == prefix_of(hash@),
            (entries_view(found@), fault_opt(fault)) == entries_of(
                rows_at(all.take(i as int), prefix@),
                at as int,
            ),
        decreases rows@.len() - i,
    {
        proof {
            reveal(Seq::filter);
            assert(all.take(i + 1).drop_last() =~= all.take(i as int));
            assert(all.take(i + 1).last() == row_view(rows@[i as int]));
        }
        let ghost old_rows = rows_at(all.take(i as int), prefix@);
        if starts_with(rows[i].0.as_slice(), prefix.as_slice()) {
            let ghost new_rows = rows_at(all.take(i + 1), prefix@);
            proof {
                assert(new_rows == old_rows.push(row_view(rows@[i as int])));
                assert(new_rows.drop_last() =~= old_rows);
            }
            if fault.is_none() {
                match read_entry(&rows[i], at) {
                    Ok(e) => {
                        let ghost before = entries_view(found@);
                        found.push(e);
                        assert(entries_view(found@) =~= before.push(e@));
                    },
                    Err(e) => {
                        fault = Some(e);
                    },
                }
            }
        }
        i += 1;
    }
    assert(all.take(all.len() as int) =~= all);
    (found, fault)
}

/// The entries of the rows of a hash, or why one of them holds none.
pub fn query_addr_index(rows: &Vec<Row>, hash: &[u8; 20]) -> (r: Result<Vec<Entry>, ChainError>)
    ensures
        ({
            let found = entries_of(rows_at(rows_view(rows@), prefix_of(hash@)), LOOKUP_AT as int);
            match r {
                Ok(v) => found.1 is None && entries_view(v@) == found.0,
                Err(e) => found.1 == Some(e@),
            }
        }),
{
    let (found, fault) = find_entries(rows, hash, LOOKUP_AT);
    match fault {
        None => Ok(found),
        Some(e) => Err(e),
    }
}

// ---------------------------------------------------------------------------
// Where a transaction is
// ---------------------------------------------------------------------------

/// At which height a transaction is; `None` where it is not recorded.
pub open spec fn placed_at(db: store::Db, txid: Seq<u8>) -> Result<Option<u64>, Fault> {
    match store::read(db, Cf::TxIndex, txid) {
        None => Ok(None),
        Some(b) => match codec::read_position(b) {
            None => Err(Fault::Other("Deserialize position failed"@)),
            Some(p) => Ok(Some(p.0)),
        },
    }
}

/// At which height a transaction is; `None` where it is not recorded.
pub fn find_height(db: &Snapshot, txid: &[u8; 32]) -> (r: Result<Option<u64>, ChainError>)
    ensures
        (match r {
            Ok(h) => Ok::<Option<u64>, Fault>(h),
            Err(e) => Err(e@),
        }) == placed_at(db@, txid@),
{
    match db.get(Cf::TxIndex, txid.as_slice()) {
        None => Ok(None),
        Some(b) => match deserialize_position(b.as_slice()) {
            None => Err(other("Deserialize position failed")),
            Some((h, _)) => Ok(Some(h)),
        },
    }
}

/// At which height a transaction is.
pub open spec fn height_of(db: store::Db, txid: Seq<u8>) -> Result<u64, Fault> {
    match placed_at(db, txid) {
        Ok(Some(h)) => Ok(h),
        Ok(None) => Err(Fault::Other("Tx not found in index"@)),
        Err(e) => Err(e),
    }
}

/// At which height a transaction is.
pub fn height_from_txid(db: &Snapshot, txid: &[u8; 32]) -> (r: Result<u64, ChainError>)
    ensures
        (match r {
            Ok(h) => Ok::<u64, Fault>(h),
            Err(e) => Err(e@),
        }) == height_of(db@, txid@),
{
    match find_height(db, txid) {
        Ok(Some(h)) => Ok(h),
        Ok(None) => Err(other("Tx not found in index")),
        Err(e) => Err(e),
    }
}

/// When the block at a height was made; `None` where it cannot be read.
pub open spec fn block_time(db: store::Db, height: u64) -> Option<u32> {
    if height > usize::MAX {
        None
    } else {
        match ledger::block_at(db, height as usize) {
            Ok(b) => Some(b.header.timestamp),
            Err(_) => None,
        }
    }
}

/// When the block at a height was made; `None` where it cannot be read.
pub fn get_block_timestamp(db: &Snapshot, height: u64) -> (r: Option<u32>)
    ensures
        r == block_time(db@, height),
{
    if height > usize::MAX as u64 {
        return None;
    }
    match load_block_by_height(db, height as usize) {
        Ok(b) => Some(b.header.timestamp),
        Err(_) => None,
    }
}

/// How many blocks confirm one at a height, itself among them.
pub open spec fn confirmations_of(current: usize, height: u64) -> usize {
    let deep: int = if current >= height {
        current - height
    } else {
        0
    };
    if deep < usize::MAX {
        (deep + 1) as usize
    } else {
        usize::MAX
    }
}

/// How many blocks confirm one at a height, itself among them.
pub fn confirmations(current: usize, height: u64) -> (r: usize)
    ensures
        r == confirmations_of(current, height),
{
    let deep: usize = if current as u64 >= height {
        (current as u64 - height) as usize
    } else {
        0
    };
    if deep < usize::MAX {
        deep + 1
    } else {
        deep
    }
}

} // verus!
