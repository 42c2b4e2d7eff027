//! The scan of a wallet: its addresses up to a gap, and what they hold.
use crate::address;
use crate::address::{address_to_pubkey_hash, pubkey_to_address};
use crate::bytes::{copy_bytes, same_bytes};
use crate::codec;
use crate::codec::deserialize_output;
use crate::errors::{other, ChainError, Fault};
use crate::hash;
use crate::hash::hash160;
use crate::hd;
use crate::hd::{derive_keys, HARDENED};
use crate::history;
use crate::history::{add_net, build_history, contribute, TxHistoryEntry};
use crate::index;
use crate::index::{confirmations, height_from_txid, query_addr_index, Entry, Row, LOOKUP_AT};
use crate::keys::make_outpoint_key;
use crate::pay;
use crate::script;
use crate::script::p2pkh_script_from_pkh;
use crate::store;
use crate::store::{Cf, Snapshot};
use crate::tx;
use crate::tx::Transaction;
use crate::wallet;
use crate::wallet::Utxo;
use crate::wire;
use crate::wire::copy_texts;
use vstd::prelude::*;

verus! {

/// After how many addresses without a trace a scan ends.
pub const GAP_LIMIT: usize = 20;

/// What a scan has found so far.
#[verifier::ext_equal]
pub struct ScanView {
    pub utxos: Seq<wallet::UtxoView>,
    pub addresses: Seq<Seq<char>>,
    pub index: nat,
    pub gap: nat,
}

/// The unspent outputs of the first `n` entries of an address.
pub open spec fn found_upto(
    db: store::Db,
    current: usize,
    chain: u32,
    index: u32,
    s: Seq<index::EntryView>,
    n: nat,
) -> Result<Seq<wallet::UtxoView>, Fault>
    decreases n,
{
    if n == 0 {
        Ok(Seq::empty())
    } else {
        let e = s[n - 1];
        match found_upto(db, current, chain, index, s, (n - 1) as nat) {
            Err(f) => Err(f),
            Ok(found) => match wallet::unspent(db, e) {
                None => Ok(found),
                Some(raw) => match codec::read_output(raw) {
                    None => Err(Fault::Other("Deserialize output failed"@)),
                    Some(out) => match index::height_of(db, e.txid) {
                        Err(f) => Err(f),
                        Ok(h) => Ok(
                            found.push(
                                wallet::UtxoView {
                                    txid: e.txid,
                                    vout: e.vout,
                                    value: e.value,
                                    confirmations: index::confirmations_of(current, h),
                                    script_pubkey: out.script_pubkey,
                                    height: h,
                                    chain,
                                    index,
                                    is_confirmed: true,
                                },
                            ),
                        ),
                    },
                },
            },
        }
    }
}

/// One address more of a scan.
pub open spec fn scan_step(
    seed: Seq<u8>,
    db: store::Db,
    rows: Seq<(Seq<u8>, Seq<u8>)>,
    chain: u32,
    current: usize,
    st: ScanView,
) -> Result<ScanView, Fault> {
    let index = st.index as u32;
    if st.index >= HARDENED {
        Err(Fault::Other("Invalid child number"@))
    } else {
        match hd::keys_at(seed, chain, index) {
            Err(e) => Err(e),
            Ok(k) => {
                let pkh = hash::hash160_of(k.1);
                let entries = index::entries_of(
                    index::rows_at(rows, index::prefix_of(pkh)),
                    LOOKUP_AT as int,
                );
                match entries.1 {
                    Some(e) => Err(e),
                    None => match found_upto(
                        db,
                        current,
                        chain,
                        index,
                        entries.0,
                        entries.0.len(),
                    ) {
                        Err(e) => Err(e),
                        Ok(found) => if entries.0.len() > 0 {
                            Ok(
                                ScanView {
                                    utxos: st.utxos + found,
                                    addresses: st.addresses.push(
                                        address::address_text(address::PUBKEY_HASH_VERSION, pkh),
                                    ),
                                    index: st.index + 1,
                                    gap: 0,
                                },
                            )
                        } else {
                            Ok(
                                ScanView {
                                    utxos: st.utxos + found,
                                    index: st.index + 1,
                                    gap: st.gap + 1,
                                    ..st
                                },
                            )
                        },
                    },
                }
            },
        }
    }
}

/// The rest of a scan.
pub open spec fn scan_from(
    seed: Seq<u8>,
    db: store::Db,
    rows: Seq<(Seq<u8>, Seq<u8>)>,
    chain: u32,
    gap_limit: nat,
    current: usize,
    st: ScanView,
) -> Result<ScanView, Fault>
    decreases HARDENED + 1 - st.index,
{
    if st.gap >= gap_limit {
        Ok(st)
    } else {
        match scan_step(seed, db, rows, chain, current, st) {
            Err(e) => Err(e),
            Ok(next) => scan_from(seed, db, rows, chain, gap_limit, current, next),
        }
    }
}

/// What a scan of a chain finds: the unspent outputs, what they come to, the
/// addresses that have a trace, and the first index that was not looked at.
pub struct Scan {
    /// The unspent outputs.
    pub utxos: Vec<Utxo>,
    /// What they come to.
    pub balance: u64,
    /// The addresses that have a trace.
    pub addresses: Vec<String>,
    /// The first index that was not looked at.
    pub index: u32,
}

/// What a [`Scan`] says.
#[verifier::ext_equal]
pub struct ScanResult {
    pub utxos: Seq<wallet::UtxoView>,
    pub balance: nat,
    pub addresses: Seq<Seq<char>>,
    pub index: nat,
}

impl View for Scan {
    type V = ScanResult;

    open spec fn view(&self) -> ScanResult {
        ScanResult {
            utxos: wallet::utxos_view(self.utxos@),
            balance: self.balance as nat,
            addresses: wire::strings(self.addresses@),
            index: self.index as nat,
        }
    }
}

/// The start of a scan.
pub open spec fn scan_start() -> ScanView {
    ScanView { utxos: Seq::empty(), addresses: Seq::empty(), index: 0, gap: 0 }
}

/// What a scan of a chain of addresses finds.
pub open spec fn scan_of(
    seed: Seq<u8>,
    db: store::Db,
    rows: Seq<(Seq<u8>, Seq<u8>)>,
    chain_num: u32,
    gap_limit: nat,
    current: usize,
) -> Result<ScanResult, Fault> {
    if chain_num >= HARDENED {
        Err(Fault::Other("Invalid child number"@))
    } else {
        match scan_from(
            seed,
            db,
            rows,
            (HARDENED + chain_num) as u32,
            gap_limit,
            current,
            scan_start(),
        ) {
            Err(e) => Err(e),
            Ok(st) => if pay::total(st.utxos) > u64::MAX {
                Err(Fault::ValueOverflow)
            } else {
                Ok(
                    ScanResult {
                        utxos: st.utxos,
                        balance: pay::total(st.utxos),
                        addresses: st.addresses,
                        index: st.index,
                    },
                )
            },
        }
    }
}

/// What a result with a scan says.
pub open spec fn scan_verdict(r: Result<Scan, ChainError>) -> Result<ScanResult, Fault> {
    match r {
        Ok(s) => Ok(s@),
        Err(e) => Err(e@),
    }
}

proof fn lemma_found_fails(
    db: store::Db,
    current: usize,
    chain: u32,
    index: u32,
    s: Seq<index::EntryView>,
    i: nat,
    n: nat,
)
    requires
        i <= n,
        found_upto(db, current, chain, index, s, i) is Err,
    ensures
        found_upto(db, current, chain, index, s, n) == found_upto(
            db,
            current,
            chain,
            index,
            s,
            i,
        ),
    decreases n,
{
    if i < n {
        lemma_found_fails(db, current, chain, index, s, i, (n - 1) as nat);
    }
}

/// Adds the unspent outputs of the entries of an address.
fn add_found(
    db: &Snapshot,
    current: usize,
    chain: u32,
    index: u32,
    entries: &Vec<Entry>,
    utxos: &mut Vec<Utxo>,
) -> (r: Result<(), ChainError>)
    ensures
        (match r {
            Ok(_) => Ok::<(), Fault>(()),
            Err(e) => Err(e@),
        }) == match found_upto(
            db@,
            current,
            chain,
            index,
            index::entries_view(entries@),
            entries@.len(),
        ) {
            Ok(_) => Ok(()),
            Err(e) => Err(e),
        },
        r is Ok ==> wallet::utxos_view(final(utxos)@) == wallet::utxos_view(old(utxos)@)
            + found_upto(
            db@,
            current,
            chain,
            index,
            index::entries_view(entries@),
            entries@.len(),
        )->Ok_0,
{
    let ghost s = index::entries_view(entries@);
    let ghost before = wallet::utxos_view(utxos@);
    let ghost found = Seq::<wallet::UtxoView>::empty();
    let mut i: usize = 0;
    assert(before + found =~= before);
    while i < entries.len()
        invariant
            i <= entries@.len(),
            s == index::entries_view(entries@),
            found_upto(db@, current, chain, index, s, i as nat) == Ok::<
                Seq<wallet::UtxoView>,
                Fault,
            >(found),
            wallet::utxos_view(utxos@) == before + found,
        decreases entries@.len() - i,
    {
        let e = &entries[i];
        assert(s[i as int] == e@);
        let ghost next = (i + 1) as nat;
        let key = make_outpoint_key(false, &e.txid, e.vout);
        if let Some(raw) = db.get(Cf::Utxo, key.as_slice()) {
            let out = match deserialize_output(raw.as_slice()) {
                Some(out) => out,
                None => {
                    proof {
                        lemma_found_fails(db@, current, chain, index, s, next, s.len());
                    }
                    return Err(other("Deserialize output failed"));
                },
            };
            let height: u64 = match height_from_txid(db, &e.txid) {
                Ok(h) => h,
                Err(f) => {
                    proof {
                        lemma_found_fails(db@, current, chain, index, s, next, s.len());
                    }
                    return Err(f);
                },
            };
            let u = Utxo {
                txid: e.txid,
                vout: e.vout,
                value: e.value,
                confirmations: confirmations(current, height),
                script_pubkey: out.script_pubkey,
                height,
                chain,
                index,
                is_confirmed: true,
            };
            let ghost now = wallet::utxos_view(utxos@);
            utxos.push(u);
            proof {
                assert(wallet::utxos_view(utxos@) =~= now.push(u@));
                assert(before + found.push(u@) =~= now.push(u@));
                found = found.push(u@);
            }
        }
        i += 1;
    }
    Ok(())
}

/// What unspent outputs come to; `None` where that leaves the range of
/// amounts.
pub fn sum_utxos(v: &Vec<Utxo>) -> (r: Option<u64>)
    ensures
        match r {
            Some(t) => pay::total(wallet::utxos_view(v@)) == t,
            None => pay::total(wallet::utxos_view(v@)) > u64::MAX,
        },
{
    let ghost s = wallet::utxos_view(v@);
    let mut sum: u64 = 0;
    let mut i: usize = 0;
    assert(s.take(0) =~= Seq::<wallet::UtxoView>::empty());
    while i < v.len()
        invariant
            i <= v@.len(),
            s == wallet::utxos_view(v@),
            sum == pay::total(s.take(i as int)),
        decreases v@.len() - i,
    {
        proof {
            assert(s.take(i + 1).drop_last() =~= s.take(i as int));
            lemma_total_grows(s, i + 1);
        }
        let value: u64 = v[i].value;
        assert(s[i as int].value == value);
        if value > u64::MAX - sum {
            return None;
        }
        sum = sum + value;
        i += 1;
    }
    assert(s.take(s.len() as int) =~= s);
    Some(sum)
}

proof fn lemma_total_grows(s: Seq<wallet::UtxoView>, n: int)
    requires
        0 <= n <= s.len(),
    ensures
        pay::total(s.take(n)) <= pay::total(s),
    decreases s.len() - n,
{
    if n < s.len() {
        lemma_total_grows(s, n + 1);
        assert(s.take(n + 1).drop_last() =~= s.take(n));
    } else {
        assert(s.take(n) =~= s);
    }
}

/// Scans a chain of addresses until a number of them in a row have no trace.
pub fn scan_chain(
    seed: &[u8; 64],
    db: &Snapshot,
    rows: &Vec<Row>,
    chain_num: u32,
    gap_limit: usize,
    current: usize,
) -> (r: Result<Scan, ChainError>)
    ensures
        scan_verdict(r) == scan_of(
            seed@,
            db@,
            index::rows_view(rows@),
            chain_num,
            gap_limit as nat,
            current,
        ),
{
    if chain_num >= HARDENED {
        return Err(other("Invalid child number"));
    }
    let chain: u32 = HARDENED + chain_num;
    let ghost all = index::rows_view(rows@);
    let mut utxos: Vec<Utxo> = Vec::new();
    let mut addresses: Vec<String> = Vec::new();
    let mut index: u32 = 0;
    let mut gap: usize = 0;
    let ghost mut st = scan_start();
    proof {
        assert(wallet::utxos_view(utxos@) =~= st.utxos);
        assert(wire::strings(addresses@) =~= st.addresses);
    }
    while gap < gap_limit
        invariant
            chain_num < HARDENED,
            chain == HARDENED + chain_num,
            all == index::rows_view(rows@),
            index <= HARDENED,
            gap <= gap_limit,
            st == (ScanView {
                utxos: wallet::utxos_view(utxos@),
                addresses: wire::strings(addresses@),
                index: index as nat,
                gap: gap as nat,
            }),
            scan_from(seed@, db@, all, chain, gap_limit as nat, current, scan_start())
                == scan_from(seed@, db@, all, chain, gap_limit as nat, current, st),
        decreases HARDENED - index,
    {
        if index >= HARDENED {
            return Err(other("Invalid child number"));
        }
        let (_, pk) = match derive_keys(seed, chain, index) {
            Ok(k) => k,
            Err(e) => {
                return Err(e);
            },
        };
        let key = pk.serialize();
        let pkh = hash160(key.as_slice());
        let entries = match query_addr_index(rows, &pkh) {
            Ok(v) => v,
            Err(e) => {
                return Err(e);
            },
        };
        match add_found(db, current, chain, index, &entries, &mut utxos) {
            Ok(_) => {},
            Err(e) => {
                return Err(e);
            },
        }
        let ghost next = scan_step(seed@, db@, all, chain, current, st)->Ok_0;
        if entries.len() > 0 {
            let a = pubkey_to_address(&pk);
            let ghost before = wire::strings(addresses@);
            addresses.push(a);
            assert(wire::strings(addresses@) =~= before.push(a@));
            gap = 0;
        } else {
            gap = gap + 1;
        }
        index = index + 1;
        proof {
            assert(next =~= (ScanView {
                utxos: wallet::utxos_view(utxos@),
                addresses: wire::strings(addresses@),
                index: index as nat,
                gap: gap as nat,
            }));
            st = next;
        }
    }
    match sum_utxos(&utxos) {
        None => Err(ChainError::ValueOverflow),
        Some(balance) => Ok(Scan { utxos, balance, addresses, index }),
    }
}

// ---------------------------------------------------------------------------
// The history of addresses
// ---------------------------------------------------------------------------

/// The amounts by transaction after the first `n` entries of an address.
pub open spec fn entry_nets(
    db: store::Db,
    nets: history::Nets,
    s: Seq<index::EntryView>,
    n: nat,
) -> Result<history::Nets, Fault>
    decreases n,
{
    if n == 0 {
        Ok(nets)
    } else {
        let e = s[n - 1];
        match entry_nets(db, nets, s, (n - 1) as nat) {
            Err(f) => Err(f),
            Ok(m) => match history::contribution(e.value, false, wallet::unspent(db, e) is None) {
                None => Err(Fault::ValueOverflow),
                Some(x) => if history::fits(history::net_of(m, e.txid) + x) {
                    Ok(history::net_added(m, e.txid, x))
                } else {
                    Err(Fault::ValueOverflow)
                },
            },
        }
    }
}

/// The amounts by transaction of the first `n` addresses.
pub open spec fn address_nets(
    db: store::Db,
    rows: Seq<(Seq<u8>, Seq<u8>)>,
    addresses: Seq<Seq<char>>,
    n: nat,
) -> Result<history::Nets, Fault>
    decreases n,
{
    if n == 0 {
        Ok(Seq::empty())
    } else {
        match address_nets(db, rows, addresses, (n - 1) as nat) {
            Err(e) => Err(e),
            Ok(nets) => match address::address_hash(addresses[n - 1]) {
                Err(e) => Err(e),
                Ok(pkh) => {
                    let found = index::entries_of(
                        index::rows_at(rows, index::prefix_of(pkh)),
                        LOOKUP_AT as int,
                    );
                    match found.1 {
                        Some(e) => Err(e),
                        None => entry_nets(db, nets, found.0, found.0.len()),
                    }
                },
            },
        }
    }
}

proof fn lemma_entry_nets_fail(
    db: store::Db,
    nets: history::Nets,
    s: Seq<index::EntryView>,
    i: nat,
    n: nat,
)
    requires
        i <= n,
        entry_nets(db, nets, s, i) is Err,
    ensures
        entry_nets(db, nets, s, n) == entry_nets(db, nets, s, i),
    decreases n,
{
    if i < n {
        lemma_entry_nets_fail(db, nets, s, i, (n - 1) as nat);
    }
}

proof fn lemma_address_nets_fail(
    db: store::Db,
    rows: Seq<(Seq<u8>, Seq<u8>)>,
    addresses: Seq<Seq<char>>,
    i: nat,
    n: nat,
)
    requires
        i <= n,
        address_nets(db, rows, addresses, i) is Err,
    ensures
        address_nets(db, rows, addresses, n) == address_nets(db, rows, addresses, i),
    decreases n,
{
    if i < n {
        lemma_address_nets_fail(db, rows, addresses, i, (n - 1) as nat);
    }
}

/// Adds the amounts of the entries of an address.
fn add_entry_nets(db: &Snapshot, nets: &mut Vec<([u8; 32], i64)>, entries: &Vec<Entry>) -> (r:
    Result<(), ChainError>)
    ensures
        match r {
            Ok(_) => entry_nets(
                db@,
                history::nets_view(old(nets)@),
                index::entries_view(entries@),
                entries@.len(),
            ) == Ok::<history::Nets, Fault>(history::nets_view(final(nets)@)),
            Err(e) => entry_nets(
                db@,
                history::nets_view(old(nets)@),
                index::entries_view(entries@),
                entries@.len(),
            ) == Err::<history::Nets, Fault>(e@),
        },
{
    let ghost s = index::entries_view(entries@);
    let ghost start = history::nets_view(nets@);
    let mut i: usize = 0;
    while i < entries.len()
        invariant
            i <= entries@.len(),
            s == index::entries_view(entries@),
            start == history::nets_view(old(nets)@),
            entry_nets(db@, start, s, i as nat) == Ok::<history::Nets, Fault>(
                history::nets_view(nets@),
            ),
        decreases entries@.len() - i,
    {
        let e = &entries[i];
        assert(s[i as int] == e@);
        let key = make_outpoint_key(false, &e.txid, e.vout);
        let is_spent = db.get(Cf::Utxo, key.as_slice()).is_none();
        let done = match contribute(e.value, false, is_spent) {
            Some(x) => add_net(nets, e.txid, x),
            None => false,
        };
        if !done {
            proof {
                lemma_entry_nets_fail(db@, start, s, (i + 1) as nat, s.len());
            }
            return Err(ChainError::ValueOverflow);
        }
        i += 1;
    }
    Ok(())
}

/// The amounts by transaction of addresses.
fn net_addresses(db: &Snapshot, rows: &Vec<Row>, addresses: &Vec<String>) -> (r: Result<
    Vec<([u8; 32], i64)>,
    ChainError,
>)
    ensures
        (match r {
            Ok(v) => Ok::<history::Nets, Fault>(history::nets_view(v@)),
            Err(e) => Err(e@),
        }) == address_nets(
            db@,
            index::rows_view(rows@),
            wire::strings(addresses@),
            addresses@.len(),
        ),
{
    let ghost all = index::rows_view(rows@);
    let ghost names = wire::strings(addresses@);
    let mut nets: Vec<([u8; 32], i64)> = Vec::new();
    let mut i: usize = 0;
    assert(history::nets_view(nets@) =~= Seq::<(Seq<u8>, int)>::empty());
    while i < addresses.len()
        invariant
            i <= addresses@.len(),
            all == index::rows_view(rows@),
            names == wire::strings(addresses@),
            address_nets(db@, all, names, i as nat) == Ok::<history::Nets, Fault>(
                history::nets_view(nets@),
            ),
        decreases addresses@.len() - i,
    {
        assert(names[i as int] == addresses@[i as int]@);
        let ghost next = (i + 1) as nat;
        let pkh = match address_to_pubkey_hash(addresses[i].as_str()) {
            Ok(h) => h,
            Err(e) => {
                proof {
                    lemma_address_nets_fail(db@, all, names, next, names.len());
                }
                return Err(e);
            },
        };
        let entries = match query_addr_index(rows, &pkh) {
            Ok(v) => v,
            Err(e) => {
                proof {
                    lemma_address_nets_fail(db@, all, names, next, names.len());
                }
                return Err(e);
            },
        };
        match add_entry_nets(db, &mut nets, &entries) {
            Ok(_) => {},
            Err(e) => {
                proof {
                    lemma_address_nets_fail(db@, all, names, next, names.len());
                }
                return Err(e);
            },
        }
        i += 1;
    }
    Ok(nets)
}

/// The history of addresses.
pub open spec fn addresses_history(
    db: store::Db,
    rows: Seq<(Seq<u8>, Seq<u8>)>,
    addresses: Seq<Seq<char>>,
    current: usize,
) -> Result<Seq<history::HistoryView>, Fault> {
    match address_nets(db, rows, addresses, addresses.len()) {
        Err(e) => Err(e),
        Ok(nets) => history::history_of(db, current, nets, true, usize::MAX as nat),
    }
}

/// The history of addresses, the latest transactions first, without those
/// that came to nothing.
pub fn build_history_task(
    db: &Snapshot,
    rows: &Vec<Row>,
    addresses: &Vec<String>,
    current: usize,
) -> (r: Result<Vec<TxHistoryEntry>, ChainError>)
    ensures
        history::history_verdict(r) == addresses_history(
            db@,
            index::rows_view(rows@),
            wire::strings(addresses@),
            current,
        ),
{
    match net_addresses(db, rows, addresses) {
        Err(e) => Err(e),
        Ok(nets) => build_history(db, current, &nets, true, usize::MAX),
    }
}

// ---------------------------------------------------------------------------
// Transactions that wait
// ---------------------------------------------------------------------------

/// Whether a script pays to a text that is an address.
pub open spec fn pays_address(s: Seq<u8>, text: Seq<char>) -> bool {
    match address::address_hash(text) {
        Ok(pkh) => s == script::p2pkh_of(pkh),
        Err(_) => false,
    }
}

/// Whether a script pays to one of some addresses.
pub open spec fn pays_one(s: Seq<u8>, addresses: Seq<Seq<char>>) -> bool {
    exists|i: int| 0 <= i < addresses.len() && pays_address(s, #[trigger] addresses[i])
}

/// The first `n` outputs of a transaction that waits, as far as they pay to
/// some addresses. Their keys are not known by these.
pub open spec fn waiting_of(t: tx::TxView, addresses: Seq<Seq<char>>, n: nat) -> Seq<
    wallet::UtxoView,
>
    decreases n,
{
    if n == 0 {
        Seq::empty()
    } else {
        let before = waiting_of(t, addresses, (n - 1) as nat);
        let o = t.outputs[n - 1];
        if pays_one(o.script_pubkey, addresses) {
            before.push(
                wallet::UtxoView {
                    txid: tx::txid_of(t),
                    vout: ((n - 1) as u32) as nat,
                    value: o.value as nat,
                    confirmations: 0,
                    script_pubkey: o.script_pubkey,
                    height: 0,
                    chain: 0,
                    index: 0,
                    is_confirmed: false,
                },
            )
        } else {
            before
        }
    }
}

/// The outputs of the first `n` transactions that wait, as far as they pay to
/// some addresses.
pub open spec fn waiting_utxos(txs: Seq<tx::TxView>, addresses: Seq<Seq<char>>, n: nat) -> Seq<
    wallet::UtxoView,
>
    decreases n,
{
    if n == 0 {
        Seq::empty()
    } else {
        waiting_utxos(txs, addresses, (n - 1) as nat) + waiting_of(
            txs[n - 1],
            addresses,
            txs[n - 1].outputs.len(),
        )
    }
}

fn pays_any(s: &[u8], addresses: &Vec<String>) -> (r: bool)
    ensures
        r == pays_one(s@, wire::strings(addresses@)),
{
    let ghost all = wire::strings(addresses@);
    let mut i: usize = 0;
    while i < addresses.len()
        invariant
            i <= addresses@.len(),
            all == wire::strings(addresses@),
            forall|j: int| 0 <= j < i ==> !pays_address(s@, #[trigger] all[j]),
        decreases addresses@.len() - i,
    {
        assert(all[i as int] == addresses@[i as int]@);
        match address_to_pubkey_hash(addresses[i].as_str()) {
            Ok(pkh) => {
                let goal = p2pkh_script_from_pkh(&pkh);
                if same_bytes(s, goal.as_slice()) {
                    assert(pays_address(s@, all[i as int]));
                    return true;
                }
            },
            Err(_) => {},
        }
        i += 1;
    }
    false
}

fn add_waiting(t: &Transaction, addresses: &Vec<String>, utxos: &mut Vec<Utxo>)
    ensures
        wallet::utxos_view(final(utxos)@) == wallet::utxos_view(old(utxos)@) + waiting_of(
            t@,
            wire::strings(addresses@),
            t.outputs@.len(),
        ),
{
    let ghost all = wire::strings(addresses@);
    let ghost before = wallet::utxos_view(utxos@);
    let txid = t.hash();
    let mut i: usize = 0;
    assert(before + waiting_of(t@, all, 0) =~= before);
    while i < t.outputs.len()
        invariant
            i <= t.outputs@.len(),
            all == wire::strings(addresses@),
            txid@ == tx::txid_of(t@),
            wallet::utxos_view(utxos@) == before + waiting_of(t@, all, i as nat),
        decreases t.outputs@.len() - i,
    {
        let o = &t.outputs[i];
        assert(t@.outputs[i as int] == o@);
        if pays_any(o.script_pubkey.as_slice(), addresses) {
            let u = Utxo {
                txid,
                vout: i as u32,
                value: o.value,
                confirmations: 0,
                script_pubkey: copy_bytes(o.script_pubkey.as_slice()),
                height: 0,
                chain: 0,
                index: 0,
                is_confirmed: false,
            };
            let ghost now = wallet::utxos_view(utxos@);
            utxos.push(u);
            proof {
                assert(wallet::utxos_view(utxos@) =~= now.push(u@));
                let next = waiting_of(t@, all, (i + 1) as nat);
                assert(next == waiting_of(t@, all, i as nat).push(u@));
                assert(before + next =~= now.push(u@));
            }
        }
        i += 1;
    }
}

/// The outputs of transactions that wait, as far as they pay to some addresses.
pub fn scan_mempool(txs: &Vec<Transaction>, addresses: &Vec<String>) -> (r: Vec<Utxo>)
    ensures
        wallet::utxos_view(r@) == waiting_utxos(
            txs@.map_values(|t: Transaction| t@),
            wire::strings(addresses@),
            txs@.len(),
        ),
{
    let ghost view = txs@.map_values(|t: Transaction| t@);
    let ghost all = wire::strings(addresses@);
    let mut utxos: Vec<Utxo> = Vec::new();
    let mut i: usize = 0;
    assert(wallet::utxos_view(utxos@) =~= waiting_utxos(view, all, 0));
    while i < txs.len()
        invariant
            i <= txs@.len(),
            view == txs@.map_values(|t: Transaction| t@),
            all == wire::strings(addresses@),
            wallet::utxos_view(utxos@) == waiting_utxos(view, all, i as nat),
        decreases txs@.len() - i,
    {
        assert(view[i as int] == txs@[i as int]@);
        add_waiting(&txs[i], addresses, &mut utxos);
        i += 1;
    }
    utxos
}

// ---------------------------------------------------------------------------
// The scan of a wallet
// ---------------------------------------------------------------------------

/// What a scan of a wallet finds.
pub struct WalletScan {
    /// The unspent outputs, those of transactions that wait last.
    pub utxos: Vec<Utxo>,
    /// What the confirmed ones come to.
    pub balance: u64,
    /// The history.
    pub history: Vec<TxHistoryEntry>,
    /// The addresses to receive at that have a trace.
    pub receive_addresses: Vec<String>,
    /// The addresses for change that have a trace.
    pub change_addresses: Vec<String>,
    /// The first index to receive at that was not looked at.
    pub receive_index: u32,
    /// The first index for change that was not looked at.
    pub change_index: u32,
}

/// What a [`WalletScan`] says.
pub struct WalletScanView {
    pub utxos: Seq<wallet::UtxoView>,
    pub balance: nat,
    pub history: Seq<history::HistoryView>,
    pub receive_addresses: Seq<Seq<char>>,
    pub change_addresses: Seq<Seq<char>>,
    pub receive_index: nat,
    pub change_index: nat,
}

impl View for WalletScan {
    type V = WalletScanView;

    open spec fn view(&self) -> WalletScanView {
        WalletScanView {
            utxos: wallet::utxos_view(self.utxos@),
            balance: self.balance as nat,
            history: history::history_view(self.history@),
            receive_addresses: wire::strings(self.receive_addresses@),
            change_addresses: wire::strings(self.change_addresses@),
            receive_index: self.receive_index as nat,
            change_index: self.change_index as nat,
        }
    }
}

/// What a scan of a wallet finds, given the transactions that wait.
pub open spec fn wallet_scan(
    seed: Seq<u8>,
    db: store::Db,
    rows: Seq<(Seq<u8>, Seq<u8>)>,
    current: usize,
    waiting: Seq<tx::TxView>,
) -> Result<WalletScanView, Fault> {
    match scan_of(seed, db, rows, 0, GAP_LIMIT as nat, current) {
        Err(e) => Err(e),
        Ok(a) => match scan_of(seed, db, rows, 1, GAP_LIMIT as nat, current) {
            Err(e) => Err(e),
            Ok(b) => if a.balance + b.balance > u64::MAX {
                Err(Fault::ValueOverflow)
            } else {
                match addresses_history(db, rows, a.addresses + b.addresses, current) {
                    Err(e) => Err(e),
                    Ok(h) => Ok(
                        WalletScanView {
                            utxos: a.utxos + b.utxos + waiting_utxos(
                                waiting,
                                a.addresses + b.addresses,
                                waiting.len(),
                            ),
                            balance: a.balance + b.balance,
                            history: h,
                            receive_addresses: a.addresses,
                            change_addresses: b.addresses,
                            receive_index: a.index,
                            change_index: b.index,
                        },
                    ),
                }
            },
        },
    }
}

/// Scans a wallet: the addresses to receive at, those for change, the history of
/// both, and what the transactions that wait pay to them.
pub fn scan_wallet_task(
    seed: &[u8; 64],
    db: &Snapshot,
    rows: &Vec<Row>,
    current: usize,
    mempool_txs: &Vec<Transaction>,
) -> (r: Result<WalletScan, ChainError>)
    ensures
        (match r {
            Ok(s) => Ok::<WalletScanView, Fault>(s@),
            Err(e) => Err(e@),
        }) == wallet_scan(
            seed@,
            db@,
            index::rows_view(rows@),
            current,
            mempool_txs@.map_values(|t: Transaction| t@),
        ),
{
    let receive = match scan_chain(seed, db, rows, 0, GAP_LIMIT, current) {
        Ok(s) => s,
        Err(e) => {
            return Err(e);
        },
    };
    let change = match scan_chain(seed, db, rows, 1, GAP_LIMIT, current) {
        Ok(s) => s,
        Err(e) => {
            return Err(e);
        },
    };
    let ghost a = receive@;
    let ghost b = change@;
    if change.balance > u64::MAX - receive.balance {
        return Err(ChainError::ValueOverflow);
    }
    let balance: u64 = receive.balance + change.balance;
    let mut all = copy_texts(&receive.addresses);
    let mut more = copy_texts(&change.addresses);
    all.append(&mut more);
    assert(wire::strings(all@) =~= a.addresses + b.addresses);
    let history = match build_history_task(db, rows, &all, current) {
        Ok(h) => h,
        Err(e) => {
            return Err(e);
        },
    };
    let mut utxos = receive.utxos;
    let mut second = change.utxos;
    let mut third = scan_mempool(mempool_txs, &all);
    let ghost late = wallet::utxos_view(third@);
    utxos.append(&mut second);
    assert(wallet::utxos_view(utxos@) =~= a.utxos + b.utxos);
    utxos.append(&mut third);
    assert(wallet::utxos_view(utxos@) =~= a.utxos + b.utxos + late);
    Ok(
        WalletScan {
            utxos,
            balance,
            history,
            receive_addresses: receive.addresses,
            change_addresses: change.addresses,
            receive_index: receive.index,
            change_index: change.index,
        },
    )
}

} // verus!
