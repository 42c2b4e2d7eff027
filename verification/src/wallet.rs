//! The wallet: addresses, balances, unspent outputs, history and payments.
use crate::address;
use crate::address::{address_to_pubkey_hash, pubkey_to_address};
use crate::bytes::{copy_bytes, same_bytes};
use crate::codec;
use crate::codec::deserialize_output;
use crate::errors::{other, ChainError, Fault};
use crate::hash;
use crate::hash::hash160;
use crate::hd;
use crate::hd::{
    derive_keys, derive_secret, plain_phrase, seed_from_phrase, write_wif, HARDENED,
};
use crate::history;
use crate::history::{add_net, build_history, contribute, TxHistoryEntry};
use crate::index;
use crate::index::{confirmations, find_entries, find_height, Entry, Row, ENTRY_AT, LOOKUP_AT};
use crate::keys;
use crate::keys::make_outpoint_key;
use crate::ledger;
use crate::ledger::load_current_height;
use crate::params::COINBASE_MATURITY;
use crate::secp;
use crate::secp::PublicKey;
use crate::store;
use crate::store::{Cf, Snapshot};
use crate::tx;
use vstd::prelude::*;

verus! {

/// How many addresses of each chain a wallet looks at.
pub const ADDRESSES: u32 = 100;

/// How many chains of addresses a wallet has: to receive, and for change.
pub const CHAINS: u32 = 2;

/// A wallet.
pub struct Wallet {
    seed: [u8; 64],
    mainnet: bool,
    current_change_index: u32,
}

/// What a [`Wallet`] says.
pub struct WalletView {
    pub seed: Seq<u8>,
    pub mainnet: bool,
    pub current_change_index: u32,
}

impl View for Wallet {
    type V = WalletView;

    closed spec fn view(&self) -> WalletView {
        WalletView {
            seed: self.seed@,
            mainnet: self.mainnet,
            current_change_index: self.current_change_index,
        }
    }
}

// ---------------------------------------------------------------------------
// What a wallet owns
// ---------------------------------------------------------------------------

/// An entry of the index for an address of the wallet.
#[derive(Debug, Clone, Copy, PartialEq, Eq)]
pub struct Owned {
    /// The chain of the address.
    pub chain: u32,
    /// The index of the address.
    pub index: u32,
    /// The entry.
    pub entry: Entry,
}

/// What an [`Owned`] says.
pub struct OwnedView {
    pub chain: u32,
    pub index: u32,
    pub entry: index::EntryView,
}

impl View for Owned {
    type V = OwnedView;

    open spec fn view(&self) -> OwnedView {
        OwnedView { chain: self.chain, index: self.index, entry: self.entry@ }
    }
}

/// What a list of entries says.
pub open spec fn owned_view(v: Seq<Owned>) -> Seq<OwnedView> {
    v.map_values(|o: Owned| o@)
}

/// The entries of one address.
pub open spec fn owned_by(chain: u32, index: u32, found: Seq<index::EntryView>) -> Seq<OwnedView> {
    found.map_values(|e: index::EntryView| OwnedView { chain, index, entry: e })
}

/// The entries of the first `n` addresses, chain after chain, up to the first
/// failure, and the failure.
pub open spec fn owned_upto(
    seed: Seq<u8>,
    rows: Seq<(Seq<u8>, Seq<u8>)>,
    at: int,
    n: nat,
) -> (Seq<OwnedView>, Option<Fault>)
    decreases n,
{
    if n == 0 {
        (Seq::empty(), None)
    } else {
        let before = owned_upto(seed, rows, at, (n - 1) as nat);
        let chain = ((n - 1) as nat / ADDRESSES as nat) as u32;
        let index = ((n - 1) as nat % ADDRESSES as nat) as u32;
        match before.1 {
            Some(_) => before,
            None => match hd::keys_at(seed, chain, index) {
                Err(e) => (before.0, Some(e)),
                Ok(k) => {
                    let found = index::entries_of(
                        index::rows_at(rows, index::prefix_of(hash::hash160_of(k.1))),
                        at,
                    );
                    (before.0 + owned_by(chain, index, found.0), found.1)
                },
            },
        }
    }
}

/// All entries of the wallet's addresses, up to the first failure, and the
/// failure.
pub open spec fn owned(seed: Seq<u8>, rows: Seq<(Seq<u8>, Seq<u8>)>, at: int) -> (
    Seq<OwnedView>,
    Option<Fault>,
) {
    owned_upto(seed, rows, at, 200)
}

/// An unspent output of a wallet.
#[derive(Debug, PartialEq, Eq)]
pub struct Utxo {
    /// The transaction.
    pub txid: [u8; 32],
    /// The position of the output.
    pub vout: u32,
    /// The amount.
    pub value: u64,
    /// How many blocks confirm it.
    pub confirmations: usize,
    /// The script.
    pub script_pubkey: Vec<u8>,
    /// The height of its block, where that is known.
    pub height: u64,
    /// The chain of the address.
    pub chain: u32,
    /// The index of the address.
    pub index: u32,
    /// Whether a block holds it.
    pub is_confirmed: bool,
}

/// What a [`Utxo`] says.
pub struct UtxoView {
    pub txid: Seq<u8>,
    pub vout: nat,
    pub value: nat,
    pub confirmations: usize,
    pub script_pubkey: Seq<u8>,
    pub height: u64,
    pub chain: u32,
    pub index: u32,
    pub is_confirmed: bool,
}

impl View for Utxo {
    type V = UtxoView;

    open spec fn view(&self) -> UtxoView {
        UtxoView {
            txid: self.txid@,
            vout: self.vout as nat,
            value: self.value as nat,
            confirmations: self.confirmations,
            script_pubkey: self.script_pubkey@,
            height: self.height,
            chain: self.chain,
            index: self.index,
            is_confirmed: self.is_confirmed,
        }
    }
}

impl Clone for Utxo {
    fn clone(&self) -> (r: Self)
        ensures
            r@ == self@,
    {
        Utxo {
            txid: self.txid,
            vout: self.vout,
            value: self.value,
            confirmations: self.confirmations,
            script_pubkey: copy_bytes(self.script_pubkey.as_slice()),
            height: self.height,
            chain: self.chain,
            index: self.index,
            is_confirmed: self.is_confirmed,
        }
    }
}

/// What a list of unspent outputs says.
pub open spec fn utxos_view(v: Seq<Utxo>) -> Seq<UtxoView> {
    v.map_values(|u: Utxo| u@)
}

/// The record of the output of an entry, where it is unspent.
pub open spec fn unspent(db: store::Db, e: index::EntryView) -> Option<Seq<u8>> {
    store::read(db, Cf::Utxo, keys::outpoint_key(false, e.txid, e.vout as u32))
}

/// Adds to a balance; `None` where the sum leaves the range of amounts.
pub open spec fn add_amount(sum: nat, value: nat) -> Option<nat> {
    if sum + value <= u64::MAX {
        Some(sum + value)
    } else {
        None
    }
}

/// What the first `n` entries come to: the amount that a later block confirms,
/// and the rest.
pub open spec fn balance_upto(
    db: store::Db,
    current: usize,
    s: Seq<OwnedView>,
    n: nat,
) -> Result<(nat, nat), Fault>
    decreases n,
{
    if n == 0 {
        Ok((0, 0))
    } else {
        let e = s[n - 1].entry;
        match balance_upto(db, current, s, (n - 1) as nat) {
            Err(f) => Err(f),
            Ok(b) => if unspent(db, e) is None {
                Ok(b)
            } else {
                match index::placed_at(db, e.txid) {
                    Err(f) => Err(f),
                    Ok(place) => if place is Some && current > place->0 {
                        match add_amount(b.0, e.value) {
                            Some(c) => Ok((c, b.1)),
                            None => Err(Fault::ValueOverflow),
                        }
                    } else {
                        match add_amount(b.1, e.value) {
                            Some(p) => Ok((b.0, p)),
                            None => Err(Fault::ValueOverflow),
                        }
                    },
                }
            },
        }
    }
}

/// The balance of a wallet: what is confirmed and what is pending.
pub open spec fn balance_of(
    seed: Seq<u8>,
    db: store::Db,
    rows: Seq<(Seq<u8>, Seq<u8>)>,
) -> Result<(nat, nat), Fault> {
    match ledger::stored_height(db) {
        Err(e) => Err(e),
        Ok(h) => {
            let all = owned(seed, rows, ENTRY_AT as int);
            match balance_upto(db, h as usize, all.0, all.0.len()) {
                Err(e) => Err(e),
                Ok(b) => match all.1 {
                    Some(e) => Err(e),
                    None => Ok(b),
                },
            }
        },
    }
}

/// The unspent outputs of the first `n` entries, where only those that may be
/// spent are asked for these.
pub open spec fn utxos_upto(
    db: store::Db,
    current: usize,
    s: Seq<OwnedView>,
    spendable_only: bool,
    n: nat,
) -> Result<Seq<UtxoView>, Fault>
    decreases n,
{
    if n == 0 {
        Ok(Seq::empty())
    } else {
        let o = s[n - 1];
        match utxos_upto(db, current, s, spendable_only, (n - 1) as nat) {
            Err(f) => Err(f),
            Ok(found) => match unspent(db, o.entry) {
                None => Ok(found),
                Some(raw) => match codec::read_output(raw) {
                    None => Err(Fault::Other("Deserialize output failed"@)),
                    Some(out) => match index::placed_at(db, o.entry.txid) {
                        Err(f) => Err(f),
                        Ok(place) => {
                            let confs = match place {
                                Some(h) => index::confirmations_of(current, h),
                                None => 0,
                            };
                            if !spendable_only || confs >= COINBASE_MATURITY {
                                Ok(
                                    found.push(
                                        UtxoView {
                                            txid: o.entry.txid,
                                            vout: o.entry.vout,
                                            value: o.entry.value,
                                            confirmations: confs,
                                            script_pubkey: out.script_pubkey,
                                            height: 0,
                                            chain: o.chain,
                                            index: o.index,
                                            is_confirmed: confs > 0,
                                        },
                                    ),
                                )
                            } else {
                                Ok(found)
                            }
                        },
                    },
                },
            },
        }
    }
}

/// The unspent outputs of a wallet.
pub open spec fn utxos_of(
    seed: Seq<u8>,
    db: store::Db,
    rows: Seq<(Seq<u8>, Seq<u8>)>,
    spendable_only: bool,
) -> Result<Seq<UtxoView>, Fault> {
    match ledger::stored_height(db) {
        Err(e) => Err(e),
        Ok(h) => {
            let all = owned(seed, rows, ENTRY_AT as int);
            match utxos_upto(db, h as usize, all.0, spendable_only, all.0.len()) {
                Err(e) => Err(e),
                Ok(s) => match all.1 {
                    Some(e) => Err(e),
                    None => Ok(s),
                },
            }
        },
    }
}

/// The amounts by transaction of the first `n` entries.
pub open spec fn nets_upto(db: store::Db, s: Seq<OwnedView>, n: nat) -> Result<history::Nets, Fault>
    decreases n,
{
    if n == 0 {
        Ok(Seq::empty())
    } else {
        let o = s[n - 1];
        match nets_upto(db, s, (n - 1) as nat) {
            Err(f) => Err(f),
            Ok(nets) => match history::contribution(
                o.entry.value,
                o.chain != 0,
                unspent(db, o.entry) is None,
            ) {
                None => Err(Fault::ValueOverflow),
                Some(x) => if history::fits(history::net_of(nets, o.entry.txid) + x) {
                    Ok(history::net_added(nets, o.entry.txid, x))
                } else {
                    Err(Fault::ValueOverflow)
                },
            },
        }
    }
}

/// The history of a wallet.
pub open spec fn wallet_history(
    seed: Seq<u8>,
    db: store::Db,
    rows: Seq<(Seq<u8>, Seq<u8>)>,
    limit: nat,
) -> Result<Seq<history::HistoryView>, Fault> {
    match ledger::stored_height(db) {
        Err(e) => Err(e),
        Ok(h) => {
            let all = owned(seed, rows, LOOKUP_AT as int);
            match nets_upto(db, all.0, all.0.len()) {
                Err(e) => Err(e),
                Ok(nets) => match all.1 {
                    Some(e) => Err(e),
                    None => history::history_of(db, h as usize, nets, false, limit),
                },
            }
        },
    }
}

proof fn lemma_balance_fails(db: store::Db, current: usize, s: Seq<OwnedView>, i: nat, n: nat)
    requires
        i <= n,
        balance_upto(db, current, s, i) is Err,
    ensures
        balance_upto(db, current, s, n) == balance_upto(db, current, s, i),
    decreases n,
{
    if i < n {
        lemma_balance_fails(db, current, s, i, (n - 1) as nat);
    }
}

proof fn lemma_utxos_fail(
    db: store::Db,
    current: usize,
    s: Seq<OwnedView>,
    spendable_only: bool,
    i: nat,
    n: nat,
)
    requires
        i <= n,
        utxos_upto(db, current, s, spendable_only, i) is Err,
    ensures
        utxos_upto(db, current, s, spendable_only, n) == utxos_upto(
            db,
            current,
            s,
            spendable_only,
            i,
        ),
    decreases n,
{
    if i < n {
        lemma_utxos_fail(db, current, s, spendable_only, i, (n - 1) as nat);
    }
}

proof fn lemma_nets_fail(db: store::Db, s: Seq<OwnedView>, i: nat, n: nat)
    requires
        i <= n,
        nets_upto(db, s, i) is Err,
    ensures
        nets_upto(db, s, n) == nets_upto(db, s, i),
    decreases n,
{
    if i < n {
        lemma_nets_fail(db, s, i, (n - 1) as nat);
    }
}

proof fn lemma_owned_fails(
    seed: Seq<u8>,
    rows: Seq<(Seq<u8>, Seq<u8>)>,
    at: int,
    i: nat,
    n: nat,
)
    requires
        i <= n,
        owned_upto(seed, rows, at, i).1 is Some,
    ensures
        owned_upto(seed, rows, at, n) == owned_upto(seed, rows, at, i),
    decreases n,
{
    if i < n {
        lemma_owned_fails(seed, rows, at, i, (n - 1) as nat);
    }
}

/// The entries of an address, with where the address is.
fn own_entries(into: &mut Vec<Owned>, chain: u32, index: u32, found: &Vec<Entry>)
    ensures
        owned_view(final(into)@) == owned_view(old(into)@) + owned_by(
            chain,
            index,
            index::entries_view(found@),
        ),
{
    let ghost before = owned_view(into@);
    let ghost all = owned_by(chain, index, index::entries_view(found@));
    let mut i: usize = 0;
    assert(before + all.take(0) =~= before);
    while i < found.len()
        invariant
            i <= found@.len(),
            all == owned_by(chain, index, index::entries_view(found@)),
            owned_view(into@) == before + all.take(i as int),
        decreases found@.len() - i,
    {
        let ghost now = owned_view(into@);
        let o = Owned { chain, index, entry: found[i] };
        into.push(o);
        proof {
            assert(all[i as int] == o@);
            assert(owned_view(into@) =~= now.push(o@));
            assert(before + all.take(i + 1) =~= now.push(o@));
        }
        i += 1;
    }
    assert(all.take(all.len() as int) =~= all);
}

/// The key of an unspent output.
fn find_unspent(db: &Snapshot, e: &Entry) -> (r: Option<Vec<u8>>)
    ensures
        crate::tx::opt_view(r) == unspent(db@, e@),
{
    let key = make_outpoint_key(false, &e.txid, e.vout);
    db.get(Cf::Utxo, key.as_slice())
}

/// What entries come to: the amount that a later block confirms, and the rest.
pub fn balance_owned(db: &Snapshot, current: usize, all: &Vec<Owned>) -> (r: Result<
    (u64, u64),
    ChainError,
>)
    ensures
        (match r {
            Ok(b) => Ok::<(nat, nat), Fault>((b.0 as nat, b.1 as nat)),
            Err(e) => Err(e@),
        }) == balance_upto(db@, current, owned_view(all@), all@.len()),
{
    let ghost s = owned_view(all@);
    let mut confirmed: u64 = 0;
    let mut pending: u64 = 0;
    let mut i: usize = 0;
    while i < all.len()
        invariant
            i <= all@.len(),
            s == owned_view(all@),
            balance_upto(db@, current, s, i as nat) == Ok::<(nat, nat), Fault>(
                (confirmed as nat, pending as nat),
            ),
        decreases all@.len() - i,
    {
        let e = &all[i].entry;
        assert(s[i as int].entry == e@);
        let ghost next = (i + 1) as nat;
        if find_unspent(db, e).is_some() {
            let deep: bool = match find_height(db, &e.txid) {
                Ok(Some(h)) => current as u64 > h,
                Ok(None) => false,
                Err(f) => {
                    proof {
                        lemma_balance_fails(db@, current, s, next, s.len());
                    }
                    return Err(f);
                },
            };
            if deep {
                if e.value > u64::MAX - confirmed {
                    proof {
                        lemma_balance_fails(db@, current, s, next, s.len());
                    }
                    return Err(ChainError::ValueOverflow);
                }
                confirmed = confirmed + e.value;
            } else {
                if e.value > u64::MAX - pending {
                    proof {
                        lemma_balance_fails(db@, current, s, next, s.len());
                    }
                    return Err(ChainError::ValueOverflow);
                }
                pending = pending + e.value;
            }
        }
        i += 1;
    }
    Ok((confirmed, pending))
}

/// The unspent outputs of entries, only those that may be spent where that is
/// asked for.
pub fn list_owned(db: &Snapshot, current: usize, all: &Vec<Owned>, spendable_only: bool) -> (r:
    Result<Vec<Utxo>, ChainError>)
    ensures
        (match r {
            Ok(v) => Ok::<Seq<UtxoView>, Fault>(utxos_view(v@)),
            Err(e) => Err(e@),
        }) == utxos_upto(db@, current, owned_view(all@), spendable_only, all@.len()),
{
    let ghost s = owned_view(all@);
    let mut found: Vec<Utxo> = Vec::new();
    let mut i: usize = 0;
    assert(utxos_view(found@) =~= Seq::<UtxoView>::empty());
    while i < all.len()
        invariant
            i <= all@.len(),
            s == owned_view(all@),
            utxos_upto(db@, current, s, spendable_only, i as nat) == Ok::<
                Seq<UtxoView>,
                Fault,
            >(utxos_view(found@)),
        decreases all@.len() - i,
    {
        let o = &all[i];
        assert(s[i as int] == o@);
        let ghost next = (i + 1) as nat;
        if let Some(raw) = find_unspent(db, &o.entry) {
            let out = match deserialize_output(raw.as_slice()) {
                Some(out) => out,
                None => {
                    proof {
                        lemma_utxos_fail(db@, current, s, spendable_only, next, s.len());
                    }
                    return Err(other("Deserialize output failed"));
                },
            };
            let confs: usize = match find_height(db, &o.entry.txid) {
                Ok(Some(h)) => confirmations(current, h),
                Ok(None) => 0,
                Err(f) => {
                    proof {
                        lemma_utxos_fail(db@, current, s, spendable_only, next, s.len());
                    }
                    return Err(f);
                },
            };
            if !spendable_only || confs >= COINBASE_MATURITY {
                let u = Utxo {
                    txid: o.entry.txid,
                    vout: o.entry.vout,
                    value: o.entry.value,
                    confirmations: confs,
                    script_pubkey: out.script_pubkey,
                    height: 0,
                    chain: o.chain,
                    index: o.index,
                    is_confirmed: confs > 0,
                };
                let ghost before = utxos_view(found@);
                found.push(u);
                assert(utxos_view(found@) =~= before.push(u@));
            }
        }
        i += 1;
    }
    Ok(found)
}

/// The amounts of entries by transaction.
pub fn net_owned(db: &Snapshot, all: &Vec<Owned>) -> (r: Result<Vec<([u8; 32], i64)>, ChainError>)
    ensures
        (match r {
            Ok(v) => Ok::<history::Nets, Fault>(history::nets_view(v@)),
            Err(e) => Err(e@),
        }) == nets_upto(db@, owned_view(all@), all@.len()),
{
    let ghost s = owned_view(all@);
    let mut nets: Vec<([u8; 32], i64)> = Vec::new();
    let mut i: usize = 0;
    assert(history::nets_view(nets@) =~= Seq::<(Seq<u8>, int)>::empty());
    while i < all.len()
        invariant
            i <= all@.len(),
            s == owned_view(all@),
            nets_upto(db@, s, i as nat) == Ok::<history::Nets, Fault>(
                history::nets_view(nets@),
            ),
        decreases all@.len() - i,
    {
        let o = &all[i];
        assert(s[i as int] == o@);
        let is_spent = find_unspent(db, &o.entry).is_none();
        let done = match contribute(o.entry.value, o.chain != 0, is_spent) {
            Some(x) => add_net(&mut nets, o.entry.txid, x),
            None => false,
        };
        if !done {
            proof {
                lemma_nets_fail(db@, s, (i + 1) as nat, s.len());
            }
            return Err(ChainError::ValueOverflow);
        }
        i += 1;
    }
    Ok(nets)
}

impl Wallet {
    /// The wallet of a phrase of English words.
    pub fn from_mnemonic(mnemonic: &str, mainnet: bool) -> (r: Result<Self, ChainError>)
        ensures
            match r {
                Ok(w) => {
                    &&& hd::phrase_seed(mnemonic@) == Some(w@.seed)
                    &&& hd::secret_at(w@.seed, Seq::empty()) is Some
                    &&& w@.mainnet == mainnet
                    &&& w@.current_change_index == 0
                },
                Err(e) => match hd::phrase_seed(mnemonic@) {
                    None => e@ == Fault::Other("Invalid mnemonic"@),
                    Some(seed) => hd::secret_at(seed, Seq::empty()) is None && e@ == Fault::Other(
                        "Invalid master key"@,
                    ),
                },
            },
    {
        match seed_from_phrase(mnemonic) {
            None => Err(other("Invalid mnemonic")),
            Some(seed) => {
                let root: Vec<u32> = Vec::new();
                assert(root@ =~= Seq::<u32>::empty());
                match derive_secret(&seed, &root) {
                    None => Err(other("Invalid master key")),
                    Some(_) => Ok(Wallet { seed, mainnet, current_change_index: 0 }),
                }
            },
        }
    }

    /// The wallet of a phrase, with the phrase in its plain form.
    pub fn restore(mnemonic: &str, mainnet: bool) -> (r: Result<(Self, String), ChainError>)
        ensures
            match r {
                Ok((w, plain)) => {
                    &&& hd::phrase_text(mnemonic@) == Some(plain@)
                    &&& hd::phrase_seed(mnemonic@) == Some(w@.seed)
                    &&& hd::phrase_seed(plain@) == Some(w@.seed)
                    &&& hd::secret_at(w@.seed, Seq::empty()) is Some
                    &&& w@.mainnet == mainnet
                    &&& w@.current_change_index == 0
                },
                Err(e) => match hd::phrase_seed(mnemonic@) {
                    None => e@ == Fault::Other("Invalid mnemonic"@),
                    Some(seed) => hd::secret_at(seed, Seq::empty()) is None && e@ == Fault::Other(
                        "Invalid master key"@,
                    ),
                },
            },
    {
        match plain_phrase(mnemonic) {
            None => Err(other("Invalid mnemonic")),
            Some(plain) => match Wallet::from_mnemonic(plain.as_str(), mainnet) {
                Ok(w) => Ok((w, plain)),
                Err(e) => Err(e),
            },
        }
    }

    /// The wallet of a seed.
    pub fn from_seed(seed: [u8; 64], mainnet: bool, current_change_index: u32) -> (r: Self)
        ensures
            r@ == (WalletView { seed: seed@, mainnet, current_change_index }),
    {
        Wallet { seed, mainnet, current_change_index }
    }

    /// Whether the wallet is one of the main network.
    pub fn is_mainnet(&self) -> (r: bool)
        ensures
            r == self@.mainnet,
    {
        self.mainnet
    }

    /// The address to receive at, with an index.
    pub fn get_receive_address(&self, index: u32) -> (r: Result<String, ChainError>)
        ensures
            (match r {
                Ok(a) => Ok::<Seq<char>, Fault>(a@),
                Err(e) => Err(e@),
            }) == if index >= HARDENED {
                Err(Fault::Other("Invalid child number"@))
            } else {
                match hd::keys_at(self@.seed, 0, index) {
                    Err(e) => Err(e),
                    Ok(k) => Ok(
                        address::address_text(
                            address::PUBKEY_HASH_VERSION,
                            hash::hash160_of(k.1),
                        ),
                    ),
                }
            },
    {
        if index >= HARDENED {
            return Err(other("Invalid child number"));
        }
        match derive_keys(&self.seed, 0, index) {
            Err(e) => Err(e),
            Ok((_, pk)) => Ok(pubkey_to_address(&pk)),
        }
    }

    /// The entries of the wallet's addresses, up to the first failure, and the
    /// failure.
    fn own(&self, rows: &Vec<Row>, at: usize) -> (r: (Vec<Owned>, Option<ChainError>))
        requires
            at <= 25,
        ensures
            (owned_view(r.0@), index::fault_opt(r.1)) == owned(
                self@.seed,
                index::rows_view(rows@),
                at as int,
            ),
    {
        let ghost seed = self@.seed;
        let ghost all = index::rows_view(rows@);
        let mut into: Vec<Owned> = Vec::new();
        let mut n: u32 = 0;
        assert(owned_view(into@) =~= Seq::<OwnedView>::empty());
        while n < CHAINS * ADDRESSES
            invariant
                n <= 200,
                at <= 25,
                seed == self@.seed,
                all == index::rows_view(rows@),
                (owned_view(into@), None::<Fault>) == owned_upto(seed, all, at as int, n as nat),
            decreases 200 - n,
        {
            let chain: u32 = n / ADDRESSES;
            let index: u32 = n % ADDRESSES;
            match derive_keys(&self.seed, chain, index) {
                Err(e) => {
                    proof {
                        lemma_owned_fails(seed, all, at as int, (n + 1) as nat, 200);
                    }
                    return (into, Some(e));
                },
                Ok((_, pk)) => {
                    let key = pk.serialize();
                    let h = hash160(key.as_slice());
                    let (found, fault) = find_entries(rows, &h, at);
                    own_entries(&mut into, chain, index, &found);
                    if fault.is_some() {
                        proof {
                            lemma_owned_fails(seed, all, at as int, (n + 1) as nat, 200);
                        }
                        return (into, fault);
                    }
                },
            }
            n += 1;
        }
        (into, None)
    }

    /// The balance of the wallet: what a later block confirms, and the rest.
    pub fn get_balance(&self, db: &Snapshot, rows: &Vec<Row>) -> (r: Result<(u64, u64), ChainError>)
        ensures
            (match r {
                Ok(b) => Ok::<(nat, nat), Fault>((b.0 as nat, b.1 as nat)),
                Err(e) => Err(e@),
            }) == balance_of(self@.seed, db@, index::rows_view(rows@)),
    {
        let current: usize = match load_current_height(db) {
            Ok(h) => h,
            Err(e) => {
                return Err(e);
            },
        };
        let (all, fault) = self.own(rows, ENTRY_AT);
        match balance_owned(db, current, &all) {
            Err(e) => Err(e),
            Ok(b) => match fault {
                Some(e) => Err(e),
                None => Ok(b),
            },
        }
    }

    /// The unspent outputs of the wallet, only those that may be spent where
    /// that is asked for.
    pub fn get_utxos(&self, db: &Snapshot, rows: &Vec<Row>, spendable_only: bool) -> (r: Result<
        Vec<Utxo>,
        ChainError,
    >)
        ensures
            (match r {
                Ok(v) => Ok::<Seq<UtxoView>, Fault>(utxos_view(v@)),
                Err(e) => Err(e@),
            }) == utxos_of(self@.seed, db@, index::rows_view(rows@), spendable_only),
    {
        let current: usize = match load_current_height(db) {
            Ok(h) => h,
            Err(e) => {
                return Err(e);
            },
        };
        let (all, fault) = self.own(rows, ENTRY_AT);
        match list_owned(db, current, &all, spendable_only) {
            Err(e) => Err(e),
            Ok(v) => match fault {
                Some(e) => Err(e),
                None => Ok(v),
            },
        }
    }

    /// The history of the wallet, the latest transactions first, at most a
    /// number of them.
    pub fn get_history(&self, db: &Snapshot, rows: &Vec<Row>, limit: usize) -> (r: Result<
        Vec<TxHistoryEntry>,
        ChainError,
    >)
        ensures
            history::history_verdict(r) == wallet_history(
                self@.seed,
                db@,
                index::rows_view(rows@),
                limit as nat,
            ),
    {
        let current: usize = match load_current_height(db) {
            Ok(h) => h,
            Err(e) => {
                return Err(e);
            },
        };
        let (all, fault) = self.own(rows, LOOKUP_AT);
        match net_owned(db, &all) {
            Err(e) => Err(e),
            Ok(nets) => match fault {
                Some(e) => Err(e),
                None => build_history(db, current, &nets, false, limit),
            },
        }
    }

    /// The keys of the wallet on a chain at an index.
    pub fn derive(&self, chain: u32, index: u32) -> (r: Result<([u8; 32], PublicKey), ChainError>)
        ensures
            hd::keys_verdict(r) == hd::keys_at(self@.seed, chain, index),
    {
        derive_keys(&self.seed, chain, index)
    }

    /// The index of the next address for change.
    pub fn change_index(&self) -> (r: u32)
        ensures
            r == self@.current_change_index,
    {
        self.current_change_index
    }

    /// The secret key of an address of the wallet.
    pub fn get_privkey_for_address(&self, address: &str) -> (r: Result<[u8; 32], ChainError>)
        ensures
            (match r {
                Ok(k) => Ok::<Seq<u8>, Fault>(k@),
                Err(e) => Err(e@),
            }) == secret_for(self@.seed, address@),
    {
        let pkh = match address_to_pubkey_hash(address) {
            Ok(h) => h,
            Err(e) => {
                return Err(e);
            },
        };
        let mut n: u32 = 0;
        while n < CHAINS * ADDRESSES
            invariant
                n <= 200,
                address::address_hash(address@) == Ok::<Seq<u8>, Fault>(pkh@),
                search_upto(self@.seed, pkh@, n as nat) == Ok::<Option<Seq<u8>>, Fault>(None),
            decreases 200 - n,
        {
            match derive_keys(&self.seed, n / ADDRESSES, n % ADDRESSES) {
                Err(e) => {
                    proof {
                        lemma_search_ends(self@.seed, pkh@, (n + 1) as nat, 200);
                    }
                    return Err(e);
                },
                Ok((sk, pk)) => {
                    let key = pk.serialize();
                    let h = hash160(key.as_slice());
                    if same_bytes(h.as_slice(), pkh.as_slice()) {
                        proof {
                            lemma_search_ends(self@.seed, pkh@, (n + 1) as nat, 200);
                        }
                        return Ok(sk);
                    }
                },
            }
            n += 1;
        }
        Err(other("Address not found in the wallet"))
    }

    /// The secret key of an address, in the import format of wallets.
    pub fn dump_privkey(&self, address: &str) -> (r: Result<String, ChainError>)
        ensures
            match r {
                Ok(text) => {
                    &&& secret_for(self@.seed, address@) is Ok
                    &&& text@ == hd::wif_text(
                        secret_for(self@.seed, address@)->Ok_0,
                        self@.mainnet,
                    )
                },
                Err(e) => secret_for(self@.seed, address@) == Err::<Seq<u8>, _>(e@),
            },
    {
        match self.get_privkey_for_address(address) {
            Ok(secret) => {
                proof {
                    let pkh = address::address_hash(address@)->Ok_0;
                    lemma_search_gives_keys(self@.seed, pkh, 200);
                }
                Ok(write_wif(&secret, self.mainnet))
            },
            Err(e) => Err(e),
        }
    }
}

/// The secret key of the first of `n` addresses whose public key has a hash.
pub open spec fn search_upto(seed: Seq<u8>, pkh: Seq<u8>, n: nat) -> Result<Option<Seq<u8>>, Fault>
    decreases n,
{
    if n == 0 {
        Ok(None)
    } else {
        match search_upto(seed, pkh, (n - 1) as nat) {
            Ok(None) => match hd::keys_at(
                seed,
                ((n - 1) as nat / ADDRESSES as nat) as u32,
                ((n - 1) as nat % ADDRESSES as nat) as u32,
            ) {
                Err(e) => Err(e),
                Ok(k) => if hash::hash160_of(k.1) == pkh {
                    Ok(Some(k.0))
                } else {
                    Ok(None)
                },
            },
            done => done,
        }
    }
}

/// The secret key of an address of a wallet.
pub open spec fn secret_for(seed: Seq<u8>, address: Seq<char>) -> Result<Seq<u8>, Fault> {
    match address::address_hash(address) {
        Err(e) => Err(e),
        Ok(pkh) => match search_upto(seed, pkh, 200) {
            Err(e) => Err(e),
            Ok(Some(sk)) => Ok(sk),
            Ok(None) => Err(Fault::Other("Address not found in the wallet"@)),
        },
    }
}

proof fn lemma_search_gives_keys(seed: Seq<u8>, pkh: Seq<u8>, n: nat)
    ensures
        search_upto(seed, pkh, n) matches Ok(Some(sk)) ==> secp::public_of(sk) is Some,
    decreases n,
{
    if n > 0 {
        lemma_search_gives_keys(seed, pkh, (n - 1) as nat);
    }
}

proof fn lemma_search_ends(seed: Seq<u8>, pkh: Seq<u8>, i: nat, n: nat)
    requires
        i <= n,
        search_upto(seed, pkh, i) != Ok::<Option<Seq<u8>>, Fault>(None),
    ensures
        search_upto(seed, pkh, n) == search_upto(seed, pkh, i),
    decreases n,
{
    if i < n {
        lemma_search_ends(seed, pkh, i, (n - 1) as nat);
    }
}

/// A key that the wallet gives out for an address is the key of that address.
pub proof fn law_secret_is_of_address(seed: Seq<u8>, pkh: Seq<u8>, n: nat)
    requires
        search_upto(seed, pkh, n) is Ok,
        search_upto(seed, pkh, n)->Ok_0 is Some,
    ensures
        secp::public_of(search_upto(seed, pkh, n)->Ok_0->0) is Some,
        hash::hash160_of(secp::public_of(search_upto(seed, pkh, n)->Ok_0->0)->0) == pkh,
    decreases n,
{
    if n > 0 && search_upto(seed, pkh, (n - 1) as nat) != Ok::<Option<Seq<u8>>, Fault>(None) {
        law_secret_is_of_address(seed, pkh, (n - 1) as nat);
    }
}

// ---------------------------------------------------------------------------
// What a wallet holds
// ---------------------------------------------------------------------------

/// The balance is the sum of the unspent outputs: what a block below the best
/// one holds is confirmed, and the rest is pending; what is spent counts
/// nowhere.
pub proof fn law_balance_sums_unspent(
    db: store::Db,
    current: usize,
    s: Seq<OwnedView>,
    n: nat,
    confirmed: Seq<u64>,
    pending: Seq<u64>,
)
    requires
        n <= s.len(),
        confirmed.len() == s.len(),
        pending.len() == s.len(),
        forall|i: int|
            0 <= i < s.len() ==> {
                let e = (#[trigger] s[i]).entry;
                let there = store::read(
                    db,
                    Cf::Utxo,
                    keys::outpoint_key(false, e.txid, e.vout as u32),
                ) is Some;
                let at = store::read(db, Cf::TxIndex, e.txid);
                let deep = at is Some && codec::read_position(at->0) is Some && (
                codec::read_position(at->0)->0).0 < current;
                &&& at is Some ==> codec::read_position(at->0) is Some
                &&& confirmed[i] == if there && deep {
                    e.value
                } else {
                    0
                }
                &&& pending[i] == if there && !deep {
                    e.value
                } else {
                    0
                }
            },
        tx::sum(confirmed) <= u64::MAX,
        tx::sum(pending) <= u64::MAX,
    ensures
        balance_upto(db, current, s, n) == Ok::<(nat, nat), Fault>(
            (tx::sum(confirmed.take(n as int)), tx::sum(pending.take(n as int))),
        ),
    decreases n,
{
    if n == 0 {
        assert(confirmed.take(0) =~= Seq::<u64>::empty());
        assert(pending.take(0) =~= Seq::<u64>::empty());
    } else {
        law_balance_sums_unspent(db, current, s, (n - 1) as nat, confirmed, pending);
        let e = s[n - 1].entry;
        assert(confirmed.take(n as int).drop_last() =~= confirmed.take(n - 1));
        assert(pending.take(n as int).drop_last() =~= pending.take(n - 1));
        tx::lemma_sum_take(confirmed, n as int);
        tx::lemma_sum_take(pending, n as int);
    }
}

/// Every unspent output of a wallet is that of one of its entries, with the
/// amount of the entry, the stored script and the address of the entry; one
/// that may be spent has 100 confirmations or more.
pub proof fn law_listed_are_unspent(
    db: store::Db,
    current: usize,
    s: Seq<OwnedView>,
    spendable_only: bool,
    n: nat,
    k: int,
) -> (i: int)
    requires
        n <= s.len(),
        utxos_upto(db, current, s, spendable_only, n) is Ok,
        0 <= k < utxos_upto(db, current, s, spendable_only, n)->Ok_0.len(),
    ensures
        0 <= i < n,
        lists_own(db, current, s[i], utxos_upto(db, current, s, spendable_only, n)->Ok_0[k]),
        spendable_only ==> utxos_upto(
            db,
            current,
            s,
            spendable_only,
            n,
        )->Ok_0[k].confirmations >= 100,
    decreases n,
{
    let m = (n - 1) as nat;
    let f = utxos_upto(db, current, s, spendable_only, m)->Ok_0;
    if k < f.len() {
        law_listed_are_unspent(db, current, s, spendable_only, m, k)
    } else {
        n - 1
    }
}

/// Every entry of a wallet whose output is stored is among its unspent outputs;
/// among those that may be spent where it has 100 confirmations or more.
pub proof fn law_unspent_are_listed(
    db: store::Db,
    current: usize,
    s: Seq<OwnedView>,
    spendable_only: bool,
    n: nat,
    i: int,
) -> (k: int)
    requires
        n <= s.len(),
        utxos_upto(db, current, s, spendable_only, n) is Ok,
        0 <= i < n,
        store::read(
            db,
            Cf::Utxo,
            keys::outpoint_key(false, s[i].entry.txid, s[i].entry.vout as u32),
        ) is Some,
        !spendable_only || 100 <= depth_of(db, current, s[i].entry.txid),
    ensures
        0 <= k < utxos_upto(db, current, s, spendable_only, n)->Ok_0.len(),
        lists_own(db, current, s[i], utxos_upto(db, current, s, spendable_only, n)->Ok_0[k]),
    decreases n,
{
    let m = (n - 1) as nat;
    if i < m {
        law_unspent_are_listed(db, current, s, spendable_only, m, i)
    } else {
        utxos_upto(db, current, s, spendable_only, n)->Ok_0.len() - 1
    }
}

/// How many blocks confirm a transaction, its own among them; 0 where it is not
/// recorded.
pub open spec fn depth_of(db: store::Db, current: usize, txid: Seq<u8>) -> int {
    match store::read(db, Cf::TxIndex, txid) {
        None => 0,
        Some(b) => {
            let h = (codec::read_position(b)->0).0;
            if current <= h {
                1
            } else if current - h == usize::MAX {
                usize::MAX as int
            } else {
                current - h + 1
            }
        },
    }
}

/// Whether an unspent output is that of an entry.
pub open spec fn lists_own(db: store::Db, current: usize, o: OwnedView, u: UtxoView) -> bool {
    let rec = store::read(
        db,
        Cf::Utxo,
        keys::outpoint_key(false, o.entry.txid, o.entry.vout as u32),
    );
    &&& rec is Some
    &&& codec::read_output(rec->0) is Some
    &&& u.script_pubkey == codec::read_output(rec->0)->0.script_pubkey
    &&& u.txid == o.entry.txid
    &&& u.vout == o.entry.vout
    &&& u.value == o.entry.value
    &&& u.chain == o.chain
    &&& u.index == o.index
    &&& u.confirmations == depth_of(db, current, o.entry.txid)
    &&& u.is_confirmed == (u.confirmations > 0)
}

} // verus!
