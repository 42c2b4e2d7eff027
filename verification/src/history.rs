//! What the transactions of a wallet come to.
use crate::bytes;
use crate::bytes::same32;
use crate::errors::{ChainError, Fault};
use crate::index;
use crate::index::{confirmations, get_block_timestamp, height_from_txid};
use crate::order;
use crate::order::order_desc;
use crate::store;
use crate::store::Snapshot;
use crate::text;
use crate::text::encode_hex;
use vstd::prelude::*;

verus! {

/// A transaction of a wallet.
#[derive(Debug, Clone, PartialEq, Eq)]
pub struct TxHistoryEntry {
    /// The name of the transaction, in hexadecimal.
    pub txid: String,
    /// When its block was made.
    pub timestamp: u32,
    /// What the wallet has gained by it.
    pub net_amount: i64,
    /// How many blocks confirm it.
    pub confirmations: usize,
    /// Whether the wallet has gained by it.
    pub is_receive: bool,
}

/// What a [`TxHistoryEntry`] says.
pub struct HistoryView {
    pub txid: Seq<char>,
    pub timestamp: u32,
    pub net_amount: i64,
    pub confirmations: usize,
    pub is_receive: bool,
}

impl View for TxHistoryEntry {
    type V = HistoryView;

    open spec fn view(&self) -> HistoryView {
        HistoryView {
            txid: self.txid@,
            timestamp: self.timestamp,
            net_amount: self.net_amount,
            confirmations: self.confirmations,
            is_receive: self.is_receive,
        }
    }
}

/// What a list of entries says.
pub open spec fn history_view(v: Seq<TxHistoryEntry>) -> Seq<HistoryView> {
    v.map_values(|e: TxHistoryEntry| e@)
}

// ---------------------------------------------------------------------------
// Amounts by transaction
// ---------------------------------------------------------------------------

/// Whether a number is a signed one of 64 bits.
pub open spec fn fits(x: int) -> bool {
    i64::MIN <= x <= i64::MAX
}

/// An amount, read as a signed number of 64 bits.
pub open spec fn as_signed(value: nat) -> int {
    if value < 0x8000_0000_0000_0000 {
        value as int
    } else {
        value - 0x1_0000_0000_0000_0000
    }
}

/// The amount with its sign turned where that is asked for; `None` where the
/// result is no signed number of 64 bits.
pub open spec fn turned(x: int, turn: bool) -> Option<int> {
    if !turn {
        Some(x)
    } else if fits(-x) {
        Some(-x)
    } else {
        None
    }
}

/// What an output adds to its transaction's amount: its value, turned once
/// where the wallet paid it to itself and once where it is spent.
pub open spec fn contribution(value: nat, is_change: bool, is_spent: bool) -> Option<int> {
    match turned(as_signed(value), is_change) {
        None => None,
        Some(x) => turned(x, is_spent),
    }
}

fn turn(x: i64, wanted: bool) -> (r: Option<i64>)
    ensures
        (match r {
            Some(y) => Some(y as int),
            None => None::<int>,
        }) == turned(x as int, wanted),
{
    if !wanted {
        Some(x)
    } else if x == i64::MIN {
        None
    } else {
        Some(-x)
    }
}

/// What an output adds to its transaction's amount.
pub fn contribute(value: u64, is_change: bool, is_spent: bool) -> (r: Option<i64>)
    ensures
        (match r {
            Some(y) => Some(y as int),
            None => None::<int>,
        }) == contribution(value as nat, is_change, is_spent),
{
    let x: i64 = if value < 0x8000_0000_0000_0000 {
        value as i64
    } else {
        (value as i128 - 0x1_0000_0000_0000_0000) as i64
    };
    match turn(x, is_change) {
        None => None,
        Some(y) => turn(y, is_spent),
    }
}

/// Amounts by transaction.
pub type Nets = Seq<(Seq<u8>, int)>;

/// The amount of a transaction.
pub open spec fn net_of(nets: Nets, txid: Seq<u8>) -> int
    decreases nets.len(),
{
    if nets.len() == 0 {
        0
    } else if nets[0].0 == txid {
        nets[0].1
    } else {
        net_of(nets.skip(1), txid)
    }
}

/// The amounts after one more: a new transaction comes last.
pub open spec fn net_added(nets: Nets, txid: Seq<u8>, amount: int) -> Nets
    decreases nets.len(),
{
    if nets.len() == 0 {
        seq![(txid, amount)]
    } else if nets[0].0 == txid {
        nets.update(0, (txid, nets[0].1 + amount))
    } else {
        seq![nets[0]] + net_added(nets.skip(1), txid, amount)
    }
}

/// What a list of amounts says.
pub open spec fn nets_view(v: Seq<([u8; 32], i64)>) -> Nets {
    v.map_values(|e: ([u8; 32], i64)| (e.0@, e.1 as int))
}

/// Adds an amount to that of a transaction. Says whether the sum is a signed
/// number of 64 bits; where it is not, nothing changes.
pub fn add_net(nets: &mut Vec<([u8; 32], i64)>, txid: [u8; 32], amount: i64) -> (r: bool)
    ensures
        r == fits(net_of(nets_view(old(nets)@), txid@) + amount),
        nets_view(final(nets)@) == if r {
            net_added(nets_view(old(nets)@), txid@, amount as int)
        } else {
            nets_view(old(nets)@)
        },
{
    let ghost all = nets_view(nets@);
    let mut i: usize = 0;
    proof {
        assert(all.skip(0) =~= all);
        assert(all.take(0) =~= Seq::<(Seq<u8>, int)>::empty());
        assert(all.take(0) + net_added(all.skip(0), txid@, amount as int) =~= net_added(
            all,
            txid@,
            amount as int,
        ));
    }
    while i < nets.len()
        invariant
            i <= nets@.len(),
            nets@ == old(nets)@,
            all == nets_view(nets@),
            net_of(all, txid@) == net_of(all.skip(i as int), txid@),
            net_added(all, txid@, amount as int) == all.take(i as int) + net_added(
                all.skip(i as int),
                txid@,
                amount as int,
            ),
        decreases nets@.len() - i,
    {
        let e = nets[i];
        let ghost rest = all.skip(i as int);
        proof {
            bytes::lemma_id_ext(e.0, txid);
            assert(rest[0] == all[i as int]);
            assert(rest.skip(1) =~= all.skip(i + 1));
        }
        if same32(&e.0, &txid) {
            let sum: i128 = e.1 as i128 + amount as i128;
            if sum < i64::MIN as i128 || sum > i64::MAX as i128 {
                return false;
            }
            nets.set(i, (txid, sum as i64));
            proof {
                assert(nets_view(nets@) =~= all.take(i as int) + rest.update(
                    0,
                    (txid@, rest[0].1 + amount),
                ));
            }
            return true;
        }
        proof {
            let tail = net_added(rest.skip(1), txid@, amount as int);
            assert(all.take(i as int) + (seq![rest[0]] + tail) =~= all.take(i + 1) + tail);
        }
        i += 1;
    }
    nets.push((txid, amount));
    proof {
        assert(all.skip(all.len() as int) =~= Seq::<(Seq<u8>, int)>::empty());
        assert(nets_view(nets@) =~= all.take(all.len() as int) + seq![(txid@, amount as int)]);
    }
    true
}

/// The amounts are those of the transactions: adding changes one of them, by
/// what was added.
pub proof fn law_net_added(nets: Nets, txid: Seq<u8>, amount: int, other: Seq<u8>)
    ensures
        net_of(net_added(nets, txid, amount), other) == net_of(nets, other) + if other == txid {
            amount
        } else {
            0
        },
    decreases nets.len(),
{
    let after = net_added(nets, txid, amount);
    if nets.len() == 0 {
        assert(after.skip(1) =~= nets);
    } else if nets[0].0 == txid {
        assert(after.skip(1) =~= nets.skip(1));
    } else {
        law_net_added(nets.skip(1), txid, amount, other);
        assert(after.skip(1) =~= net_added(nets.skip(1), txid, amount));
    }
}

// ---------------------------------------------------------------------------
// The list of transactions
// ---------------------------------------------------------------------------

/// The entry of a transaction with an amount.
pub open spec fn history_entry(db: store::Db, current: usize, net: (Seq<u8>, int)) -> Result<
    HistoryView,
    Fault,
> {
    match index::height_of(db, net.0) {
        Err(e) => Err(e),
        Ok(h) => Ok(
            HistoryView {
                txid: text::hex_text(net.0),
                timestamp: match index::block_time(db, h) {
                    Some(t) => t,
                    None => 0,
                },
                net_amount: net.1 as i64,
                confirmations: index::confirmations_of(current, h),
                is_receive: net.1 > 0,
            },
        ),
    }
}

/// The entries of the first `n` transactions, in their order, those that came
/// to nothing left out where that is asked for.
pub open spec fn history_upto(
    db: store::Db,
    current: usize,
    nets: Nets,
    skip_zero: bool,
    n: nat,
) -> Result<Seq<HistoryView>, Fault>
    decreases n,
{
    if n == 0 {
        Ok(Seq::empty())
    } else {
        match history_upto(db, current, nets, skip_zero, (n - 1) as nat) {
            Err(e) => Err(e),
            Ok(s) => if skip_zero && nets[n - 1].1 == 0 {
                Ok(s)
            } else {
                match history_entry(db, current, nets[n - 1]) {
                    Err(e) => Err(e),
                    Ok(x) => Ok(s.push(x)),
                }
            },
        }
    }
}

/// The times of entries.
pub open spec fn times(s: Seq<HistoryView>) -> Seq<u64> {
    s.map_values(|e: HistoryView| e.timestamp as u64)
}

/// Entries with the latest first, at most a number of them.
pub open spec fn latest(s: Seq<HistoryView>, limit: nat) -> Seq<HistoryView> {
    let o = order::order_of(times(s));
    Seq::new(
        if s.len() < limit {
            s.len()
        } else {
            limit
        },
        |i: int| s[o[i]],
    )
}

/// The list of transactions with given amounts, the latest first, at most a
/// number of them.
pub open spec fn history_of(
    db: store::Db,
    current: usize,
    nets: Nets,
    skip_zero: bool,
    limit: nat,
) -> Result<Seq<HistoryView>, Fault> {
    match history_upto(db, current, nets, skip_zero, nets.len()) {
        Err(e) => Err(e),
        Ok(s) => Ok(latest(s, limit)),
    }
}

/// What a result with a list of transactions says.
pub open spec fn history_verdict(r: Result<Vec<TxHistoryEntry>, ChainError>) -> Result<
    Seq<HistoryView>,
    Fault,
> {
    match r {
        Ok(v) => Ok(history_view(v@)),
        Err(e) => Err(e@),
    }
}

proof fn lemma_history_fails(
    db: store::Db,
    current: usize,
    nets: Nets,
    skip_zero: bool,
    i: nat,
    n: nat,
)
    requires
        i <= n,
        history_upto(db, current, nets, skip_zero, i) is Err,
    ensures
        history_upto(db, current, nets, skip_zero, n) == history_upto(
            db,
            current,
            nets,
            skip_zero,
            i,
        ),
    decreases n,
{
    if i < n {
        lemma_history_fails(db, current, nets, skip_zero, i, (n - 1) as nat);
    }
}

/// The list of transactions with given amounts, the latest first, at most a
/// number of them.
pub fn build_history(
    db: &Snapshot,
    current: usize,
    nets: &Vec<([u8; 32], i64)>,
    skip_zero: bool,
    limit: usize,
) -> (r: Result<Vec<TxHistoryEntry>, ChainError>)
    ensures
        history_verdict(r) == history_of(
            db@,
            current,
            nets_view(nets@),
            skip_zero,
            limit as nat,
        ),
{
    let ghost all = nets_view(nets@);
    let mut found: Vec<TxHistoryEntry> = Vec::new();
    let mut i: usize = 0;
    assert(history_view(found@) =~= Seq::<HistoryView>::empty());
    while i < nets.len()
        invariant
            i <= nets@.len(),
            all == nets_view(nets@),
            history_upto(db@, current, all, skip_zero, i as nat) == Ok::<Seq<HistoryView>, Fault>(
                history_view(found@),
            ),
        decreases nets@.len() - i,
    {
        let (txid, net) = nets[i];
        assert(all[i as int] == (txid@, net as int));
        if !(skip_zero && net == 0) {
            let height: u64 = match height_from_txid(db, &txid) {
                Ok(h) => h,
                Err(e) => {
                    proof {
                        lemma_history_fails(
                            db@,
                            current,
                            all,
                            skip_zero,
                            (i + 1) as nat,
                            all.len(),
                        );
                    }
                    return Err(e);
                },
            };
            let timestamp: u32 = match get_block_timestamp(db, height) {
                Some(t) => t,
                None => 0,
            };
            let e = TxHistoryEntry {
                txid: encode_hex(txid.as_slice()),
                timestamp,
                net_amount: net,
                confirmations: confirmations(current, height),
                is_receive: net > 0,
            };
            let ghost before = history_view(found@);
            found.push(e);
            assert(history_view(found@) =~= before.push(e@));
        }
        i += 1;
    }
    let mut keys: Vec<u64> = Vec::new();
    let mut j: usize = 0;
    while j < found.len()
        invariant
            j <= found@.len(),
            keys@.len() == j,
            forall|k: int| 0 <= k < j ==> #[trigger] keys@[k] == found@[k].timestamp as u64,
        decreases found@.len() - j,
    {
        keys.push(found[j].timestamp as u64);
        j += 1;
    }
    let ghost s = history_view(found@);
    assert(keys@ =~= times(s));
    let o = order_desc(&keys);
    let mut out: Vec<TxHistoryEntry> = Vec::new();
    let n: usize = if found.len() < limit {
        found.len()
    } else {
        limit
    };
    let mut k: usize = 0;
    while k < n
        invariant
            k <= n <= o@.len(),
            o@.len() == found@.len(),
            s == history_view(found@),
            order::places(o@) == order::order_of(times(s)),
            forall|m: int| 0 <= m < o@.len() ==> #[trigger] o@[m] < found@.len(),
            out@.len() == k,
            forall|m: int|
                0 <= m < k ==> (#[trigger] out@[m])@ == s[order::order_of(times(s))[m]],
        decreases n - k,
    {
        let e = &found[o[k]];
        proof {
            assert(order::places(o@)[k as int] == o@[k as int]);
        }
        out.push(
            TxHistoryEntry {
                txid: e.txid.clone(),
                timestamp: e.timestamp,
                net_amount: e.net_amount,
                confirmations: e.confirmations,
                is_receive: e.is_receive,
            },
        );
        k += 1;
    }
    assert(history_view(out@) =~= latest(s, limit as nat));
    Ok(out)
}

/// In the list of transactions no entry is older than one that follows it.
pub proof fn law_history_latest_first(s: Seq<HistoryView>, limit: nat, i: int, j: int)
    requires
        0 <= i < j < latest(s, limit).len(),
    ensures
        latest(s, limit)[i].timestamp >= latest(s, limit)[j].timestamp,
        latest(s, limit).len() <= limit,
{
    order::law_order_sorts(times(s), s.len());
    let o = order::order_of(times(s));
    assert(times(s)[o[i]] == s[o[i]].timestamp as u64);
    assert(times(s)[o[j]] == s[o[j]].timestamp as u64);
}

/// What an output counts for its transaction: its value where it came from
/// elsewhere and is unspent, and where the wallet paid it to itself and it is
/// spent; the same below nothing otherwise.
pub proof fn law_contribution_signs(value: nat)
    requires
        value <= i64::MAX,
    ensures
        contribution(value, false, false) == Some(value as int),
        contribution(value, false, true) == Some(-value),
        contribution(value, true, false) == Some(-value),
        contribution(value, true, true) == Some(value as int),
{
}

proof fn lemma_history_names(
    db: store::Db,
    current: usize,
    nets: Nets,
    skip_zero: bool,
    n: nat,
    k: int,
)
    requires
        n <= nets.len(),
        history_upto(db, current, nets, skip_zero, n) is Ok,
        0 <= k < n,
        !skip_zero || nets[k].1 != 0,
    ensures
        exists|i: int|
            0 <= i < history_upto(db, current, nets, skip_zero, n)->Ok_0.len()
                && #[trigger] history_upto(db, current, nets, skip_zero, n)->Ok_0[i]
                == history_entry(db, current, nets[k])->Ok_0,
        history_entry(db, current, nets[k]) is Ok,
    decreases n,
{
    let m = (n - 1) as nat;
    let s = history_upto(db, current, nets, skip_zero, m)->Ok_0;
    let t = history_upto(db, current, nets, skip_zero, n)->Ok_0;
    if k < m {
        lemma_history_names(db, current, nets, skip_zero, m, k);
        let i = choose|i: int|
            0 <= i < s.len() && #[trigger] s[i] == history_entry(db, current, nets[k])->Ok_0;
        assert(t[i] == s[i]);
    } else {
        assert(t[t.len() - 1] == history_entry(db, current, nets[k])->Ok_0);
    }
}

/// Every transaction is in the history, those that came to nothing only where
/// these are not left out: with its amount, the time of its block, how many
/// blocks confirm it, its own among them, and as received where it came to more
/// than nothing.
pub proof fn law_history_names_all(
    db: store::Db,
    current: usize,
    nets: Nets,
    skip_zero: bool,
    k: int,
    h: u64,
) -> (i: int)
    requires
        history_upto(db, current, nets, skip_zero, nets.len()) is Ok,
        0 <= k < nets.len(),
        !skip_zero || nets[k].1 != 0,
        i64::MIN <= nets[k].1 <= i64::MAX,
        index::height_of(db, nets[k].0) == Ok::<u64, Fault>(h),
        h <= current < usize::MAX,
    ensures
        ({
            let s = history_upto(db, current, nets, skip_zero, nets.len())->Ok_0;
            &&& 0 <= i < s.len()
            &&& s[i].txid == text::hex_text(nets[k].0)
            &&& s[i].net_amount == nets[k].1
            &&& s[i].confirmations == current - h + 1
            &&& s[i].is_receive == (nets[k].1 > 0)
            &&& index::block_time(db, h) is Some ==> s[i].timestamp == index::block_time(db, h)->0
        }),
{
    lemma_history_names(db, current, nets, skip_zero, nets.len(), k);
    let s = history_upto(db, current, nets, skip_zero, nets.len())->Ok_0;
    choose|i: int|
        0 <= i < s.len() && #[trigger] s[i] == history_entry(db, current, nets[k])->Ok_0
}

} // verus!
