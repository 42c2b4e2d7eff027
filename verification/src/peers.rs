//! The peers of a node: who is connected from where, who is banned, and who
//! may connect.
use crate::bytes::{append_bytes, copy_bytes, same_bytes, to_be};
use crate::store;
use crate::store::{put_op, Cf, Op};
use vstd::prelude::*;

verus! {

/// How many connections the base address of a subnet may have.
pub const MAX_PEERS_PER_SUBNET: usize = 2;

/// How long a peer is banned, in milliseconds.
pub const BAN_MS: u128 = 259_200_000;

/// How long a peer is banned, in seconds.
pub const BAN_SECS: u64 = 259_200;

/// The reputation at which a peer is banned.
pub const BAN_REPUTATION: i8 = -50;

/// What a fault costs a peer of its reputation.
pub const FAULT_COST: i8 = 10;

/// The score that a peer starts with.
pub const INITIAL_SCORE: i32 = 100;

// ---------------------------------------------------------------------------
// Network addresses
// ---------------------------------------------------------------------------

/// The network address of a host.
#[derive(Debug, Clone, Copy, PartialEq, Eq)]
pub enum Ip {
    /// Of version 4.
    V4([u8; 4]),
    /// Of version 6.
    V6([u8; 16]),
}

impl View for Ip {
    type V = Seq<u8>;

    open spec fn view(&self) -> Seq<u8> {
        match self {
            Ip::V4(a) => a@,
            Ip::V6(a) => a@,
        }
    }
}

/// The base address of the subnet of an address: the last byte of an address
/// of version 4, and the last two of one of version 6, are zero.
pub open spec fn subnet_of(ip: Seq<u8>) -> Seq<u8> {
    if ip.len() == 4 {
        ip.update(3, 0)
    } else {
        ip.update(14, 0).update(15, 0)
    }
}

impl Ip {
    /// Whether two addresses are the same.
    pub fn same(&self, other: &Ip) -> (r: bool)
        ensures
            r == (self@ == other@),
    {
        match (self, other) {
            (Ip::V4(a), Ip::V4(b)) => same_bytes(a.as_slice(), b.as_slice()),
            (Ip::V6(a), Ip::V6(b)) => same_bytes(a.as_slice(), b.as_slice()),
            _ => {
                assert(self@.len() != other@.len());
                false
            },
        }
    }

    /// The base address of the subnet.
    pub fn subnet(&self) -> (r: Ip)
        ensures
            r@ == subnet_of(self@),
    {
        match self {
            Ip::V4(a) => {
                let mut b = *a;
                b[3] = 0;
                assert(b@ =~= subnet_of(a@));
                Ip::V4(b)
            },
            Ip::V6(a) => {
                let mut b = *a;
                b[14] = 0;
                b[15] = 0;
                assert(b@ =~= subnet_of(a@));
                Ip::V6(b)
            },
        }
    }
}

// ---------------------------------------------------------------------------
// Maps by network address
// ---------------------------------------------------------------------------

/// Values by network address.
pub struct IpMap<V> {
    entries: Vec<(Ip, V)>,
}

/// The addresses of a list of entries.
pub open spec fn ips<V>(s: Seq<(Ip, V)>) -> Seq<Seq<u8>> {
    s.map_values(|e: (Ip, V)| e.0@)
}

/// The map that a list of entries stands for.
pub open spec fn entry_map<V>(s: Seq<(Ip, V)>) -> Map<Seq<u8>, V> {
    Map::new(
        |k: Seq<u8>| ips(s).contains(k),
        |k: Seq<u8>| s[ips(s).index_of(k)].1,
    )
}

/// A list of entries without an address that occurs twice gives each address
/// its value.
proof fn lemma_entry_map<V>(s: Seq<(Ip, V)>)
    requires
        ips(s).no_duplicates(),
    ensures
        entry_map(s).dom().finite(),
        entry_map(s).dom().len() == s.len(),
        forall|i: int|
            0 <= i < s.len() ==> entry_map(s).dom().contains(#[trigger] s[i].0@) && entry_map(
                s,
            )[s[i].0@] == s[i].1,
        forall|k: Seq<u8>|
            entry_map(s).dom().contains(k) ==> exists|i: int|
                0 <= i < s.len() && #[trigger] s[i].0@ == k,
{
    let keys = ips(s);
    keys.unique_seq_to_set();
    assert(entry_map(s).dom() =~= keys.to_set());
    assert forall|i: int| 0 <= i < s.len() implies entry_map(s).dom().contains(
        #[trigger] s[i].0@,
    ) && entry_map(s)[s[i].0@] == s[i].1 by {
        assert(keys[i] == s[i].0@);
        assert(keys.contains(s[i].0@));
        let j = keys.index_of(s[i].0@);
        assert(keys[j] == keys[i]);
    }
    assert forall|k: Seq<u8>| entry_map(s).dom().contains(k) implies exists|i: int|
        0 <= i < s.len() && #[trigger] s[i].0@ == k by {
        let j = keys.index_of(k);
        assert(s[j].0@ == k);
    }
}

impl<V> View for IpMap<V> {
    type V = Map<Seq<u8>, V>;

    closed spec fn view(&self) -> Map<Seq<u8>, V> {
        entry_map(self.entries@)
    }
}

impl<V> IpMap<V> {
    /// Whether no address occurs twice.
    pub closed spec fn wf(&self) -> bool {
        ips(self.entries@).no_duplicates()
    }

    /// A map without entries.
    pub fn new() -> (r: Self)
        ensures
            r.wf(),
            r@ == Map::<Seq<u8>, V>::empty(),
    {
        let r = IpMap { entries: Vec::new() };
        assert(r@ =~= Map::<Seq<u8>, V>::empty());
        r
    }

    /// The number of addresses.
    pub fn len(&self) -> (r: usize)
        requires
            self.wf(),
        ensures
            self@.dom().finite(),
            r == self@.dom().len(),
    {
        proof {
            lemma_entry_map(self.entries@);
        }
        self.entries.len()
    }

    fn find(&self, ip: &Ip) -> (r: Option<usize>)
        ensures
            match r {
                Some(i) => i < self.entries@.len() && self.entries@[i as int].0@ == ip@,
                None => !ips(self.entries@).contains(ip@),
            },
    {
        let mut i: usize = 0;
        while i < self.entries.len()
            invariant
                i <= self.entries@.len(),
                forall|j: int| 0 <= j < i ==> (#[trigger] self.entries@[j]).0@ != ip@,
            decreases self.entries@.len() - i,
        {
            if self.entries[i].0.same(ip) {
                return Some(i);
            }
            i += 1;
        }
        proof {
            if ips(self.entries@).contains(ip@) {
                let j = ips(self.entries@).index_of(ip@);
                assert(self.entries@[j].0@ == ip@);
            }
        }
        None
    }

    /// The value of an address.
    pub fn get(&self, ip: &Ip) -> (r: Option<&V>)
        requires
            self.wf(),
        ensures
            match r {
                Some(v) => self@.dom().contains(ip@) && *v == self@[ip@],
                None => !self@.dom().contains(ip@),
            },
    {
        proof {
            lemma_entry_map(self.entries@);
        }
        match self.find(ip) {
            Some(i) => Some(&self.entries[i].1),
            None => None,
        }
    }

    /// Takes out an address with its value.
    pub fn take(&mut self, ip: &Ip) -> (r: Option<V>)
        requires
            old(self).wf(),
        ensures
            final(self).wf(),
            final(self)@ == old(self)@.remove(ip@),
            match r {
                Some(v) => old(self)@.dom().contains(ip@) && v == old(self)@[ip@],
                None => !old(self)@.dom().contains(ip@),
            },
    {
        let ghost before = self.entries@;
        match self.find(ip) {
            Some(i) => {
                let (_, v) = self.entries.remove(i);
                proof {
                    let after = self.entries@;
                    lemma_entry_map(before);
                    assert forall|a: int, b: int|
                        0 <= a < after.len() && 0 <= b < after.len() && a != b implies ips(
                        after,
                    )[a] != ips(after)[b] by {
                        let x = if a < i {
                            a
                        } else {
                            a + 1
                        };
                        let y = if b < i {
                            b
                        } else {
                            b + 1
                        };
                        assert(ips(after)[a] == ips(before)[x]);
                        assert(ips(after)[b] == ips(before)[y]);
                    }
                    lemma_entry_map(after);
                    assert forall|k: Seq<u8>|
                        #![trigger entry_map(after).dom().contains(k)]
                        #![trigger entry_map(after)[k]]
                        entry_map(after).dom().contains(k) == entry_map(before).remove(
                            ip@,
                        ).dom().contains(k) && (entry_map(after).dom().contains(k)
                            ==> entry_map(after)[k] == entry_map(before).remove(ip@)[k]) by {
                        if entry_map(after).dom().contains(k) {
                            let a = choose|a: int| 0 <= a < after.len() && #[trigger] after[a].0@ == k;
                            let x = if a < i {
                                a
                            } else {
                                a + 1
                            };
                            assert(after[a] == before[x]);
                            assert(before[x].0@ == k);
                            assert(ips(before)[x] == k);
                            assert(ips(before)[i as int] == ip@);
                        }
                        if entry_map(before).remove(ip@).dom().contains(k) {
                            let x = choose|x: int|
                                0 <= x < before.len() && #[trigger] before[x].0@ == k;
                            assert(x != i);
                            let a = if x < i {
                                x
                            } else {
                                x - 1
                            };
                            assert(after[a] == before[x]);
                            assert(after[a].0@ == k);
                        }
                    }
                    assert(entry_map(after) =~= entry_map(before).remove(ip@));
                }
                Some(v)
            },
            None => {
                assert(entry_map(before) =~= entry_map(before).remove(ip@));
                None
            },
        }
    }

    /// Gives an address a value.
    pub fn insert(&mut self, ip: Ip, v: V)
        requires
            old(self).wf(),
        ensures
            final(self).wf(),
            final(self)@ == old(self)@.insert(ip@, v),
    {
        let ghost m = self@;
        let _ = self.take(&ip);
        let ghost before = self.entries@;
        self.entries.push((ip, v));
        proof {
            let after = self.entries@;
            lemma_entry_map(before);
            assert(after.drop_last() =~= before);
            assert(ips(after).drop_last() =~= ips(before));
            assert forall|a: int, b: int|
                0 <= a < after.len() && 0 <= b < after.len() && a != b implies ips(after)[a]
                != ips(after)[b] by {
                assert(!entry_map(before).dom().contains(ip@));
                if a < before.len() {
                    assert(ips(after)[a] == ips(before)[a]);
                    assert(before[a].0@ == ips(before)[a]);
                }
                if b < before.len() {
                    assert(ips(after)[b] == ips(before)[b]);
                    assert(before[b].0@ == ips(before)[b]);
                }
            }
            lemma_entry_map(after);
            assert forall|k: Seq<u8>|
                #![trigger entry_map(after).dom().contains(k)]
                #![trigger entry_map(after)[k]]
                entry_map(after).dom().contains(k) == m.insert(ip@, v).dom().contains(k) && (
                entry_map(after).dom().contains(k) ==> entry_map(after)[k] == m.insert(
                    ip@,
                    v,
                )[k]) by {
                if entry_map(after).dom().contains(k) {
                    let a = choose|a: int| 0 <= a < after.len() && #[trigger] after[a].0@ == k;
                    if a < before.len() {
                        assert(after[a] == before[a]);
                        assert(before[a].0@ == k);
                    }
                }
                if m.insert(ip@, v).dom().contains(k) {
                    if k == ip@ {
                        assert(after[after.len() - 1].0@ == k);
                    } else {
                        assert(entry_map(before).dom().contains(k));
                        let x = choose|x: int| 0 <= x < before.len() && #[trigger] before[x].0@ == k;
                        assert(after[x] == before[x]);
                        assert(after[x].0@ == k);
                    }
                }
            }
            assert(entry_map(after) =~= m.insert(ip@, v));
        }
    }
}

// ---------------------------------------------------------------------------
// Bans
// ---------------------------------------------------------------------------

/// Until when an address is banned, in milliseconds.
pub struct BanList {
    until: IpMap<u128>,
}

/// What is left of a list of bans when those that are over are dropped.
pub open spec fn still_banned(bans: Map<Seq<u8>, u128>, now: u128) -> Map<Seq<u8>, u128> {
    Map::new(|k: Seq<u8>| bans.dom().contains(k) && now < bans[k], |k: Seq<u8>| bans[k])
}

impl View for BanList {
    type V = Map<Seq<u8>, u128>;

    closed spec fn view(&self) -> Map<Seq<u8>, u128> {
        self.until@
    }
}

impl BanList {
    /// Whether no address occurs twice.
    pub closed spec fn wf(&self) -> bool {
        self.until.wf()
    }

    /// Nobody is banned.
    pub fn new() -> (r: Self)
        ensures
            r.wf(),
            r@ == Map::<Seq<u8>, u128>::empty(),
    {
        BanList { until: IpMap::new() }
    }

    /// Drops the bans that are over.
    pub fn drop_expired(&mut self, now: u128)
        requires
            old(self).wf(),
        ensures
            final(self).wf(),
            final(self)@ == still_banned(old(self)@, now),
    {
        let ghost all = self.until.entries@;
        let mut left: IpMap<u128> = IpMap::new();
        let mut i: usize = 0;
        proof {
            lemma_entry_map(all);
            assert(still_banned(entry_map(all.take(0)), now) =~= Map::<Seq<u8>, u128>::empty());
        }
        while i < self.until.entries.len()
            invariant
                i <= all.len(),
                all == self.until.entries@,
                ips(all).no_duplicates(),
                left.wf(),
                left@ == still_banned(entry_map(all.take(i as int)), now),
            decreases all.len() - i,
        {
            let ip = self.until.entries[i].0;
            let until: u128 = self.until.entries[i].1;
            proof {
                lemma_entry_step(all, i as int);
            }
            if now < until {
                left.insert(ip, until);
            }
            proof {
                assert(left@ =~= still_banned(entry_map(all.take(i + 1)), now));
            }
            i += 1;
        }
        assert(all.take(all.len() as int) =~= all);
        self.until = left;
    }

    /// Whether an address is banned.
    pub fn contains(&self, ip: &Ip) -> (r: bool)
        requires
            self.wf(),
        ensures
            r == self@.dom().contains(ip@),
    {
        self.until.get(ip).is_some()
    }

    /// Bans an address.
    pub fn insert(&mut self, ip: Ip, until: u128)
        requires
            old(self).wf(),
        ensures
            final(self).wf(),
            final(self)@ == old(self)@.insert(ip@, until),
    {
        self.until.insert(ip, until);
    }
}

/// One entry more of a list gives one more address its value.
proof fn lemma_entry_step<V>(s: Seq<(Ip, V)>, i: int)
    requires
        ips(s).no_duplicates(),
        0 <= i < s.len(),
    ensures
        !entry_map(s.take(i)).dom().contains(s[i].0@),
        entry_map(s.take(i + 1)) == entry_map(s.take(i)).insert(s[i].0@, s[i].1),
{
    let a = s.take(i);
    let b = s.take(i + 1);
    assert(ips(a) =~= ips(s).take(i));
    assert(ips(b) =~= ips(s).take(i + 1));
    lemma_entry_map(a);
    lemma_entry_map(b);
    if entry_map(a).dom().contains(s[i].0@) {
        let j = choose|j: int| 0 <= j < a.len() && #[trigger] a[j].0@ == s[i].0@;
        assert(ips(s)[j] == ips(s)[i]);
    }
    let want = entry_map(a).insert(s[i].0@, s[i].1);
    assert forall|k: Seq<u8>|
        #![trigger entry_map(b).dom().contains(k)]
        #![trigger entry_map(b)[k]]
        entry_map(b).dom().contains(k) == want.dom().contains(k) && (entry_map(
            b,
        ).dom().contains(k) ==> entry_map(b)[k] == want[k]) by {
        if entry_map(b).dom().contains(k) {
            let j = choose|j: int| 0 <= j < b.len() && #[trigger] b[j].0@ == k;
            if j < i {
                assert(a[j] == b[j]);
                assert(a[j].0@ == k);
            }
        }
        if want.dom().contains(k) {
            if k == s[i].0@ {
                assert(b[i].0@ == k);
            } else {
                let j = choose|j: int| 0 <= j < a.len() && #[trigger] a[j].0@ == k;
                assert(b[j].0@ == k);
            }
        }
    }
    assert(entry_map(b) =~= want);
}

/// The record of a ban: its key names the address, its value says until when
/// the ban lasts, in seconds, the most significant byte first.
pub open spec fn ban_record(ip: Seq<char>, now_secs: u64) -> store::OpView {
    store::put(
        Cf::Default,
        vstd::utf8::encode_utf8("ban:"@) + vstd::utf8::encode_utf8(ip),
        crate::bytes::be_bytes((now_secs + BAN_SECS) as nat, 8),
    )
}

/// The record of a ban of an address, given the address as text.
pub fn make_ban_record(ip: &str, now_secs: u64) -> (r: Op)
    requires
        now_secs + BAN_SECS <= u64::MAX,
    ensures
        r@ == ban_record(ip@, now_secs),
{
    let mut key = copy_bytes("ban:".as_bytes());
    append_bytes(&mut key, ip.as_bytes());
    let value = to_be((now_secs + BAN_SECS) as u128, 8);
    put_op(Cf::Default, key.as_slice(), value.as_slice())
}

// ---------------------------------------------------------------------------
// A peer
// ---------------------------------------------------------------------------

/// What a node knows of a peer.
#[derive(Debug, Clone, Copy, PartialEq, Eq)]
pub struct Peer {
    /// How the peer has behaved.
    pub reputation: i8,
    /// The version of the protocol that it speaks.
    pub version: u32,
    /// The height that it has told.
    pub height: usize,
    /// Its name.
    pub peer_id: [u8; 32],
    /// What is left of its score.
    pub score: i32,
}

impl Peer {
    /// A peer that has done nothing yet.
    pub fn new(peer_id: [u8; 32]) -> (r: Self)
        ensures
            r == (Peer { reputation: 0, version: 0, height: 0, peer_id, score: INITIAL_SCORE }),
    {
        Peer { reputation: 0, version: 0, height: 0, peer_id, score: INITIAL_SCORE }
    }

    /// Takes a cost off the score, and says whether the peer is to be banned:
    /// it is where nothing was left before.
    pub fn penalize(&mut self, cost: i32) -> (r: bool)
        ensures
            r == (old(self).score <= 0),
            *final(self) == (Peer { score: old(self).score.wrapping_sub(cost), ..*old(self) }),
    {
        let before: i32 = self.score;
        self.score = before.wrapping_sub(cost);
        before <= 0
    }

    /// Takes the cost of a fault off the reputation, and says whether the peer
    /// is to be banned.
    pub fn decrease_reputation(&mut self) -> (r: bool)
        requires
            old(self).reputation - FAULT_COST >= i8::MIN,
        ensures
            *final(self) == (Peer {
                reputation: (old(self).reputation - FAULT_COST) as i8,
                ..*old(self)
            }),
            r == (final(self).reputation <= BAN_REPUTATION),
    {
        self.reputation = self.reputation - FAULT_COST;
        self.reputation <= BAN_REPUTATION
    }
}

/// The reputation of a peer that has committed a number of faults.
pub open spec fn reputation_after(faults: nat) -> int {
    -(FAULT_COST * faults)
}

/// A peer is banned at its fifth fault, and not before.
pub proof fn law_banned_at_fifth_fault(faults: nat)
    ensures
        (reputation_after(faults) <= BAN_REPUTATION) == (faults >= 5),
        reputation_after(0) == 0,
        reputation_after(faults + 1) == reputation_after(faults) - FAULT_COST,
{
}

// ---------------------------------------------------------------------------
// Connections
// ---------------------------------------------------------------------------

/// The connections of a node by network address. A connection is named by a
/// number.
pub struct PeerTable {
    at: IpMap<Vec<u64>>,
}

/// Whether, and why not, a peer may connect.
#[derive(Debug, Clone, Copy, PartialEq, Eq, Structural)]
pub enum Admission {
    /// It may.
    Accepted,
    /// It is banned.
    Banned,
    /// There are too many connections, from its address or in all.
    Full,
    /// There are too many connections from the base address of its subnet.
    Crowded,
}

/// How many connections an address has.
pub open spec fn conns(table: Map<Seq<u8>, Seq<u64>>, ip: Seq<u8>) -> nat {
    if table.dom().contains(ip) {
        table[ip].len()
    } else {
        0
    }
}

/// Whether, and why not, a peer may connect.
pub open spec fn admission(
    table: Map<Seq<u8>, Seq<u64>>,
    banned: bool,
    ip: Seq<u8>,
    max_peers: usize,
) -> Admission {
    if banned {
        Admission::Banned
    } else if conns(table, ip) >= max_peers / 10 || table.dom().len() >= max_peers {
        Admission::Full
    } else if conns(table, subnet_of(ip)) >= MAX_PEERS_PER_SUBNET {
        Admission::Crowded
    } else {
        Admission::Accepted
    }
}

/// A list of connections without one of them.
pub open spec fn without(handles: Seq<u64>, handle: u64) -> Seq<u64> {
    handles.filter(|h: u64| h != handle)
}

/// The connections after one from an address is gone: an address without
/// connections is gone with it.
pub open spec fn disconnected(
    table: Map<Seq<u8>, Seq<u64>>,
    ip: Seq<u8>,
    handle: u64,
) -> Map<Seq<u8>, Seq<u64>> {
    if !table.dom().contains(ip) {
        table
    } else if without(table[ip], handle).len() == 0 {
        table.remove(ip)
    } else {
        table.insert(ip, without(table[ip], handle))
    }
}

/// The connections after a new one from an address.
pub open spec fn connected(
    table: Map<Seq<u8>, Seq<u64>>,
    ip: Seq<u8>,
    handle: u64,
) -> Map<Seq<u8>, Seq<u64>> {
    table.insert(
        ip,
        (if table.dom().contains(ip) {
            table[ip]
        } else {
            Seq::empty()
        }).push(handle),
    )
}

impl View for PeerTable {
    type V = Map<Seq<u8>, Seq<u64>>;

    closed spec fn view(&self) -> Map<Seq<u8>, Seq<u64>> {
        self.at@.map_values(|v: Vec<u64>| v@)
    }
}

impl PeerTable {
    /// Whether no address occurs twice.
    pub closed spec fn wf(&self) -> bool {
        self.at.wf()
    }

    /// No connection.
    pub fn new() -> (r: Self)
        ensures
            r.wf(),
            r@ == Map::<Seq<u8>, Seq<u64>>::empty(),
    {
        let r = PeerTable { at: IpMap::new() };
        assert(r@ =~= Map::<Seq<u8>, Seq<u64>>::empty());
        r
    }

    /// The number of addresses that have connections.
    pub fn len(&self) -> (r: usize)
        requires
            self.wf(),
        ensures
            self@.dom().finite(),
            r == self@.dom().len(),
    {
        assert(self@.dom() =~= self.at@.dom());
        self.at.len()
    }

    /// The number of connections that an address has.
    pub fn count(&self, ip: &Ip) -> (r: usize)
        requires
            self.wf(),
        ensures
            r == conns(self@, ip@),
    {
        match self.at.get(ip) {
            Some(v) => v.len(),
            None => 0,
        }
    }

    /// Whether, and why not, a peer may connect.
    pub fn judge(&self, banned: bool, ip: &Ip, max_peers: usize) -> (r: Admission)
        requires
            self.wf(),
        ensures
            r == admission(self@, banned, ip@, max_peers),
    {
        if banned {
            return Admission::Banned;
        }
        if self.count(ip) >= max_peers / 10 || self.len() >= max_peers {
            return Admission::Full;
        }
        let subnet = ip.subnet();
        if self.count(&subnet) >= MAX_PEERS_PER_SUBNET {
            return Admission::Crowded;
        }
        Admission::Accepted
    }

    /// A new connection from an address.
    pub fn add_connection(&mut self, ip: Ip, handle: u64)
        requires
            old(self).wf(),
        ensures
            final(self).wf(),
            final(self)@ == connected(old(self)@, ip@, handle),
    {
        let ghost before = self@;
        let mut handles: Vec<u64> = match self.at.take(&ip) {
            Some(v) => v,
            None => Vec::new(),
        };
        handles.push(handle);
        self.at.insert(ip, handles);
        assert(self@ =~= connected(before, ip@, handle));
    }

    /// A connection from an address is gone.
    pub fn remove_peer(&mut self, ip: &Ip, handle: u64)
        requires
            old(self).wf(),
        ensures
            final(self).wf(),
            final(self)@ == disconnected(old(self)@, ip@, handle),
    {
        let ghost before = self@;
        match self.at.take(ip) {
            Some(v) => {
                let mut left: Vec<u64> = Vec::new();
                let mut i: usize = 0;
                assert(v@.take(0) =~= Seq::<u64>::empty());
                reveal(Seq::filter);
                while i < v.len()
                    invariant
                        i <= v@.len(),
                        left@ == without(v@.take(i as int), handle),
                    decreases v@.len() - i,
                {
                    proof {
                        reveal(Seq::filter);
                        assert(v@.take(i + 1).drop_last() =~= v@.take(i as int));
                    }
                    if v[i] != handle {
                        left.push(v[i]);
                    }
                    i += 1;
                }
                assert(v@.take(v@.len() as int) =~= v@);
                if left.len() > 0 {
                    self.at.insert(*ip, left);
                }
                assert(self@ =~= disconnected(before, ip@, handle));
            },
            None => {
                assert(self@ =~= before);
            },
        }
    }

    /// All connections from an address are gone.
    pub fn remove_peers(&mut self, ip: &Ip)
        requires
            old(self).wf(),
        ensures
            final(self).wf(),
            final(self)@ == old(self)@.remove(ip@),
    {
        let ghost before = self@;
        let _ = self.at.take(ip);
        assert(self@ =~= before.remove(ip@));
    }
}

/// Where a peer was accepted, its address has no more than a tenth of the
/// connections that are allowed, and the node no more addresses than allowed.
pub proof fn law_admission_bounds(
    table: Map<Seq<u8>, Seq<u64>>,
    banned: bool,
    ip: Seq<u8>,
    handle: u64,
    max_peers: usize,
)
    requires
        table.dom().finite(),
        admission(table, banned, ip, max_peers) == Admission::Accepted,
    ensures
        !banned,
        conns(connected(table, ip, handle), ip) <= max_peers / 10,
        connected(table, ip, handle).dom().len() <= max_peers,
{
    assert(connected(table, ip, handle).dom() =~= table.dom().insert(ip));
}

/// A connection that comes and goes leaves nothing behind, if no other
/// connection of its address has its number.
pub proof fn law_disconnect_undoes_connect(
    table: Map<Seq<u8>, Seq<u64>>,
    ip: Seq<u8>,
    handle: u64,
)
    requires
        table.dom().contains(ip) ==> table[ip].len() > 0 && !table[ip].contains(handle),
    ensures
        disconnected(connected(table, ip, handle), ip, handle) == table,
{
    let handles = if table.dom().contains(ip) {
        table[ip]
    } else {
        Seq::empty()
    };
    lemma_without_absent(handles, handle);
    reveal(Seq::filter);
    assert(handles.push(handle).drop_last() =~= handles);
    assert(without(handles.push(handle), handle) == handles);
    assert(disconnected(connected(table, ip, handle), ip, handle) =~= table);
}

proof fn lemma_without_absent(handles: Seq<u64>, handle: u64)
    requires
        !handles.contains(handle),
    ensures
        without(handles, handle) == handles,
    decreases handles.len(),
{
    reveal(Seq::filter);
    if handles.len() > 0 {
        let rest = handles.drop_last();
        assert forall|i: int| 0 <= i < rest.len() implies rest[i] != handle by {
            assert(handles[i] == rest[i]);
        }
        lemma_without_absent(rest, handle);
        assert(handles[handles.len() - 1] != handle);
        assert(rest.push(handles.last()) =~= handles);
    }
}

/// A peer may connect exactly where it is not banned, its address has less than
/// a tenth of the connections that are allowed, there are fewer addresses than
/// allowed, and fewer than two connections come from the base address of its
/// subnet.
pub proof fn law_admission_decided(
    table: Map<Seq<u8>, Seq<u64>>,
    banned: bool,
    ip: Seq<u8>,
    max_peers: usize,
)
    ensures
        ({
            let base = subnet_of(ip);
            let own: nat = if table.dom().contains(ip) {
                table[ip].len()
            } else {
                0
            };
            let near: nat = if table.dom().contains(base) {
                table[base].len()
            } else {
                0
            };
            let room = own < max_peers / 10 && table.dom().len() < max_peers;
            let r = admission(table, banned, ip, max_peers);
            &&& r == Admission::Banned <==> banned
            &&& r == Admission::Full <==> !banned && !room
            &&& r == Admission::Crowded <==> !banned && room && near >= 2
            &&& r == Admission::Accepted <==> !banned && room && near < 2
        }),
{
}

/// Addresses of version 4 are in one subnet exactly where they agree in all
/// but the last byte, those of version 6 where they agree in all but the last
/// two; and the base address is in the subnet itself.
pub proof fn law_same_subnet(a: Seq<u8>, b: Seq<u8>)
    requires
        a.len() == b.len(),
        a.len() == 4 || a.len() == 16,
    ensures
        a.len() == 4 ==> (subnet_of(a) == subnet_of(b) <==> a.take(3) == b.take(3)),
        a.len() == 16 ==> (subnet_of(a) == subnet_of(b) <==> a.take(14) == b.take(14)),
        subnet_of(subnet_of(a)) == subnet_of(a),
        subnet_of(a).len() == a.len(),
        subnet_of(a).last() == 0,
{
    let n: int = if a.len() == 4 {
        3
    } else {
        14
    };
    let x = subnet_of(a);
    let y = subnet_of(b);
    assert(x.take(n) =~= a.take(n));
    assert(y.take(n) =~= b.take(n));
    assert(subnet_of(x) =~= x);
    if a.take(n) == b.take(n) {
        assert forall|i: int| 0 <= i < a.len() implies x[i] == y[i] by {
            if i < n {
                assert(a.take(n)[i] == b.take(n)[i]);
            }
        }
        assert(x =~= y);
    }
}

/// Every fault costs a peer 10 of its reputation, and at -50 it is banned.
pub proof fn law_fault_costs(faults: nat)
    ensures
        reputation_after(faults) == -10 * faults,
        reputation_after(faults) <= BAN_REPUTATION <==> reputation_after(faults) <= -50,
        BAN_MS == 3 * 24 * 60 * 60 * 1000,
        BAN_SECS == 3 * 24 * 60 * 60,
{
}

} // verus!
