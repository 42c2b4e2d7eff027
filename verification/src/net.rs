//! The peer manager: handshakes, floods, bans, known addresses, and what is done
//! when a message comes.
use crate::bytes;
use crate::bytes::{append_bytes, copy_bytes, read32, same32, to_le};
use crate::codec;
use crate::errors::{other, ChainError, Fault};
use crate::identity;
use crate::identity::{
    check_node_key, check_node_signature, verify_node_signature, NodeKeypair,
};
use crate::ledger;
use crate::ledger::load_block_by_height;
use crate::mempool;
use crate::mempool::Mempool;
use crate::peer_maps;
use crate::peer_maps::{
    cache_get, cache_new, counts_get, counts_new, counts_put, CountMap, KeyCache,
};
use crate::peers;
use crate::peers::{Admission, BanList, Ip, Peer, PeerTable, BAN_MS};
use crate::pool_maps;
use crate::state::IdMap;
use crate::store;
use crate::store::Snapshot;
use crate::tx;
use crate::tx::{Block, BlockHeader};
use crate::wire;
use crate::wire::{
    addr_message, block_message, copy_texts, inv_message, parse_message, pong_message, read_u32,
    tx_message, Message, MessageError, MSG_INV_BLOCK, MSG_INV_TX,
};
use vstd::prelude::*;

verus! {

/// The version of the protocol.
pub const VERSION: u32 = 1;

/// How long a key that was seen is accepted without a new signature, in
/// milliseconds.
pub const SIGNATURE_CACHE_TTL_MS: u128 = 3_600_000;

/// How many inventories a peer may send.
pub const MAX_PENDING_INV: usize = 1000;

/// The length of a handshake.
pub const HANDSHAKE_LEN: usize = 160;

/// How many bytes a node waits for when a peer greets it. They are more than a
/// handshake has, so what is read this way is always refused.
pub const HANDSHAKE_READ_LEN: usize = 164;

// ---------------------------------------------------------------------------
// Handshakes
// ---------------------------------------------------------------------------

/// What a node says of itself: the version, its first block, its clock in
/// seconds, and a number.
pub open spec fn handshake_body(genesis: Seq<u8>, timestamp: u128, nonce: Seq<u8>) -> Seq<u8> {
    codec::enc_u32(VERSION) + genesis + bytes::le_bytes(timestamp as nat, 16) + nonce
}

/// Why a handshake is refused. Its key and its signature are looked at first.
/// Then the number that the peer says is wiped before it is looked at, and a
/// number of zeros is refused: none is accepted, whatever version, first block
/// and clock it tells.
pub open spec fn handshake_fault(h: Seq<u8>) -> Fault {
    if !identity::is_node_key(h.subrange(64, 96)) {
        Fault::Other("Invalid public key"@)
    } else if h[159] >= 32 {
        Fault::Other("Invalid signature"@)
    } else if !identity::node_signature_holds(
        h.subrange(64, 96),
        h.take(96),
        h.subrange(96, 160),
    ) {
        Fault::Other("Signature verification failed"@)
    } else {
        Fault::InvalidHandshake
    }
}

/// What a node sends to greet a peer: what it says of itself, its public key,
/// and its signature of both.
///
/// Nothing is wrong with its key and its signature.
pub fn make_handshake(
    keys: &NodeKeypair,
    genesis: &[u8; 32],
    timestamp: u128,
    nonce: &[u8; 12],
) -> (r: Vec<u8>)
    requires
        keys.wf(),
    ensures
        ({
            let public = identity::node_public_of(keys.secret());
            let said = handshake_body(genesis@, timestamp, nonce@) + public;
            &&& r@ == said + identity::node_signature_of(keys.secret(), said)
            &&& r@.len() == HANDSHAKE_LEN
            &&& handshake_fault(r@) == Fault::InvalidHandshake
        }),
{
    let mut msg = to_le(VERSION as u128, 4);
    append_bytes(&mut msg, genesis.as_slice());
    let time = to_le(timestamp, 16);
    append_bytes(&mut msg, time.as_slice());
    append_bytes(&mut msg, nonce.as_slice());
    let public = keys.public();
    append_bytes(&mut msg, public.as_slice());
    let ghost said = msg@;
    let signature = keys.sign(msg.as_slice());
    append_bytes(&mut msg, signature.as_slice());
    proof {
        let h = msg@;
        bytes::lemma_le_bytes_len(VERSION as nat, 4);
        bytes::lemma_le_bytes_len(timestamp as nat, 16);
        assert(said.len() == 96);
        assert(h.take(96) =~= said);
        assert(h.subrange(64, 96) =~= public@);
        assert(h.subrange(96, 160) =~= signature@);
        assert(h[159] == signature@[63]);
        keys.lemma_wf();
    }
    msg
}

/// Whether a key was accepted not long ago.
pub open spec fn seen(cache: Map<Seq<u8>, (Seq<u8>, u128)>, key: Seq<u8>, now: u128) -> bool {
    cache.dom().contains(key) && cache[key].0 == key && cache[key].1 <= now && now - cache[key].1
        < SIGNATURE_CACHE_TTL_MS
}

/// Why the handshake of a peer is refused; `None` where its key was accepted not
/// long ago.
pub open spec fn greeting_fault(
    cache: Map<Seq<u8>, (Seq<u8>, u128)>,
    h: Seq<u8>,
    now: u128,
) -> Option<Fault> {
    let key = h.subrange(64, 96);
    if h.len() != HANDSHAKE_LEN {
        Some(Fault::InvalidHandshake)
    } else if !identity::is_node_key(key) {
        Some(Fault::Other("Invalid public key"@))
    } else if seen(cache, key, now) {
        None
    } else {
        Some(handshake_fault(h))
    }
}

/// What a node reads of a greeting is refused, whatever it holds.
pub proof fn law_read_greeting_is_refused(
    cache: Map<Seq<u8>, (Seq<u8>, u128)>,
    h: Seq<u8>,
    now: u128,
)
    requires
        h.len() == HANDSHAKE_READ_LEN,
    ensures
        greeting_fault(cache, h, now) == Some(Fault::InvalidHandshake),
{
}

/// A node that has accepted no key refuses every greeting.
pub proof fn law_greetings_are_refused(h: Seq<u8>, now: u128)
    ensures
        greeting_fault(Map::empty(), h, now) is Some,
{
}

/// A signature of 64 bytes in a slice.
fn read64(s: &[u8], at: usize) -> (r: [u8; 64])
    requires
        at + 64 <= s@.len(),
    ensures
        r@ == s@.subrange(at as int, at + 64),
{
    let n = s.len();
    assert(at + 64 <= n);
    let mut r: [u8; 64] = [0; 64];
    let mut i: usize = 0;
    while i < 64
        invariant
            i <= 64,
            at + 64 <= s@.len(),
            at + 64 <= usize::MAX,
            forall|j: int| 0 <= j < i ==> #[trigger] r@[j] == s@[at + j],
        decreases 64 - i,
    {
        r[i] = s[at + i];
        i += 1;
    }
    assert(r@ =~= s@.subrange(at as int, at + 64));
    r
}

/// Looks at a handshake, and refuses it.
pub fn check_handshake(h: &[u8]) -> (r: Result<(), ChainError>)
    requires
        h@.len() == HANDSHAKE_LEN,
    ensures
        r is Err && r->Err_0@ == handshake_fault(h@),
{
    let key = read32(h, 64);
    if !check_node_key(&key) {
        return Err(other("Invalid public key"));
    }
    let signature = read64(h, 96);
    assert(signature@[63] == h@[159]);
    if !check_node_signature(&signature) {
        return Err(other("Invalid signature"));
    }
    let said = vstd::slice::slice_subrange(h, 0, 96);
    assert(said@ =~= h@.take(96));
    if !verify_node_signature(&key, said, &signature) {
        return Err(other("Signature verification failed"));
    }
    Err(ChainError::InvalidHandshake)
}

// ---------------------------------------------------------------------------
// The peer manager
// ---------------------------------------------------------------------------

/// What a node keeps of its peers.
pub struct PeerManager {
    peers: PeerTable,
    bans: BanList,
    bans_persistent: BanList,
    known_peers: Vec<String>,
    signature_cache: KeyCache,
    pending_inv: CountMap,
    node_keypair: NodeKeypair,
    max_peers: usize,
}

/// What a [`PeerManager`] says.
#[verifier::ext_equal]
pub struct ManagerView {
    pub peers: Map<Seq<u8>, Seq<u64>>,
    pub bans: Map<Seq<u8>, u128>,
    pub bans_persistent: Map<Seq<u8>, u128>,
    pub known_peers: Seq<Seq<char>>,
    pub seen: Map<Seq<u8>, (Seq<u8>, u128)>,
    pub pending_inv: Map<Seq<u8>, usize>,
    pub secret: Seq<u8>,
    pub max_peers: usize,
}

impl View for PeerManager {
    type V = ManagerView;

    closed spec fn view(&self) -> ManagerView {
        ManagerView {
            peers: self.peers@,
            bans: self.bans@,
            bans_persistent: self.bans_persistent@,
            known_peers: wire::strings(self.known_peers@),
            seen: peer_maps::cached_keys(self.signature_cache),
            pending_inv: peer_maps::counts(self.pending_inv),
            secret: self.node_keypair.secret(),
            max_peers: self.max_peers,
        }
    }
}

/// What comes of the bytes of a message.
pub enum Received {
    /// The peer has sent too many inventories.
    Flooded,
    /// A message.
    Message(Message),
    /// They are no message.
    Refused(MessageError),
}

/// What a [`Received`] says.
pub enum ReceivedView {
    Flooded,
    Message(wire::MessageView),
    Refused(wire::MessageFault),
}

impl View for Received {
    type V = ReceivedView;

    open spec fn view(&self) -> ReceivedView {
        match self {
            Received::Flooded => ReceivedView::Flooded,
            Received::Message(m) => ReceivedView::Message(m@),
            Received::Refused(e) => ReceivedView::Refused(e@),
        }
    }
}

/// Whether bytes are an inventory by their type.
pub open spec fn is_inv(data: Seq<u8>) -> bool {
    data.len() >= 4 && (wire::message_type(data) == MSG_INV_TX || wire::message_type(data)
        == MSG_INV_BLOCK)
}

/// How many inventories a peer has sent, after one more.
pub open spec fn inv_count(pending: Map<Seq<u8>, usize>, id: Seq<u8>) -> usize {
    if !pending.dom().contains(id) {
        1
    } else if pending[id] < usize::MAX {
        (pending[id] + 1) as usize
    } else {
        usize::MAX
    }
}

/// What comes of the bytes of a message.
pub open spec fn received(pending: Map<Seq<u8>, usize>, id: Seq<u8>, data: Seq<u8>) -> ReceivedView {
    if is_inv(data) && inv_count(pending, id) > MAX_PENDING_INV {
        ReceivedView::Flooded
    } else {
        match wire::message_of(data) {
            Ok(m) => ReceivedView::Message(m),
            Err(e) => ReceivedView::Refused(e),
        }
    }
}

/// The known addresses after some more were told: each that is new comes last.
pub open spec fn learned(known: Seq<Seq<char>>, told: Seq<Seq<char>>) -> Seq<Seq<char>>
    decreases told.len(),
{
    if told.len() == 0 {
        known
    } else {
        let before = learned(known, told.drop_last());
        if before.contains(told.last()) {
            before
        } else {
            before.push(told.last())
        }
    }
}

/// Whether a text is in a list.
fn holds_string(v: &Vec<String>, s: &String) -> (r: bool)
    ensures
        r == wire::strings(v@).contains(s@),
{
    let mut i: usize = 0;
    while i < v.len()
        invariant
            i <= v@.len(),
            forall|j: int| 0 <= j < i ==> (#[trigger] v@[j])@ != s@,
        decreases v@.len() - i,
    {
        if v[i] == *s {
            assert(wire::strings(v@)[i as int] == s@);
            return true;
        }
        i += 1;
    }
    proof {
        if wire::strings(v@).contains(s@) {
            let j = wire::strings(v@).index_of(s@);
            assert(v@[j]@ == s@);
        }
    }
    false
}

impl PeerManager {
    /// Whether the parts hold together.
    pub closed spec fn wf(&self) -> bool {
        self.peers.wf() && self.bans.wf() && self.bans_persistent.wf() && self.node_keypair.wf()
    }

    /// A manager without connections that knows some addresses.
    pub fn new(node_keypair: NodeKeypair, seed_nodes: &Vec<String>, max_peers: usize) -> (r: Self)
        requires
            node_keypair.wf(),
        ensures
            r.wf(),
            r@.peers == Map::<Seq<u8>, Seq<u64>>::empty(),
            r@.bans == Map::<Seq<u8>, u128>::empty(),
            r@.bans_persistent == Map::<Seq<u8>, u128>::empty(),
            r@.known_peers == wire::strings(seed_nodes@),
            r@.seen.dom().is_empty(),
            r@.pending_inv.dom().is_empty(),
            r@.secret == node_keypair.secret(),
            r@.max_peers == max_peers,
    {
        let known_peers = copy_texts(seed_nodes);
        PeerManager {
            peers: PeerTable::new(),
            bans: BanList::new(),
            bans_persistent: BanList::new(),
            known_peers,
            signature_cache: cache_new(),
            pending_inv: counts_new(),
            node_keypair,
            max_peers,
        }
    }

    /// Drops the bans that are over, and says whether an address is banned.
    pub fn is_banned(&mut self, ip: &Ip, now: u128) -> (r: bool)
        requires
            old(self).wf(),
        ensures
            final(self).wf(),
            final(self)@ == (ManagerView {
                bans: peers::still_banned(old(self)@.bans, now),
                bans_persistent: peers::still_banned(old(self)@.bans_persistent, now),
                ..old(self)@
            }),
            r == (final(self)@.bans.dom().contains(ip@)
                || final(self)@.bans_persistent.dom().contains(ip@)),
    {
        self.bans.drop_expired(now);
        self.bans_persistent.drop_expired(now);
        self.bans.contains(ip) || self.bans_persistent.contains(ip)
    }

    /// Whether, and why not, a peer may connect from an address now.
    pub fn may_connect(&mut self, ip: &Ip, now: u128) -> (r: Admission)
        requires
            old(self).wf(),
        ensures
            final(self).wf(),
            final(self)@ == (ManagerView {
                bans: peers::still_banned(old(self)@.bans, now),
                bans_persistent: peers::still_banned(old(self)@.bans_persistent, now),
                ..old(self)@
            }),
            r == peers::admission(
                old(self)@.peers,
                final(self)@.bans.dom().contains(ip@)
                    || final(self)@.bans_persistent.dom().contains(ip@),
                ip@,
                old(self)@.max_peers,
            ),
    {
        let banned = self.is_banned(ip, now);
        self.peers.judge(banned, ip, self.max_peers)
    }

    /// A peer before its handshake: it goes by the node's own key.
    pub fn new_peer(&self) -> (r: Peer)
        requires
            self.wf(),
        ensures
            r.reputation == 0,
            r.version == 0,
            r.height == 0,
            r.peer_id@ == identity::node_public_of(self@.secret),
            r.score == peers::INITIAL_SCORE,
    {
        Peer::new(self.node_keypair.public())
    }

    /// What the node sends to greet a peer.
    pub fn greeting(&self, genesis: &[u8; 32], timestamp: u128, nonce: &[u8; 12]) -> (r: Vec<u8>)
        requires
            self.wf(),
        ensures
            ({
                let said = handshake_body(genesis@, timestamp, nonce@) + identity::node_public_of(
                    self@.secret,
                );
                r@ == said + identity::node_signature_of(self@.secret, said)
            }),
    {
        make_handshake(&self.node_keypair, genesis, timestamp, nonce)
    }

    /// Takes the handshake of a peer, which is refused unless its key was
    /// accepted not long ago.
    pub fn handshake(&self, h: &[u8], now: u128) -> (r: Result<(), ChainError>)
        requires
            self.wf(),
        ensures
            match r {
                Ok(_) => greeting_fault(self@.seen, h@, now) is None,
                Err(e) => greeting_fault(self@.seen, h@, now) == Some(e@),
            },
    {
        if h.len() != HANDSHAKE_LEN {
            return Err(ChainError::InvalidHandshake);
        }
        let key = read32(h, 64);
        if !check_node_key(&key) {
            return Err(other("Invalid public key"));
        }
        match cache_get(&self.signature_cache, &key) {
            Some((known, time)) => {
                proof {
                    bytes::lemma_id_ext(known, key);
                }
                if same32(&known, &key) && time <= now && now - time < SIGNATURE_CACHE_TTL_MS {
                    return Ok(());
                }
            },
            None => {},
        }
        check_handshake(h)
    }

    /// A peer has connected: its address, as others reach it, is known from
    /// now on.
    pub fn add_peer(&mut self, ip: Ip, handle: u64, address: String)
        requires
            old(self).wf(),
        ensures
            final(self).wf(),
            final(self)@ == (ManagerView {
                peers: peers::connected(old(self)@.peers, ip@, handle),
                known_peers: old(self)@.known_peers.push(address@),
                ..old(self)@
            }),
    {
        let ghost before = self@.known_peers;
        self.known_peers.push(address);
        assert(wire::strings(self.known_peers@) =~= before.push(address@));
        self.peers.add_connection(ip, handle);
    }

    /// A connection is gone.
    pub fn remove_peer(&mut self, ip: &Ip, handle: u64)
        requires
            old(self).wf(),
        ensures
            final(self).wf(),
            final(self)@ == (ManagerView {
                peers: peers::disconnected(old(self)@.peers, ip@, handle),
                ..old(self)@
            }),
    {
        self.peers.remove_peer(ip, handle);
    }

    /// Bans an address for the time of a ban, and drops its connections.
    pub fn ban_ip(&mut self, ip: Ip, now: u128)
        requires
            old(self).wf(),
            now + BAN_MS <= u128::MAX,
        ensures
            final(self).wf(),
            final(self)@ == (ManagerView {
                peers: old(self)@.peers.remove(ip@),
                bans: old(self)@.bans.insert(ip@, (now + BAN_MS) as u128),
                bans_persistent: old(self)@.bans_persistent.insert(ip@, (now + BAN_MS) as u128),
                ..old(self)@
            }),
    {
        self.bans.insert(ip, now + BAN_MS);
        self.bans_persistent.insert(ip, now + BAN_MS);
        self.peers.remove_peers(&ip);
    }

    /// A peer has committed a fault: its reputation falls, and where it is
    /// spent its address is banned. Says whether it was.
    pub fn fault(&mut self, peer: &mut Peer, ip: Ip, now: u128) -> (r: bool)
        requires
            old(self).wf(),
            old(peer).reputation - peers::FAULT_COST >= i8::MIN,
            now + BAN_MS <= u128::MAX,
        ensures
            final(self).wf(),
            *final(peer) == (Peer {
                reputation: (old(peer).reputation - peers::FAULT_COST) as i8,
                ..*old(peer)
            }),
            r == (final(peer).reputation <= peers::BAN_REPUTATION),
            final(self)@ == if r {
                (ManagerView {
                    peers: old(self)@.peers.remove(ip@),
                    bans: old(self)@.bans.insert(ip@, (now + BAN_MS) as u128),
                    bans_persistent: old(self)@.bans_persistent.insert(
                        ip@,
                        (now + BAN_MS) as u128,
                    ),
                    ..old(self)@
                })
            } else {
                old(self)@
            },
    {
        let banned = peer.decrease_reputation();
        if banned {
            self.ban_ip(ip, now);
        }
        banned
    }

    /// Whether the node has fewer connections than it wants.
    pub fn needs_peers(&self) -> (r: bool)
        requires
            self.wf(),
        ensures
            self@.peers.dom().finite(),
            r == (self@.peers.dom().len() < self@.max_peers / 2),
    {
        self.peers.len() < self.max_peers / 2
    }

    /// What comes of the bytes of a message from a peer. Inventories are
    /// counted.
    pub fn receive(&mut self, peer_id: &[u8; 32], data: &[u8]) -> (r: Received)
        requires
            old(self).wf(),
        ensures
            final(self).wf(),
            r@ == received(old(self)@.pending_inv, peer_id@, data@),
            final(self)@ == (ManagerView {
                pending_inv: if is_inv(data@) {
                    old(self)@.pending_inv.insert(
                        peer_id@,
                        inv_count(old(self)@.pending_inv, peer_id@),
                    )
                } else {
                    old(self)@.pending_inv
                },
                ..old(self)@
            }),
    {
        if data.len() >= 4 {
            let kind: u32 = read_u32(data, 0);
            assert(data@.subrange(0, 4) =~= data@.take(4));
            if kind == MSG_INV_TX || kind == MSG_INV_BLOCK {
                let count: usize = match counts_get(&self.pending_inv, peer_id) {
                    Some(n) => {
                        if n < usize::MAX {
                            n + 1
                        } else {
                            n
                        }
                    },
                    None => 1,
                };
                counts_put(&mut self.pending_inv, *peer_id, count);
                if count > MAX_PENDING_INV {
                    return Received::Flooded;
                }
            }
        }
        match parse_message(data) {
            Ok(m) => Received::Message(m),
            Err(e) => Received::Refused(e),
        }
    }

    /// The addresses that are known.
    pub fn known_addresses(&self) -> (r: Vec<String>)
        ensures
            wire::strings(r@) == self@.known_peers,
    {
        copy_texts(&self.known_peers)
    }

    /// The addresses that the node knows.
    pub fn addr_reply(&self) -> (r: Vec<u8>)
        ensures
            r@ == wire::message_bytes(wire::MessageView::Addr(self@.known_peers)),
    {
        addr_message(&self.known_peers)
    }

    /// Addresses that a peer has told.
    pub fn learn(&mut self, told: &Vec<String>)
        requires
            old(self).wf(),
        ensures
            final(self).wf(),
            final(self)@ == (ManagerView {
                known_peers: learned(old(self)@.known_peers, wire::strings(told@)),
                ..old(self)@
            }),
    {
        let ghost known = self@.known_peers;
        let ghost all = wire::strings(told@);
        let mut i: usize = 0;
        assert(all.take(0) =~= Seq::<Seq<char>>::empty());
        while i < told.len()
            invariant
                i <= told@.len(),
                all == wire::strings(told@),
                self.wf(),
                known == old(self)@.known_peers,
                self@ == (ManagerView {
                    known_peers: learned(known, all.take(i as int)),
                    ..old(self)@
                }),
            decreases told@.len() - i,
        {
            proof {
                assert(all.take(i + 1).drop_last() =~= all.take(i as int));
                assert(all.take(i + 1).last() == told@[i as int]@);
            }
            let ghost before = self@.known_peers;
            if !holds_string(&self.known_peers, &told[i]) {
                self.known_peers.push(told[i].clone());
                assert(wire::strings(self.known_peers@) =~= before.push(told@[i as int]@));
            }
            i += 1;
        }
        assert(all.take(all.len() as int) =~= all);
    }
}

/// The transaction of the pool that a peer asks for; nothing where the pool
/// does not hold it.
pub fn tx_reply(pool: &Mempool, hash: &[u8; 32]) -> (r: Option<Vec<u8>>)
    ensures
        match r {
            Some(msg) => pool@.txs.dom().contains(hash@) && msg@ == wire::message_bytes(
                wire::MessageView::Tx(pool@.txs[hash@].tx),
            ),
            None => !pool@.txs.dom().contains(hash@),
        },
{
    match pool.get(hash) {
        Some(t) => Some(tx_message(&t)),
        None => None,
    }
}

/// The block that a peer asks for, given the heights of known hashes; nothing
/// where the hash is not known.
pub fn block_reply(db: &Snapshot, heights: &IdMap, hash: &[u8; 32]) -> (r: Option<
    Result<Vec<u8>, ChainError>,
>)
    ensures
        match r {
            None => !heights@.dom().contains(hash@),
            Some(Ok(msg)) => {
                &&& heights@.dom().contains(hash@)
                &&& ledger::block_at(db@, heights@[hash@]) is Ok
                &&& msg@ == wire::message_bytes(
                    wire::MessageView::Block(ledger::block_at(db@, heights@[hash@])->Ok_0),
                )
            },
            Some(Err(e)) => {
                &&& heights@.dom().contains(hash@)
                &&& ledger::block_at(db@, heights@[hash@]) == Err::<tx::BlockView, Fault>(
                    e@,
                )
            },
        },
{
    match heights.get(hash) {
        None => None,
        Some(h) => match load_block_by_height(db, h) {
            Ok(b) => Some(Ok(block_message(&b))),
            Err(e) => Some(Err(e)),
        },
    }
}

// ---------------------------------------------------------------------------
// Reactions to messages
// ---------------------------------------------------------------------------

/// What a node does when a message comes.
pub enum Reaction {
    /// Nothing.
    Nothing,
    /// What the peer has is noted, by its kind and its hash.
    Noted(u32, [u8; 32]),
    /// A message goes back to the peer.
    Reply(Vec<u8>),
    /// A message goes to every peer.
    Broadcast(Vec<u8>),
    /// The headers after one, up to another, are sent to the peer.
    FindHeaders([u8; 32], [u8; 32]),
    /// A block is added to the chain.
    AddBlock(Block),
    /// Headers are tried as blocks without transactions.
    TryHeaders(Vec<BlockHeader>),
    /// The peer has sent too many inventories.
    Flooded,
    /// The peer has asked for a block that is not known.
    Unknown,
    /// The pool is stuck.
    Stuck,
    /// The message is refused.
    Refused(MessageError),
}

/// What a [`Reaction`] says.
pub enum ReactionView {
    Nothing,
    Noted(u32, Seq<u8>),
    Reply(Seq<u8>),
    Broadcast(Seq<u8>),
    FindHeaders(Seq<u8>, Seq<u8>),
    AddBlock(tx::BlockView),
    TryHeaders(Seq<BlockHeader>),
    Flooded,
    Unknown,
    Stuck,
    Refused(wire::MessageFault),
}

impl View for Reaction {
    type V = ReactionView;

    open spec fn view(&self) -> ReactionView {
        match self {
            Reaction::Nothing => ReactionView::Nothing,
            Reaction::Noted(kind, hash) => ReactionView::Noted(*kind, hash@),
            Reaction::Reply(m) => ReactionView::Reply(m@),
            Reaction::Broadcast(m) => ReactionView::Broadcast(m@),
            Reaction::FindHeaders(from, stop) => ReactionView::FindHeaders(from@, stop@),
            Reaction::AddBlock(b) => ReactionView::AddBlock(b@),
            Reaction::TryHeaders(v) => ReactionView::TryHeaders(v@),
            Reaction::Flooded => ReactionView::Flooded,
            Reaction::Unknown => ReactionView::Unknown,
            Reaction::Stuck => ReactionView::Stuck,
            Reaction::Refused(e) => ReactionView::Refused(e@),
        }
    }
}

/// What follows when a peer asks for a transaction or a block.
pub open spec fn data_reaction(
    kind: u32,
    hash: Seq<u8>,
    p: mempool::PoolView,
    db: store::Db,
    heights: Map<Seq<u8>, usize>,
) -> ReactionView {
    if kind == MSG_INV_TX {
        if p.txs.dom().contains(hash) {
            ReactionView::Reply(wire::message_bytes(wire::MessageView::Tx(p.txs[hash].tx)))
        } else {
            ReactionView::Nothing
        }
    } else if kind == MSG_INV_BLOCK {
        if !heights.dom().contains(hash) {
            ReactionView::Unknown
        } else {
            match ledger::block_at(db, heights[hash]) {
                Ok(b) => ReactionView::Reply(wire::message_bytes(wire::MessageView::Block(b))),
                Err(e) => ReactionView::Refused(wire::MessageFault::Refused(e)),
            }
        }
    } else {
        ReactionView::Nothing
    }
}

/// What follows when a transaction was offered to the pool: every peer is told
/// of one that was added.
pub open spec fn offer_reaction(
    t: tx::TxView,
    out: Result<mempool::Admission, Fault>,
) -> ReactionView {
    match out {
        Ok(a) => if a == mempool::Admission::Added {
            ReactionView::Broadcast(
                wire::message_bytes(wire::MessageView::Inv(MSG_INV_TX, tx::txid_of(t))),
            )
        } else if a == mempool::Admission::Stuck {
            ReactionView::Stuck
        } else {
            ReactionView::Nothing
        },
        Err(_) => ReactionView::Nothing,
    }
}

/// Whether a reaction and a pool are what a message with a transaction comes to.
pub open spec fn offer_reacted(
    p: mempool::PoolView,
    db: store::Db,
    t: tx::TxView,
    now_ms: u128,
    r: ReactionView,
    q: mempool::PoolView,
) -> bool {
    exists|out: Result<mempool::Admission, Fault>|
        #[trigger] mempool::offered(p, db, t, now_ms, out, q) && r == offer_reaction(t, out)
}

/// Whether a reaction, the addresses that are known and a pool are what a
/// message comes to.
pub open spec fn reacted(
    m: wire::MessageView,
    known: Seq<Seq<char>>,
    p: mempool::PoolView,
    db: store::Db,
    heights: Map<Seq<u8>, usize>,
    now_ms: u128,
    r: ReactionView,
    known_then: Seq<Seq<char>>,
    q: mempool::PoolView,
) -> bool {
    &&& m is Tx || q == p
    &&& m is Addr || known_then == known
    &&& match m {
        wire::MessageView::Inv(kind, hash) => r == ReactionView::Noted(kind, hash),
        wire::MessageView::GetData(kind, hash) => r == data_reaction(kind, hash, p, db, heights),
        wire::MessageView::GetHeaders(from, stop) => r == ReactionView::FindHeaders(from, stop),
        wire::MessageView::Tx(t) => offer_reacted(p, db, t, now_ms, r, q),
        wire::MessageView::Block(b) => r == ReactionView::AddBlock(b),
        wire::MessageView::Headers(v) => r == if v.len() == 0 {
            ReactionView::Nothing
        } else {
            ReactionView::TryHeaders(v)
        },
        wire::MessageView::GetAddr => r == ReactionView::Reply(
            wire::message_bytes(wire::MessageView::Addr(known)),
        ),
        wire::MessageView::Addr(told) => r == ReactionView::Nothing && known_then == learned(
            known,
            told,
        ),
        wire::MessageView::Ping(nonce) => r == ReactionView::Reply(
            codec::enc_u32(wire::MSG_PONG) + nonce,
        ),
        wire::MessageView::Pong => r == ReactionView::Nothing,
    }
}

impl PeerManager {
    /// What the node does when the bytes of a message come from a peer.
    pub fn handle_message(
        &mut self,
        peer_id: &[u8; 32],
        data: &[u8],
        pool: &mut Mempool,
        db: &Snapshot,
        heights: &IdMap,
        now_ms: u128,
    ) -> (r: Reaction)
        requires
            old(self).wf(),
            old(pool).wf(),
        ensures
            final(self).wf(),
            final(pool).wf(),
            final(self)@ == (ManagerView {
                pending_inv: if is_inv(data@) {
                    old(self)@.pending_inv.insert(
                        peer_id@,
                        inv_count(old(self)@.pending_inv, peer_id@),
                    )
                } else {
                    old(self)@.pending_inv
                },
                known_peers: final(self)@.known_peers,
                ..old(self)@
            }),
            match received(old(self)@.pending_inv, peer_id@, data@) {
                ReceivedView::Message(m) => reacted(
                    m,
                    old(self)@.known_peers,
                    old(pool)@,
                    db@,
                    heights@,
                    now_ms,
                    r@,
                    final(self)@.known_peers,
                    final(pool)@,
                ),
                ReceivedView::Flooded => {
                    &&& r@ == ReactionView::Flooded
                    &&& final(self)@.known_peers == old(self)@.known_peers
                    &&& final(pool)@ == old(pool)@
                },
                ReceivedView::Refused(e) => {
                    &&& r@ == ReactionView::Refused(e)
                    &&& final(self)@.known_peers == old(self)@.known_peers
                    &&& final(pool)@ == old(pool)@
                },
            },
    {
        let message = match self.receive(peer_id, data) {
            Received::Message(m) => m,
            Received::Flooded => {
                return Reaction::Flooded;
            },
            Received::Refused(e) => {
                return Reaction::Refused(e);
            },
        };
        match message {
            Message::Inv(kind, hash) => Reaction::Noted(kind, hash),
            Message::GetData(kind, hash) => {
                if kind == MSG_INV_TX {
                    match tx_reply(pool, &hash) {
                        Some(m) => Reaction::Reply(m),
                        None => Reaction::Nothing,
                    }
                } else if kind == MSG_INV_BLOCK {
                    match block_reply(db, heights, &hash) {
                        Some(Ok(m)) => Reaction::Reply(m),
                        Some(Err(e)) => Reaction::Refused(MessageError::Refused(e)),
                        None => Reaction::Unknown,
                    }
                } else {
                    Reaction::Nothing
                }
            },
            Message::GetHeaders(from, stop) => Reaction::FindHeaders(from, stop),
            Message::Tx(t) => {
                let id = t.hash();
                let ghost offer = t@;
                let out = pool.insert(t, db, now_ms);
                let ghost o = mempool::outcome(out);
                let r = match out {
                    Ok(mempool::Admission::Added) => Reaction::Broadcast(
                        inv_message(MSG_INV_TX, &id),
                    ),
                    Ok(mempool::Admission::Stuck) => Reaction::Stuck,
                    Ok(mempool::Admission::Known) => Reaction::Nothing,
                    Err(_) => Reaction::Nothing,
                };
                assert(r@ == offer_reaction(offer, o));
                assert(mempool::offered(old(pool)@, db@, offer, now_ms, o, pool@));
                assert(offer_reacted(old(pool)@, db@, offer, now_ms, r@, pool@));
                r
            },
            Message::Block(b) => Reaction::AddBlock(b),
            Message::Headers(v) => {
                if v.len() == 0 {
                    Reaction::Nothing
                } else {
                    Reaction::TryHeaders(v)
                }
            },
            Message::GetAddr => Reaction::Reply(self.addr_reply()),
            Message::Addr(told) => {
                self.learn(&told);
                Reaction::Nothing
            },
            Message::Ping(nonce) => Reaction::Reply(pong_message(&nonce)),
            Message::Pong => Reaction::Nothing,
        }
    }
}

/// A message changes the pool only where it brings a transaction, and the
/// addresses that are known are the same after it.
pub proof fn law_only_transactions_change_the_pool(
    m: wire::MessageView,
    known: Seq<Seq<char>>,
    p: mempool::PoolView,
    db: store::Db,
    heights: Map<Seq<u8>, usize>,
    now_ms: u128,
    r: ReactionView,
    known_then: Seq<Seq<char>>,
    q: mempool::PoolView,
)
    requires
        reacted(m, known, p, db, heights, now_ms, r, known_then, q),
        q != p,
    ensures
        m is Tx,
        known_then == known,
{
}

/// Learning addresses drops none that was known, and makes all that were told
/// known; none that was not known before comes twice.
pub proof fn law_learned(known: Seq<Seq<char>>, told: Seq<Seq<char>>)
    ensures
        known.is_prefix_of(learned(known, told)),
        forall|i: int| 0 <= i < told.len() ==> learned(known, told).contains(#[trigger] told[i]),
        known.no_duplicates() ==> learned(known, told).no_duplicates(),
    decreases told.len(),
{
    let after = learned(known, told);
    if told.len() > 0 {
        let rest = told.drop_last();
        law_learned(known, rest);
        let before = learned(known, rest);
        assert forall|i: int| 0 <= i < told.len() implies after.contains(#[trigger] told[i]) by {
            if i < rest.len() {
                assert(rest[i] == told[i]);
                let j = before.index_of(told[i]);
                assert(after[j] == before[j]);
            } else if !before.contains(told.last()) {
                assert(after[before.len() as int] == told.last());
            }
        }
        assert(known.is_prefix_of(after)) by {
            assert(known =~= after.take(known.len() as int));
        }
    } else {
        assert(known =~= after.take(known.len() as int));
    }
}

/// A banned address stays banned until its time is over, and not longer.
pub proof fn law_ban_lasts(bans: Map<Seq<u8>, u128>, ip: Seq<u8>, start: u128, now: u128)
    requires
        start + BAN_MS <= u128::MAX,
    ensures
        peers::still_banned(bans.insert(ip, (start + BAN_MS) as u128), now).dom().contains(ip)
            == (now < start + BAN_MS),
{
}

} // verus!
