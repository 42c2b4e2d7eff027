//! The journal of reorganizations: what is about to happen is recorded before
//! it happens, so that it can be completed after a crash.
use crate::bytes;
use crate::bytes::same32;
use crate::codec;
use crate::codec::{block_from_wire, block_to_wire, WireBlock};
use crate::errors::{ChainError, Fault};
use crate::keys;
use crate::keys::make_journal_key;
use crate::ledger;
use crate::ledger::{load_block_by_height, load_current_height, load_current_tip};
use crate::state;
use crate::state::build_block_ops;
use crate::store;
use crate::store::{append_ops, del_op, put_op, Cf, Op, Snapshot};
use crate::tx;
use crate::tx::Block;
use crate::utxo;
use crate::utxo::BlockAction;
use crate::validate::TxProofs;
use vstd::prelude::*;

verus! {

/// A reorganization that is about to happen.
pub struct ReorgJournal {
    /// The name of the journal.
    pub journal_id: String,
    /// The height of the best block before it.
    pub old_tip_height: u64,
    /// The hash of the best block before it.
    pub old_tip_hash: [u8; 32],
    /// How many blocks it takes off the chain.
    pub disconnect_depth: u64,
    /// The block that it puts on the chain.
    pub new_block: Block,
}

/// What a [`ReorgJournal`] says.
pub struct JournalView {
    pub id: Seq<char>,
    pub old_height: u64,
    pub old_tip: [u8; 32],
    pub depth: u64,
    pub block: tx::BlockView,
}

impl View for ReorgJournal {
    type V = JournalView;

    open spec fn view(&self) -> JournalView {
        JournalView {
            id: self.journal_id@,
            old_height: self.old_tip_height,
            old_tip: self.old_tip_hash,
            depth: self.disconnect_depth,
            block: self.new_block@,
        }
    }
}

/// The bytes of a journal.
pub open spec fn enc_journal(j: JournalView) -> Seq<u8> {
    codec::enc_string(j.id) + (codec::enc_u64(j.old_height) + (j.old_tip@ + (codec::enc_u64(
        j.depth,
    ) + codec::enc_block(j.block))))
}

/// The fields of a journal.
pub type WireJournal = (String, u64, [u8; 32], u64, WireBlock);

/// The journal that a tuple holds.
pub open spec fn wire_journal(w: WireJournal) -> JournalView {
    JournalView {
        id: w.0@,
        old_height: w.1,
        old_tip: w.2,
        depth: w.3,
        block: codec::wire_block(w.4),
    }
}

/// `bincode::serialize` of a journal writes the format.
#[verifier::external_body]
fn bincode_journal(w: &WireJournal) -> (r: Vec<u8>)
    ensures
        r@ == enc_journal(wire_journal(*w)),
{
    bincode::serialize(w).expect("plain values serialize")
}

/// `bincode::deserialize` to a journal: what the bytes begin with, whatever
/// follows it; it fails where they begin with no journal.
#[verifier::external_body]
fn unbincode_journal(b: &[u8]) -> (r: Option<WireJournal>)
    ensures
        match r {
            Some(w) => enc_journal(wire_journal(w)).is_prefix_of(b@),
            None => forall|j: JournalView| !(#[trigger] enc_journal(j)).is_prefix_of(b@),
        },
{
    bincode::deserialize(b).ok()
}

/// The journal that bytes begin with.
pub open spec fn read_journal(b: Seq<u8>) -> Option<JournalView> {
    if exists|j: JournalView| (#[trigger] enc_journal(j)).is_prefix_of(b) {
        Some(choose|j: JournalView| (#[trigger] enc_journal(j)).is_prefix_of(b))
    } else {
        None
    }
}

/// Strings joined in one grouping or the other are the same.
proof fn lemma_regroup(a: Seq<u8>, b: Seq<u8>, c: Seq<u8>, d: Seq<u8>, e: Seq<u8>, r: Seq<u8>)
    ensures
        (a + (b + (c + (d + e)))) + r == a + (b + (c + (d + (e + r)))),
{
    assert((a + (b + (c + (d + e)))) + r =~= a + (b + (c + (d + (e + r)))));
}

proof fn lemma_journal_head(j: JournalView, k: JournalView, jr: Seq<u8>, kr: Seq<u8>)
    requires
        enc_journal(j) + jr == enc_journal(k) + kr,
        (enc_journal(j) + jr).len() < bytes::pow256(8),
    ensures
        j == k,
{
    let jb = codec::enc_block(j.block);
    let kb = codec::enc_block(k.block);
    let j1 = jb + jr;
    let k1 = kb + kr;
    let j2 = codec::enc_u64(j.depth) + j1;
    let k2 = codec::enc_u64(k.depth) + k1;
    let j3 = j.old_tip@ + j2;
    let k3 = k.old_tip@ + k2;
    let j4 = codec::enc_u64(j.old_height) + j3;
    let k4 = codec::enc_u64(k.old_height) + k3;
    lemma_regroup(
        codec::enc_string(j.id),
        codec::enc_u64(j.old_height),
        j.old_tip@,
        codec::enc_u64(j.depth),
        jb,
        jr,
    );
    lemma_regroup(
        codec::enc_string(k.id),
        codec::enc_u64(k.old_height),
        k.old_tip@,
        codec::enc_u64(k.depth),
        kb,
        kr,
    );
    codec::lemma_bytes_head(
        vstd::utf8::encode_utf8(j.id),
        vstd::utf8::encode_utf8(k.id),
        j4,
        k4,
    );
    vstd::utf8::encode_utf8_decode_utf8(j.id);
    vstd::utf8::encode_utf8_decode_utf8(k.id);
    codec::lemma_u64_head(j.old_height, k.old_height, j3, k3);
    codec::lemma_same_head(j.old_tip@, k.old_tip@, j2, k2);
    bytes::lemma_id_ext(j.old_tip, k.old_tip);
    codec::lemma_u64_head(j.depth, k.depth, j1, k1);
    codec::lemma_block_head(j.block, k.block, jr, kr);
}

/// Reading gives back the journal that was written, whatever follows it.
pub proof fn law_read_journal(j: JournalView, b: Seq<u8>)
    requires
        enc_journal(j).is_prefix_of(b),
        b.len() < bytes::pow256(8),
    ensures
        read_journal(b) == Some(j),
{
    let k = choose|k: JournalView| (#[trigger] enc_journal(k)).is_prefix_of(b);
    codec::lemma_prefix_rest(enc_journal(j), b);
    codec::lemma_prefix_rest(enc_journal(k), b);
    lemma_journal_head(
        j,
        k,
        b.skip(enc_journal(j).len() as int),
        b.skip(enc_journal(k).len() as int),
    );
}

/// The bytes of a journal.
pub fn serialize_journal(j: &ReorgJournal) -> (r: Vec<u8>)
    ensures
        r@ == enc_journal(j@),
{
    let w: WireJournal = (
        j.journal_id.as_str().to_string(),
        j.old_tip_height,
        j.old_tip_hash,
        j.disconnect_depth,
        block_to_wire(&j.new_block),
    );
    bincode_journal(&w)
}

/// The journal that bytes begin with.
pub fn deserialize_journal(b: &[u8]) -> (r: Option<ReorgJournal>)
    ensures
        match r {
            Some(j) => read_journal(b@) == Some(j@),
            None => read_journal(b@) is None,
        },
{
    let n: usize = b.len();
    match unbincode_journal(b) {
        Some(w) => {
            proof {
                bytes::lemma_pow256_values();
                law_read_journal(wire_journal(w), b@);
            }
            let new_block = block_from_wire(&w.4);
            Some(
                ReorgJournal {
                    journal_id: w.0,
                    old_tip_height: w.1,
                    old_tip_hash: w.2,
                    disconnect_depth: w.3,
                    new_block,
                },
            )
        },
        None => None,
    }
}

/// The write that records a journal.
pub open spec fn start_op(j: JournalView) -> store::OpView {
    store::put(
        Cf::Default,
        keys::journal_key(vstd::utf8::encode_utf8(j.id)),
        enc_journal(j),
    )
}

/// The write that records a journal.
pub fn start_reorg_journal(j: &ReorgJournal) -> (r: Op)
    ensures
        r@ == start_op(j@),
{
    let key = make_journal_key(j.journal_id.as_str().as_bytes());
    let data = serialize_journal(j);
    put_op(Cf::Default, key.as_slice(), data.as_slice())
}

/// The write that removes a journal.
pub fn end_reorg_journal(journal_id: &str) -> (r: Op)
    ensures
        r@ == store::del(Cf::Default, keys::journal_key(vstd::utf8::encode_utf8(journal_id@))),
{
    let key = make_journal_key(journal_id.as_bytes());
    del_op(Cf::Default, key.as_slice())
}

// ---------------------------------------------------------------------------
// What a reorganization writes
// ---------------------------------------------------------------------------

/// What taking `n` blocks off the chain writes, from the block at `top` down.
pub open spec fn disconnect_ops(
    s: state::StateView,
    db: store::Db,
    top: usize,
    n: nat,
    proofs: Seq<Vec<TxProofs>>,
) -> Result<Seq<store::OpView>, Fault>
    decreases n,
{
    if n == 0 {
        Ok(Seq::empty())
    } else {
        let h = (top - (n - 1)) as usize;
        match disconnect_ops(s, db, top, (n - 1) as nat, proofs) {
            Err(e) => Err(e),
            Ok(ops) => match ledger::block_at(db, h) {
                Err(e) => Err(e),
                Ok(b) => match state::block_ops(
                    s,
                    db,
                    b,
                    h,
                    BlockAction::Disconnect,
                    proofs[n - 1]@,
                ) {
                    Err(e) => Err(e),
                    Ok(d) => Ok(ops + d.ops),
                },
            },
        }
    }
}

/// What taking `n` blocks off the chain and putting one on it writes.
pub open spec fn reorg_ops(
    s: state::StateView,
    db: store::Db,
    top: usize,
    n: nat,
    old_proofs: Seq<Vec<TxProofs>>,
    b: tx::BlockView,
    proofs: Seq<TxProofs>,
) -> Result<Seq<store::OpView>, Fault> {
    match disconnect_ops(s, db, top, n, old_proofs) {
        Err(e) => Err(e),
        Ok(ops) => match state::block_ops(
            s,
            db,
            b,
            (top - n + 1) as usize,
            BlockAction::Connect,
            proofs,
        ) {
            Err(e) => Err(e),
            Ok(d) => Ok(ops + d.ops),
        },
    }
}

/// Whether the findings are about the blocks that are taken off the chain.
pub open spec fn old_proofs_fit(
    db: store::Db,
    top: usize,
    n: nat,
    proofs: Seq<Vec<TxProofs>>,
) -> bool {
    &&& proofs.len() >= n
    &&& forall|j: int|
        0 <= j < n ==> (#[trigger] ledger::block_at(db, (top - j) as usize)) is Ok
            ==> utxo::block_proofs_fit(
            ledger::block_at(db, (top - j) as usize)->Ok_0,
            proofs[j]@,
        )
}

proof fn lemma_disconnect_stop(
    s: state::StateView,
    db: store::Db,
    top: usize,
    i: nat,
    n: nat,
    proofs: Seq<Vec<TxProofs>>,
    e: Fault,
)
    requires
        i <= n,
        disconnect_ops(s, db, top, i, proofs) == Err::<Seq<store::OpView>, Fault>(e),
    ensures
        disconnect_ops(s, db, top, n, proofs) == Err::<Seq<store::OpView>, Fault>(e),
    decreases n,
{
    if i < n {
        lemma_disconnect_stop(s, db, top, i, (n - 1) as nat, proofs, e);
    }
}

/// What taking `depth` blocks off the chain and putting one on it writes, from
/// the totals given on.
pub fn build_reorg(
    set_hash: [u8; 32],
    supply: u64,
    db: &Snapshot,
    top: usize,
    depth: usize,
    old_proofs: &Vec<Vec<TxProofs>>,
    block: &Block,
    proofs: &Vec<TxProofs>,
) -> (r: Result<Vec<Op>, ChainError>)
    requires
        depth <= top < usize::MAX,
        old_proofs_fit(db@, top, depth as nat, old_proofs@),
        utxo::block_proofs_fit(block@, proofs@),
    ensures
        forall|s: state::StateView|
            s.set_hash == set_hash@ && s.supply == supply ==> match r {
                Ok(ops) => #[trigger] reorg_ops(
                    s,
                    db@,
                    top,
                    depth as nat,
                    old_proofs@,
                    block@,
                    proofs@,
                ) == Ok::<_, Fault>(store::ops_view(ops@)),
                Err(e) => reorg_ops(
                    s,
                    db@,
                    top,
                    depth as nat,
                    old_proofs@,
                    block@,
                    proofs@,
                ) == Err::<Seq<store::OpView>, _>(e@),
            },
{
    let ghost s = state::StateView { set_hash: set_hash@, supply, ..state::empty_state() };
    proof {
        lemma_totals_suffice(s, db@, top, depth as nat, old_proofs@, block@, proofs@);
    }
    let mut ops: Vec<Op> = Vec::new();
    let mut i: usize = 0;
    assert(store::ops_view(ops@) =~= Seq::<store::OpView>::empty());
    while i < depth
        invariant
            i <= depth <= top < usize::MAX,
            old_proofs_fit(db@, top, depth as nat, old_proofs@),
            s.set_hash == set_hash@,
            s.supply == supply,
            forall|z: state::StateView|
                z.set_hash == s.set_hash && z.supply == s.supply ==> #[trigger] reorg_ops(
                    z,
                    db@,
                    top,
                    depth as nat,
                    old_proofs@,
                    block@,
                    proofs@,
                ) == reorg_ops(s, db@, top, depth as nat, old_proofs@, block@, proofs@),
            disconnect_ops(s, db@, top, i as nat, old_proofs@) == Ok::<_, Fault>(
                store::ops_view(ops@),
            ),
        decreases depth - i,
    {
        let h: usize = top - i;
        assert(h == (top - ((i + 1) as nat - 1)) as usize);
        let blk = match load_block_by_height(db, h) {
            Ok(b) => b,
            Err(e) => {
                proof {
                    lemma_disconnect_stop(
                        s,
                        db@,
                        top,
                        (i + 1) as nat,
                        depth as nat,
                        old_proofs@,
                        e@,
                    );
                }
                return Err(e);
            },
        };
        assert(ledger::block_at(db@, (top - i) as usize) is Ok);
        match build_block_ops(
            set_hash,
            supply,
            db,
            &blk,
            h,
            BlockAction::Disconnect,
            &old_proofs[i],
        ) {
            Ok(d) => {
                assert(state::block_ops(
                    s,
                    db@,
                    blk@,
                    h,
                    BlockAction::Disconnect,
                    old_proofs@[i as int]@,
                ) == Ok::<_, Fault>(d@));
                append_ops(&mut ops, &d.ops);
            },
            Err(e) => {
                proof {
                    assert(state::block_ops(
                        s,
                        db@,
                        blk@,
                        h,
                        BlockAction::Disconnect,
                        old_proofs@[i as int]@,
                    ) == Err::<utxo::DeltaView, Fault>(e@));
                    lemma_disconnect_stop(
                        s,
                        db@,
                        top,
                        (i + 1) as nat,
                        depth as nat,
                        old_proofs@,
                        e@,
                    );
                }
                return Err(e);
            },
        }
        i += 1;
    }
    let height: usize = top - depth + 1;
    match build_block_ops(set_hash, supply, db, block, height, BlockAction::Connect, proofs) {
        Ok(d) => {
            assert(state::block_ops(s, db@, block@, height, BlockAction::Connect, proofs@) == Ok::<
                _,
                Fault,
            >(d@));
            append_ops(&mut ops, &d.ops);
            Ok(ops)
        },
        Err(e) => {
            assert(state::block_ops(s, db@, block@, height, BlockAction::Connect, proofs@)
                == Err::<utxo::DeltaView, Fault>(e@));
            Err(e)
        },
    }
}

/// Of the state only the totals matter to what is written.
proof fn lemma_totals_suffice(
    s: state::StateView,
    db: store::Db,
    top: usize,
    n: nat,
    old_proofs: Seq<Vec<TxProofs>>,
    b: tx::BlockView,
    proofs: Seq<TxProofs>,
)
    ensures
        forall|z: state::StateView|
            z.set_hash == s.set_hash && z.supply == s.supply ==> #[trigger] reorg_ops(
                z,
                db,
                top,
                n,
                old_proofs,
                b,
                proofs,
            ) == reorg_ops(s, db, top, n, old_proofs, b, proofs),
{
    assert forall|z: state::StateView|
        z.set_hash == s.set_hash && z.supply == s.supply implies #[trigger] reorg_ops(
        z,
        db,
        top,
        n,
        old_proofs,
        b,
        proofs,
    ) == reorg_ops(s, db, top, n, old_proofs, b, proofs) by {
        lemma_totals_disconnect(s, z, db, top, n, old_proofs);
    }
}

proof fn lemma_totals_disconnect(
    s: state::StateView,
    z: state::StateView,
    db: store::Db,
    top: usize,
    n: nat,
    proofs: Seq<Vec<TxProofs>>,
)
    requires
        z.set_hash == s.set_hash,
        z.supply == s.supply,
    ensures
        disconnect_ops(s, db, top, n, proofs) == disconnect_ops(z, db, top, n, proofs),
    decreases n,
{
    if n > 0 {
        lemma_totals_disconnect(s, z, db, top, (n - 1) as nat, proofs);
    }
}

// ---------------------------------------------------------------------------
// Recovery
// ---------------------------------------------------------------------------

/// Whether a journal is about the chain as it is: nothing of it happened yet.
pub open spec fn is_current(db: store::Db, j: JournalView) -> Result<bool, Fault> {
    match ledger::stored_height(db) {
        Err(e) => Err(e),
        Ok(h) => match ledger::stored_tip(db) {
            Err(e) => Err(e),
            Ok(t) => Ok(h == j.old_height && t == j.old_tip@),
        },
    }
}

/// What completing the reorganization of a journal writes: what it would have
/// written, where nothing of it happened yet; nothing, where the chain moved
/// on.
pub open spec fn recovery_ops(
    s: state::StateView,
    db: store::Db,
    j: JournalView,
    old_proofs: Seq<Vec<TxProofs>>,
    proofs: Seq<TxProofs>,
) -> Result<Seq<store::OpView>, Fault> {
    match is_current(db, j) {
        Err(e) => Err(e),
        Ok(current) => if current {
            reorg_ops(
                s,
                db,
                j.old_height as usize,
                j.depth as nat,
                old_proofs,
                j.block,
                proofs,
            )
        } else {
            Ok(Seq::empty())
        },
    }
}

/// What completing the reorganization of a journal writes, from the totals
/// given on.
pub fn recover_pending_reorg(
    set_hash: [u8; 32],
    supply: u64,
    db: &Snapshot,
    journal: &ReorgJournal,
    old_proofs: &Vec<Vec<TxProofs>>,
    proofs: &Vec<TxProofs>,
) -> (r: Result<Vec<Op>, ChainError>)
    requires
        ledger::is_id(store::read(db@, Cf::Default, keys::tip_key())),
        is_current(db@, journal@) == Ok::<_, Fault>(true) ==> {
            &&& journal.disconnect_depth <= journal.old_tip_height < usize::MAX
            &&& old_proofs_fit(
                db@,
                journal.old_tip_height as usize,
                journal.disconnect_depth as nat,
                old_proofs@,
            )
            &&& utxo::block_proofs_fit(journal.new_block@, proofs@)
        },
    ensures
        forall|s: state::StateView|
            s.set_hash == set_hash@ && s.supply == supply ==> match r {
                Ok(ops) => #[trigger] recovery_ops(
                    s,
                    db@,
                    journal@,
                    old_proofs@,
                    proofs@,
                ) == Ok::<_, Fault>(store::ops_view(ops@)),
                Err(e) => recovery_ops(s, db@, journal@, old_proofs@, proofs@) == Err::<
                    Seq<store::OpView>,
                    _,
                >(e@),
            },
{
    let height: usize = match load_current_height(db) {
        Ok(h) => h,
        Err(e) => {
            return Err(e);
        },
    };
    let tip = match load_current_tip(db) {
        Ok(t) => t,
        Err(e) => {
            return Err(e);
        },
    };
    proof {
        bytes::lemma_id_ext(tip, journal.old_tip_hash);
        bytes::lemma_be_write_read(
            store::read(db@, Cf::Default, keys::best_height_key())->0,
        );
        bytes::lemma_pow256_values();
    }
    if height as u64 == journal.old_tip_height && same32(&tip, &journal.old_tip_hash) {
        let r = build_reorg(
            set_hash,
            supply,
            db,
            height,
            journal.disconnect_depth as usize,
            old_proofs,
            &journal.new_block,
            proofs,
        );
        assert forall|s: state::StateView|
            s.set_hash == set_hash@ && s.supply == supply implies match r {
            Ok(ops) => #[trigger] recovery_ops(s, db@, journal@, old_proofs@, proofs@) == Ok::<
                _,
                Fault,
            >(store::ops_view(ops@)),
            Err(e) => recovery_ops(s, db@, journal@, old_proofs@, proofs@) == Err::<
                Seq<store::OpView>,
                _,
            >(e@),
        } by {
            let x = reorg_ops(
                s,
                db@,
                height,
                journal.disconnect_depth as nat,
                old_proofs@,
                journal.new_block@,
                proofs@,
            );
        }
        r
    } else {
        let ops: Vec<Op> = Vec::new();
        assert(store::ops_view(ops@) =~= Seq::<store::OpView>::empty());
        Ok(ops)
    }
}

/// A reorganization that was recorded and not begun is completed: the record
/// leaves the chain as it is, so that what the recovery writes is what the
/// reorganization would have written then.
pub proof fn law_recorded_reorg_completes(
    s: state::StateView,
    db: store::Db,
    j: JournalView,
    old_proofs: Seq<Vec<TxProofs>>,
    proofs: Seq<TxProofs>,
)
    requires
        is_current(db, j) == Ok::<bool, Fault>(true),
    ensures
        recovery_ops(s, store::write(db, start_op(j)), j, old_proofs, proofs) == reorg_ops(
            s,
            store::write(db, start_op(j)),
            j.old_height as usize,
            j.depth as nat,
            old_proofs,
            j.block,
            proofs,
        ),
        store::read(
            store::write(db, start_op(j)),
            Cf::Default,
            keys::journal_key(vstd::utf8::encode_utf8(j.id)),
        ) == Some(enc_journal(j)),
{
    let key = keys::journal_key(vstd::utf8::encode_utf8(j.id));
    assert(key[0] == 0x72);
    assert(keys::tip_key()[0] == 0x74);
    assert(keys::best_height_key()[0] == 0x68);
}

/// A reorganization that was carried out is not repeated: once its block is
/// the best one, the recovery writes nothing.
pub proof fn law_done_reorg_is_not_repeated(
    s: state::StateView,
    db: store::Db,
    j: JournalView,
    height: usize,
    hash: Seq<u8>,
    old_proofs: Seq<Vec<TxProofs>>,
    proofs: Seq<TxProofs>,
)
    requires
        hash.len() == 32,
        hash != j.old_tip@,
        height < 0x1_0000_0000,
        codec::enc_block(j.block).len() < bytes::pow256(8),
    ensures
        recovery_ops(
            s,
            store::write_all(db, state::save_ops(height, j.block, hash)),
            j,
            old_proofs,
            proofs,
        ) == Ok::<Seq<store::OpView>, Fault>(Seq::empty()),
{
    state::law_saved_block_loads(db, height, j.block, hash);
}

} // verus!
