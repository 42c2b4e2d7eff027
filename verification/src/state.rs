//! What a node keeps of the chain in memory, and what actions on blocks do to
//! it and to the database.
use crate::big;
use crate::big::{big_add, big_clone};
use crate::bytes;
use crate::bytes::{same32, to_be, to_le};
use crate::codec;
use crate::codec::{serialize_block, serialize_header, serialize_position};
use crate::errors::{ChainError, Fault};
use crate::hash;
use crate::hash::hash160;
use crate::keys;
use crate::keys::{
    make_addr_key, make_best_height_key, make_block_key, make_header_key, make_height_key,
    make_issued_key, make_tip_key,
};
use crate::ledger;
use crate::ledger::load_supply_from_db;
use crate::params;
use crate::params::subsidy;
use crate::store;
use crate::store::{del_op, push_op, put_op, Cf, Op, Snapshot};
use crate::tx;
use crate::tx::Block;
use crate::utxo;
use crate::utxo::{BlockAction, Delta};
use crate::validate::TxProofs;
use num_bigint::BigUint;
use std::collections::{BTreeMap, VecDeque};
use vstd::prelude::*;

verus! {

/// How many of the last timestamps are kept.
pub const TIMESTAMP_WINDOW: usize = 11;

// ---------------------------------------------------------------------------
// Heights by hash
// ---------------------------------------------------------------------------

/// Heights by the hash of their block.
pub struct IdMap {
    entries: Vec<([u8; 32], usize)>,
}

/// What a list of insertions leaves behind.
pub open spec fn id_inserted(s: Seq<([u8; 32], usize)>) -> Map<Seq<u8>, usize>
    decreases s.len(),
{
    if s.len() == 0 {
        Map::empty()
    } else {
        id_inserted(s.drop_last()).insert(s.last().0@, s.last().1)
    }
}

proof fn lemma_id_last(s: Seq<([u8; 32], usize)>, n: int, id: Seq<u8>)
    requires
        0 <= n <= s.len(),
        forall|j: int| n <= j < s.len() ==> (#[trigger] s[j]).0@ != id,
    ensures
        id_inserted(s).dom().contains(id) == id_inserted(s.take(n)).dom().contains(id),
        id_inserted(s).dom().contains(id) ==> id_inserted(s)[id] == id_inserted(s.take(n))[id],
    decreases s.len() - n,
{
    if n < s.len() {
        lemma_id_last(s, n + 1, id);
        assert(s.take(n + 1).drop_last() =~= s.take(n));
        assert(s[n].0@ != id);
    } else {
        assert(s.take(n) =~= s);
    }
}

impl View for IdMap {
    type V = Map<Seq<u8>, usize>;

    closed spec fn view(&self) -> Map<Seq<u8>, usize> {
        id_inserted(self.entries@)
    }
}

impl IdMap {
    /// No height.
    pub fn new() -> (r: Self)
        ensures
            r@ == Map::<Seq<u8>, usize>::empty(),
    {
        IdMap { entries: Vec::new() }
    }

    /// Gives a hash a height.
    pub fn insert(&mut self, id: [u8; 32], height: usize)
        ensures
            final(self)@ == old(self)@.insert(id@, height),
    {
        let ghost before = self.entries@;
        self.entries.push((id, height));
        assert(self.entries@.drop_last() =~= before);
    }

    /// The height of a hash.
    pub fn get(&self, id: &[u8; 32]) -> (r: Option<usize>)
        ensures
            r == if self@.dom().contains(id@) {
                Some(self@[id@])
            } else {
                None
            },
    {
        let ghost s = self.entries@;
        let mut n: usize = self.entries.len();
        while n > 0
            invariant
                n <= self.entries@.len(),
                s == self.entries@,
                forall|j: int| n <= j < s.len() ==> (#[trigger] s[j]).0@ != id@,
            decreases n,
        {
            n -= 1;
            let e = &self.entries[n];
            proof {
                bytes::lemma_id_ext(e.0, *id);
            }
            if same32(&e.0, id) {
                proof {
                    lemma_id_last(s, n + 1, id@);
                    assert(s.take(n + 1).last() == s[n as int]);
                }
                return Some(e.1);
            }
        }
        proof {
            lemma_id_last(s, 0, id@);
            assert(s.take(0) =~= Seq::<([u8; 32], usize)>::empty());
        }
        None
    }
}

// ---------------------------------------------------------------------------
// The state in memory
// ---------------------------------------------------------------------------

/// What a node keeps of the chain in memory.
pub struct ChainState {
    /// Blocks by height.
    pub blocks: BTreeMap<usize, Block>,
    /// Hashes by height.
    pub height_to_hash: BTreeMap<usize, [u8; 32]>,
    /// Heights by hash.
    pub hash_to_height: IdMap,
    /// The work up to a height.
    pub cumulative_work: BTreeMap<usize, BigUint>,
    /// The times of the last blocks.
    pub timestamps: VecDeque<u32>,
    /// The combined hash of the unspent outputs.
    pub utxo_set_hash: [u8; 32],
    /// The supply.
    pub total_supply: u64,
}

/// What a [`ChainState`] says.
#[verifier::ext_equal]
pub struct StateView {
    pub blocks: Map<usize, tx::BlockView>,
    pub hashes: Map<usize, Seq<u8>>,
    pub heights: Map<Seq<u8>, usize>,
    pub work: Map<usize, nat>,
    pub timestamps: Seq<u32>,
    pub set_hash: Seq<u8>,
    pub supply: u64,
}

impl View for ChainState {
    type V = StateView;

    open spec fn view(&self) -> StateView {
        StateView {
            blocks: self.blocks@.map_values(|b: Block| b@),
            hashes: self.height_to_hash@.map_values(|h: [u8; 32]| h@),
            heights: self.hash_to_height@,
            work: self.cumulative_work@.map_values(|w: BigUint| big::big(w)),
            timestamps: self.timestamps@,
            set_hash: self.utxo_set_hash@,
            supply: self.total_supply,
        }
    }
}

/// Nothing yet.
pub open spec fn empty_state() -> StateView {
    StateView {
        blocks: Map::empty(),
        hashes: Map::empty(),
        heights: Map::empty(),
        work: Map::empty(),
        timestamps: Seq::empty(),
        set_hash: tx::zero_id(),
        supply: 0,
    }
}

/// The work up to a height, 0 where it is not known.
pub open spec fn work_at(s: StateView, height: usize) -> nat {
    if s.work.dom().contains(height) {
        s.work[height]
    } else {
        0
    }
}

/// The last timestamps, the oldest forgotten where they are too many.
pub open spec fn capped(times: Seq<u32>) -> Seq<u32> {
    if times.len() > TIMESTAMP_WINDOW {
        times.skip(1)
    } else {
        times
    }
}

/// What an action on a block changes in memory.
pub struct StateChanges {
    /// The height of the block.
    pub height: usize,
    /// The block.
    pub block: Block,
    /// The block's hash.
    pub hash: [u8; 32],
    /// The work up to the block.
    pub work: BigUint,
    /// The time that is added; `None` where the last one is taken away.
    pub timestamp: Option<u32>,
    /// The combined hash of the unspent outputs.
    pub utxo_set_hash: [u8; 32],
    /// The supply.
    pub total_supply: u64,
}

/// What [`StateChanges`] say.
pub struct ChangesView {
    pub height: usize,
    pub block: tx::BlockView,
    pub hash: Seq<u8>,
    pub work: nat,
    pub timestamp: Option<u32>,
    pub set_hash: Seq<u8>,
    pub supply: u64,
}

impl View for StateChanges {
    type V = ChangesView;

    open spec fn view(&self) -> ChangesView {
        ChangesView {
            height: self.height,
            block: self.block@,
            hash: self.hash@,
            work: big::big(self.work),
            timestamp: self.timestamp,
            set_hash: self.utxo_set_hash@,
            supply: self.total_supply,
        }
    }
}

/// The state after an action.
pub open spec fn changed(s: StateView, c: ChangesView) -> StateView {
    StateView {
        blocks: s.blocks.insert(c.height, c.block),
        hashes: s.hashes.insert(c.height, c.hash),
        heights: s.heights.insert(c.hash, c.height),
        work: s.work.insert(c.height, c.work),
        timestamps: match c.timestamp {
            Some(t) => capped(s.timestamps.push(t)),
            None => if s.timestamps.len() > 0 {
                s.timestamps.drop_last()
            } else {
                s.timestamps
            },
        },
        set_hash: c.set_hash,
        supply: c.supply,
    }
}

/// Adds a time, and forgets the oldest where they are too many.
pub fn push_time(times: &mut VecDeque<u32>, t: u32)
    ensures
        final(times)@ == capped(old(times)@.push(t)),
{
    times.push_back(t);
    if times.len() > TIMESTAMP_WINDOW {
        times.pop_front();
        assert(times@ =~= old(times)@.push(t).skip(1));
    }
}

impl ChainState {
    /// Nothing yet.
    pub fn new() -> (r: Self)
        ensures
            r@ == empty_state(),
    {
        let r = ChainState {
            blocks: BTreeMap::new(),
            height_to_hash: BTreeMap::new(),
            hash_to_height: IdMap::new(),
            cumulative_work: BTreeMap::new(),
            timestamps: VecDeque::new(),
            utxo_set_hash: tx::make_no_id(),
            total_supply: 0,
        };
        assert(r@.blocks =~= empty_state().blocks);
        assert(r@.hashes =~= empty_state().hashes);
        assert(r@.work =~= empty_state().work);
        assert(r@.timestamps =~= empty_state().timestamps);
        r
    }

    /// Records a hash and the work up to it at a height.
    pub fn record(&mut self, height: usize, hash: [u8; 32], work: BigUint)
        ensures
            final(self)@ == (StateView {
                hashes: old(self)@.hashes.insert(height, hash@),
                heights: old(self)@.heights.insert(hash@, height),
                work: old(self)@.work.insert(height, big::big(work)),
                ..old(self)@
            }),
    {
        broadcast use vstd::std_specs::btree::group_btree_axioms;

        let ghost before = self@;
        self.height_to_hash.insert(height, hash);
        self.hash_to_height.insert(hash, height);
        self.cumulative_work.insert(height, work);
        assert(self@.hashes =~= before.hashes.insert(height, hash@));
        assert(self@.work =~= before.work.insert(height, big::big(work)));
    }

    /// Keeps a block at a height.
    pub fn keep_block(&mut self, height: usize, block: Block)
        ensures
            final(self)@ == (StateView {
                blocks: old(self)@.blocks.insert(height, block@),
                ..old(self)@
            }),
    {
        broadcast use vstd::std_specs::btree::group_btree_axioms;

        let ghost before = self@;
        self.blocks.insert(height, block);
        assert(self@.blocks =~= before.blocks.insert(height, block@));
    }

    /// The work up to a height, 0 where it is not known.
    pub fn work_up_to(&self, height: usize) -> (r: BigUint)
        ensures
            big::big(r) == work_at(self@, height),
    {
        broadcast use vstd::std_specs::btree::group_btree_axioms;

        match self.cumulative_work.get(&height) {
            Some(w) => big_clone(w),
            None => crate::big::big_from(0),
        }
    }

    /// Makes the changes of an action.
    pub fn apply(&mut self, c: StateChanges)
        ensures
            final(self)@ == changed(old(self)@, c@),
    {
        let ghost before = self@;
        self.keep_block(c.height, c.block);
        self.record(c.height, c.hash, c.work);
        match c.timestamp {
            Some(t) => push_time(&mut self.timestamps, t),
            None => {
                self.timestamps.pop_back();
                assert(before.timestamps.len() > 0 ==> self.timestamps@
                    =~= before.timestamps.drop_last());
            },
        }
        self.utxo_set_hash = c.utxo_set_hash;
        self.total_supply = c.total_supply;
        assert(self@ =~= changed(before, c@));
    }
}

// ---------------------------------------------------------------------------
// What an action writes
// ---------------------------------------------------------------------------

/// The index of transactions is updated for the first `n` transactions of a
/// block.
pub open spec fn tx_index_ops(
    action: BlockAction,
    height: usize,
    txs: Seq<tx::TxView>,
    n: nat,
) -> Seq<store::OpView>
    decreases n,
{
    if n == 0 {
        Seq::empty()
    } else {
        let txid = tx::txid_of(txs[n - 1]);
        tx_index_ops(action, height, txs, (n - 1) as nat).push(
            match action {
                BlockAction::Connect => store::put(
                    Cf::TxIndex,
                    txid,
                    codec::enc_position((height as u64, (n - 1) as u64)),
                ),
                BlockAction::Disconnect => store::del(Cf::TxIndex, txid),
            },
        )
    }
}

/// The record of the header that connecting makes.
pub open spec fn header_ops(action: BlockAction, height: usize, b: tx::BlockView) -> Seq<
    store::OpView,
> {
    match action {
        BlockAction::Connect => seq![
            store::put(Cf::Default, keys::header_key(height), codec::enc_header(b.header)),
        ],
        BlockAction::Disconnect => Seq::empty(),
    }
}

/// What an action on a block writes: what it does to the unspent outputs, the
/// record of its header and the index of its transactions.
pub open spec fn block_ops(
    s: StateView,
    db: store::Db,
    b: tx::BlockView,
    height: usize,
    action: BlockAction,
    proofs: Seq<TxProofs>,
) -> Result<utxo::DeltaView, Fault> {
    match utxo::block_step(
        db,
        action,
        height,
        b,
        proofs,
        utxo::no_change(s.set_hash, s.supply),
    ) {
        Err(e) => Err(e),
        Ok(d) => Ok(
            utxo::DeltaView {
                ops: d.ops + header_ops(action, height, b) + tx_index_ops(
                    action,
                    height,
                    b.txs,
                    b.txs.len(),
                ),
                ..d
            },
        ),
    }
}

fn push_tx_index(ops: &mut Vec<Op>, action: BlockAction, height: usize, block: &Block)
    ensures
        store::ops_view(final(ops)@) == store::ops_view(old(ops)@) + tx_index_ops(
            action,
            height,
            block@.txs,
            block@.txs.len(),
        ),
{
    let ghost txs = block@.txs;
    let ghost start = store::ops_view(ops@);
    let mut i: usize = 0;
    assert(start =~= start + tx_index_ops(action, height, txs, 0));
    while i < block.txs.len()
        invariant
            i <= block.txs@.len(),
            txs == block@.txs,
            start == store::ops_view(old(ops)@),
            store::ops_view(ops@) == start + tx_index_ops(action, height, txs, i as nat),
        decreases block.txs@.len() - i,
    {
        assert(txs[i as int] == block.txs@[i as int]@);
        let txid = block.txs[i].hash();
        match action {
            BlockAction::Connect => {
                let v = serialize_position(height as u64, i as u64);
                push_op(ops, put_op(Cf::TxIndex, txid.as_slice(), v.as_slice()));
            },
            BlockAction::Disconnect => {
                push_op(ops, del_op(Cf::TxIndex, txid.as_slice()));
            },
        }
        assert(store::ops_view(ops@) =~= start + tx_index_ops(
            action,
            height,
            txs,
            (i + 1) as nat,
        ));
        i += 1;
    }
}

/// What an action on a block writes, from the totals of the state on.
pub fn build_block_ops(
    set_hash: [u8; 32],
    supply: u64,
    db: &Snapshot,
    block: &Block,
    height: usize,
    action: BlockAction,
    proofs: &Vec<TxProofs>,
) -> (r: Result<Delta, ChainError>)
    requires
        utxo::block_proofs_fit(block@, proofs@),
    ensures
        forall|s: StateView|
            s.set_hash == set_hash@ && s.supply == supply ==> match r {
                Ok(d) => #[trigger] block_ops(s, db@, block@, height, action, proofs@) == Ok::<
                    _,
                    Fault,
                >(d@),
                Err(e) => block_ops(s, db@, block@, height, action, proofs@) == Err::<
                    utxo::DeltaView,
                    _,
                >(e@),
            },
{
    let mut d = Delta::new(set_hash, supply);
    match d.apply_utxo_changes(db, action, height, block, proofs) {
        Ok(_) => {},
        Err(e) => {
            return Err(e);
        },
    }
    let ghost mid = d@;
    match action {
        BlockAction::Connect => {
            let key = make_header_key(height);
            let data = serialize_header(&block.header);
            push_op(&mut d.ops, put_op(Cf::Default, key.as_slice(), data.as_slice()));
            assert(d@.ops =~= mid.ops + header_ops(action, height, block@));
        },
        BlockAction::Disconnect => {
            assert(d@.ops =~= mid.ops + header_ops(action, height, block@));
        },
    }
    push_tx_index(&mut d.ops, action, height, block);
    Ok(d)
}

/// The sum of the subsidies after an action on the block at a height.
pub open spec fn issue_after(issued: u64, height: usize, action: BlockAction) -> int {
    match action {
        BlockAction::Connect => issued + params::subsidy_at(height as nat),
        BlockAction::Disconnect => issued - params::subsidy_at(height as nat),
    }
}

/// Whether the sum of the subsidies stays an amount through an action.
pub open spec fn issue_moves(db: store::Db, height: usize, action: BlockAction) -> bool {
    ledger::stored_issue(db) is Ok ==> 0 <= issue_after(
        ledger::stored_issue(db)->Ok_0,
        height,
        action,
    ) <= u64::MAX
}

/// What an action on a block is going to do: the writes, what takes them
/// back, and the changes in memory.
pub struct BlockPlan {
    /// The writes.
    pub ops: Vec<Op>,
    /// What takes them back, to be written the last first.
    pub undo: Vec<Op>,
    /// The changes in memory.
    pub changes: StateChanges,
    /// What is done with the block.
    pub action: BlockAction,
    /// Whether the block becomes the best one.
    pub is_best: bool,
}

/// What a [`BlockPlan`] says.
pub struct PlanView {
    pub ops: Seq<store::OpView>,
    pub undo: Seq<store::OpView>,
    pub changes: ChangesView,
    pub action: BlockAction,
    pub is_best: bool,
}

impl View for BlockPlan {
    type V = PlanView;

    open spec fn view(&self) -> PlanView {
        PlanView {
            ops: store::ops_view(self.ops@),
            undo: store::ops_view(self.undo@),
            changes: self.changes@,
            action: self.action,
            is_best: self.is_best,
        }
    }
}

/// The work up to the block at a height, given its own.
pub open spec fn work_with(s: StateView, height: usize, work: nat) -> nat {
    if height > 0 && s.work.dom().contains((height - 1) as usize) {
        s.work[(height - 1) as usize] + work
    } else {
        work
    }
}

/// What an action on a block is going to do. In memory the supply becomes the
/// sum of the subsidies.
pub open spec fn plan_of(
    s: StateView,
    db: store::Db,
    b: tx::BlockView,
    hash: Seq<u8>,
    height: usize,
    action: BlockAction,
    is_best: bool,
    work: nat,
    proofs: Seq<TxProofs>,
) -> Result<PlanView, Fault> {
    match block_ops(s, db, b, height, action, proofs) {
        Err(e) => Err(e),
        Ok(d) => match ledger::stored_issue(db) {
            Err(e) => Err(e),
            Ok(issued) => {
                let after = issue_after(issued, height, action) as u64;
                Ok(
                    PlanView {
                        ops: d.ops.push(
                            store::put(
                                Cf::Default,
                                keys::issued_key(),
                                bytes::le_bytes(after as nat, 8),
                            ),
                        ),
                        undo: d.undo,
                        changes: ChangesView {
                            height,
                            block: b,
                            hash,
                            work: work_with(s, height, work),
                            timestamp: match action {
                                BlockAction::Connect => Some(b.header.timestamp),
                                BlockAction::Disconnect => None,
                            },
                            set_hash: d.set_hash,
                            supply: after,
                        },
                        action,
                        is_best,
                    },
                )
            },
        },
    }
}

impl ChainState {
    /// What an action on a block is going to do.
    pub fn plan(
        &self,
        db: &Snapshot,
        block: &Block,
        hash: [u8; 32],
        height: usize,
        action: BlockAction,
        is_best: bool,
        work: &BigUint,
        proofs: &Vec<TxProofs>,
    ) -> (r: Result<BlockPlan, ChainError>)
        requires
            utxo::block_proofs_fit(block@, proofs@),
            issue_moves(db@, height, action),
        ensures
            ({
                let p = plan_of(
                    self@,
                    db@,
                    block@,
                    hash@,
                    height,
                    action,
                    is_best,
                    big::big(*work),
                    proofs@,
                );
                match r {
                    Ok(x) => p == Ok::<_, Fault>(x@),
                    Err(e) => p == Err::<PlanView, _>(e@),
                }
            }),
    {
        broadcast use vstd::std_specs::btree::group_btree_axioms;

        let mut d = match build_block_ops(
            self.utxo_set_hash,
            self.total_supply,
            db,
            block,
            height,
            action,
            proofs,
        ) {
            Ok(d) => d,
            Err(e) => {
                assert(block_ops(self@, db@, block@, height, action, proofs@) is Err);
                return Err(e);
            },
        };
        assert(block_ops(self@, db@, block@, height, action, proofs@) is Ok);
        let issued: u64 = match load_supply_from_db(db) {
            Ok(s) => s,
            Err(e) => {
                return Err(e);
            },
        };
        let after: u64 = match action {
            BlockAction::Connect => issued + subsidy(height),
            BlockAction::Disconnect => issued - subsidy(height),
        };
        let key = make_issued_key();
        let value = to_le(after as u128, 8);
        push_op(&mut d.ops, put_op(Cf::Default, key.as_slice(), value.as_slice()));
        let total = if height > 0 {
            match self.cumulative_work.get(&(height - 1)) {
                Some(prev) => big_add(prev, work),
                None => big_clone(work),
            }
        } else {
            big_clone(work)
        };
        let timestamp: Option<u32> = match action {
            BlockAction::Connect => Some(block.header.timestamp),
            BlockAction::Disconnect => None,
        };
        Ok(
            BlockPlan {
                ops: d.ops,
                undo: d.undo,
                changes: StateChanges {
                    height,
                    block: block.clone(),
                    hash,
                    work: total,
                    timestamp,
                    utxo_set_hash: d.set_hash,
                    total_supply: after,
                },
                action,
                is_best,
            },
        )
    }
}

// ---------------------------------------------------------------------------
// Saving and pruning
// ---------------------------------------------------------------------------

/// The writes that store a block as the best one. The height is recorded in 32
/// bits.
pub open spec fn save_ops(height: usize, b: tx::BlockView, hash: Seq<u8>) -> Seq<store::OpView> {
    seq![
        store::put(Cf::Default, keys::block_key(hash), codec::enc_block(b)),
        store::put(Cf::Default, keys::height_key(height), hash),
        store::put(Cf::Default, keys::tip_key(), hash),
        store::put(
            Cf::Default,
            keys::best_height_key(),
            bytes::be_bytes(height as nat % 0x1_0000_0000, 4),
        ),
    ]
}

/// The writes that store a block as the best one.
pub fn save_block(height: usize, block: &Block, hash: &[u8; 32]) -> (r: Vec<Op>)
    ensures
        store::ops_view(r@) == save_ops(height, block@, hash@),
{
    let mut ops: Vec<Op> = Vec::new();
    let key = make_block_key(hash.as_slice());
    let data = serialize_block(block);
    ops.push(put_op(Cf::Default, key.as_slice(), data.as_slice()));
    let key = make_height_key(height);
    ops.push(put_op(Cf::Default, key.as_slice(), hash.as_slice()));
    let key = make_tip_key();
    ops.push(put_op(Cf::Default, key.as_slice(), hash.as_slice()));
    let key = make_best_height_key();
    let v = to_be(height as u128 % 0x1_0000_0000, 4);
    ops.push(put_op(Cf::Default, key.as_slice(), v.as_slice()));
    assert(store::ops_view(ops@) =~= save_ops(height, block@, hash@));
    ops
}

/// A stored block can be loaded: after the writes that store it, the block at
/// its height is the block, and its height and hash are the best ones.
pub proof fn law_saved_block_loads(
    db: store::Db,
    height: usize,
    b: tx::BlockView,
    hash: Seq<u8>,
)
    requires
        hash.len() == 32,
        codec::enc_block(b).len() < bytes::pow256(8),
        height < 0x1_0000_0000,
    ensures
        ledger::block_at(store::write_all(db, save_ops(height, b, hash)), height) == Ok::<
            _,
            Fault,
        >(b),
        ledger::stored_height(store::write_all(db, save_ops(height, b, hash))) == Ok::<_, Fault>(
            height as nat,
        ),
        ledger::stored_tip(store::write_all(db, save_ops(height, b, hash))) == Ok::<_, Fault>(
            hash,
        ),
{
    reveal(ledger::block_at);
    let ops = save_ops(height, b, hash);
    bytes::lemma_be_bytes_len(height as nat, 8);
    bytes::lemma_be_bytes_len(height as nat % 0x1_0000_0000, 4);
    bytes::lemma_pow256_values();
    bytes::lemma_be_read_write(height as nat % 0x1_0000_0000, 4);
    let bk = keys::block_key(hash);
    let hk = keys::height_key(height);
    assert(bk.len() == 34);
    assert(hk.len() == 10);
    store::lemma_last_write(db, ops, 0);
    store::lemma_last_write(db, ops, 1);
    store::lemma_last_write(db, ops, 2);
    store::lemma_last_write(db, ops, 3);
    assert(codec::enc_block(b).is_prefix_of(codec::enc_block(b)));
    codec::law_read_block(b, codec::enc_block(b));
}

/// The entries of a transaction's first `n` outputs in the index by scripts
/// are deleted.
pub open spec fn unindex_ops(t: tx::TxView, n: nat) -> Seq<store::OpView>
    decreases n,
{
    if n == 0 {
        Seq::empty()
    } else {
        unindex_ops(t, (n - 1) as nat).push(
            store::del(
                Cf::AddrIndex,
                keys::addr_key(
                    hash::hash160_of(t.outputs[n - 1].script_pubkey),
                    tx::txid_of(t),
                    (n - 1) as u32,
                ),
            ),
        )
    }
}

/// The entries of the first `n` transactions' outputs in the index by scripts
/// are deleted; anonymous ones have none. The outputs are counted in 32 bits.
pub open spec fn unindex_txs(txs: Seq<tx::TxView>, n: nat) -> Seq<store::OpView>
    decreases n,
{
    if n == 0 {
        Seq::empty()
    } else {
        let before = unindex_txs(txs, (n - 1) as nat);
        if txs[n - 1].is_anonymous {
            before
        } else {
            before + unindex_ops(txs[n - 1], txs[n - 1].outputs.len() % 0x1_0000_0000)
        }
    }
}

/// The writes that forget a block: the block itself, and its entries in the
/// index by scripts.
pub open spec fn prune_ops(b: tx::BlockView, hash: Seq<u8>) -> Seq<store::OpView> {
    seq![store::del(Cf::Default, keys::block_key(hash))] + unindex_txs(b.txs, b.txs.len())
}

fn push_unindex(ops: &mut Vec<Op>, t: &tx::Transaction)
    ensures
        store::ops_view(final(ops)@) == store::ops_view(old(ops)@) + unindex_ops(
            t@,
            t@.outputs.len() % 0x1_0000_0000,
        ),
{
    let ghost start = store::ops_view(ops@);
    let txid = t.hash();
    let n: u32 = (t.outputs.len() as u64 % 0x1_0000_0000) as u32;
    let mut vout: u32 = 0;
    assert(start =~= start + unindex_ops(t@, 0));
    while vout < n
        invariant
            vout <= n,
            n <= t.outputs@.len(),
            start == store::ops_view(old(ops)@),
            txid@ == tx::txid_of(t@),
            store::ops_view(ops@) == start + unindex_ops(t@, vout as nat),
        decreases n - vout,
    {
        let out = &t.outputs[vout as usize];
        assert(t@.outputs[vout as int] == out@);
        let key = make_addr_key(&hash160(out.script_pubkey.as_slice()), &txid, vout);
        push_op(ops, del_op(Cf::AddrIndex, key.as_slice()));
        assert(store::ops_view(ops@) =~= start + unindex_ops(t@, (vout + 1) as nat));
        vout += 1;
    }
}

/// The writes that forget a block.
pub fn make_prune_ops(block: &Block, hash: &[u8; 32]) -> (r: Vec<Op>)
    ensures
        store::ops_view(r@) == prune_ops(block@, hash@),
{
    let ghost txs = block@.txs;
    let mut ops: Vec<Op> = Vec::new();
    let key = make_block_key(hash.as_slice());
    ops.push(del_op(Cf::Default, key.as_slice()));
    let ghost start = store::ops_view(ops@);
    assert(start =~= seq![store::del(Cf::Default, keys::block_key(hash@))]);
    let mut i: usize = 0;
    assert(start =~= start + unindex_txs(txs, 0));
    while i < block.txs.len()
        invariant
            i <= block.txs@.len(),
            txs == block@.txs,
            store::ops_view(ops@) == start + unindex_txs(txs, i as nat),
        decreases block.txs@.len() - i,
    {
        assert(txs[i as int] == block.txs@[i as int]@);
        if !block.txs[i].is_anonymous {
            push_unindex(&mut ops, &block.txs[i]);
        }
        assert(store::ops_view(ops@) =~= start + unindex_txs(txs, (i + 1) as nat));
        i += 1;
    }
    ops
}

impl ChainState {
    /// Whether every block that is kept has its hash recorded.
    pub open spec fn hashes_kept(&self) -> bool {
        forall|h: usize| #[trigger]
            self@.blocks.dom().contains(h) ==> self@.hashes.dom().contains(h)
    }

    /// Forgets the block at a height: in memory at once, in the database by
    /// the writes returned. The heights and hashes stay.
    pub fn prune(&mut self, height: usize) -> (r: Vec<Op>)
        requires
            old(self).hashes_kept(),
        ensures
            final(self)@ == (StateView {
                blocks: old(self)@.blocks.remove(height),
                ..old(self)@
            }),
            final(self).hashes_kept(),
            store::ops_view(r@) == if old(self)@.blocks.dom().contains(height) {
                prune_ops(old(self)@.blocks[height], old(self)@.hashes[height])
            } else {
                Seq::empty()
            },
    {
        broadcast use vstd::std_specs::btree::group_btree_axioms;

        let ghost before = self@;
        match self.blocks.remove(&height) {
            Some(block) => {
                assert(self@.blocks =~= before.blocks.remove(height));
                assert(before.blocks.dom().contains(height));
                match self.height_to_hash.get(&height) {
                    Some(hash) => make_prune_ops(&block, hash),
                    None => {
                        assert(before.hashes.dom().contains(height));
                        Vec::new()
                    },
                }
            },
            None => {
                let r: Vec<Op> = Vec::new();
                assert(self@.blocks =~= before.blocks.remove(height));
                assert(store::ops_view(r@) =~= Seq::<store::OpView>::empty());
                r
            },
        }
    }
}

// ---------------------------------------------------------------------------
// What is stored and kept afterwards
// ---------------------------------------------------------------------------

proof fn lemma_tx_index(
    db: store::Db,
    action: BlockAction,
    height: usize,
    txs: Seq<tx::TxView>,
    n: nat,
    cf: Cf,
    key: Seq<u8>,
)
    requires
        n <= txs.len(),
    ensures
        ({
            let after = store::write_all(db, tx_index_ops(action, height, txs, n));
            &&& cf != Cf::TxIndex ==> store::read(after, cf, key) == store::read(db, cf, key)
            &&& forall|i: int|
                0 <= i < n && (forall|j: int|
                    i < j < n ==> tx::txid_of(#[trigger] txs[j]) != tx::txid_of(txs[i]))
                    ==> store::read(after, Cf::TxIndex, tx::txid_of(#[trigger] txs[i]))
                    == match action {
                    BlockAction::Connect => Some(codec::enc_position((height as u64, i as u64))),
                    BlockAction::Disconnect => None,
                }
            &&& (forall|j: int| 0 <= j < n ==> tx::txid_of(#[trigger] txs[j]) != key)
                ==> store::read(after, Cf::TxIndex, key) == store::read(db, Cf::TxIndex, key)
        }),
    decreases n,
{
    if n > 0 {
        let m = (n - 1) as nat;
        let before = tx_index_ops(action, height, txs, m);
        let ops = tx_index_ops(action, height, txs, n);
        assert(ops.drop_last() =~= before);
        lemma_tx_index(db, action, height, txs, m, cf, key);
        let after = store::write_all(db, ops);
        assert forall|i: int|
            0 <= i < n && (forall|j: int|
                i < j < n ==> tx::txid_of(#[trigger] txs[j]) != tx::txid_of(txs[i])) implies
            store::read(after, Cf::TxIndex, tx::txid_of(#[trigger] txs[i])) == match action {
            BlockAction::Connect => Some(codec::enc_position((height as u64, i as u64))),
            BlockAction::Disconnect => None,
        } by {
            if i < m {
                assert(tx::txid_of(txs[n - 1]) != tx::txid_of(txs[i]));
                assert(forall|j: int|
                    i < j < m ==> tx::txid_of(#[trigger] txs[j]) != tx::txid_of(txs[i]));
            }
        }
    }
}

/// What an action on a block leaves stored: the outputs, key images, coinbases
/// and entries in the index by scripts as handling its transactions leaves
/// them; after connecting, the header at its height; for every transaction
/// where it is, its height and place, which are forgotten after disconnecting;
/// and the sum of the subsidies, with that of its height added or taken off.
pub proof fn law_action_is_stored(
    s: StateView,
    db: store::Db,
    b: tx::BlockView,
    hash: Seq<u8>,
    height: usize,
    action: BlockAction,
    is_best: bool,
    work: nat,
    proofs: Seq<TxProofs>,
    i: int,
    cf: Cf,
    key: Seq<u8>,
)
    requires
        plan_of(s, db, b, hash, height, action, is_best, work, proofs) is Ok,
        issue_moves(db, height, action),
        0 <= i < b.txs.len() < u64::MAX,
        forall|j: int|
            i < j < b.txs.len() ==> tx::txid_of(#[trigger] b.txs[j]) != tx::txid_of(b.txs[i]),
        cf != Cf::Default,
        cf != Cf::TxIndex,
    ensures
        ({
            let p = plan_of(s, db, b, hash, height, action, is_best, work, proofs)->Ok_0;
            let after = store::write_all(db, p.ops);
            let d = utxo::block_step(
                db,
                action,
                height,
                b,
                proofs,
                utxo::no_change(s.set_hash, s.supply),
            );
            let at = store::read(after, Cf::TxIndex, tx::txid_of(b.txs[i]));
            let header = store::read(after, Cf::Default, keys::header_key(height));
            let issued = store::read(after, Cf::Default, keys::issued_key());
            &&& d is Ok
            &&& store::read(after, cf, key) == store::read(
                store::write_all(db, d->Ok_0.ops),
                cf,
                key,
            )
            &&& action is Connect ==> header is Some && codec::read_header(header->0) == Some(
                b.header,
            )
            &&& action is Connect ==> at is Some && codec::read_position(at->0) == Some(
                (height as u64, i as u64),
            )
            &&& action is Disconnect ==> at is None
            &&& ledger::stored_issue(db) is Ok
            &&& issued is Some && issued->0.len() == 8
            &&& action is Connect ==> bytes::le_value(issued->0) == ledger::stored_issue(db)->Ok_0
                + params::subsidy_at(height as nat)
            &&& action is Disconnect ==> bytes::le_value(issued->0) == ledger::stored_issue(
                db,
            )->Ok_0 - params::subsidy_at(height as nat)
        }),
{
    let p = plan_of(s, db, b, hash, height, action, is_best, work, proofs)->Ok_0;
    let d = utxo::block_step(
        db,
        action,
        height,
        b,
        proofs,
        utxo::no_change(s.set_hash, s.supply),
    )->Ok_0;
    let head = header_ops(action, height, b);
    let index = tx_index_ops(action, height, b.txs, b.txs.len());
    let first = store::write_all(db, d.ops);
    let second = store::write_all(first, head);
    let third = store::write_all(second, index);
    let body = d.ops + head + index;
    store::lemma_write_append(db, d.ops, head);
    store::lemma_write_append(db, d.ops + head, index);
    assert(store::write_all(db, body) == third);
    assert(p.ops.drop_last() =~= body);
    let issued = issue_after(ledger::stored_issue(db)->Ok_0, height, action) as u64;
    let after = store::write_all(db, p.ops);
    assert(after == store::write(
        third,
        store::put(Cf::Default, keys::issued_key(), bytes::le_bytes(issued as nat, 8)),
    ));
    let hk = keys::header_key(height);
    bytes::lemma_be_bytes_len(height as nat, 8);
    assert(hk.len() == 12 && keys::issued_key().len() == 18);
    lemma_tx_index(second, action, height, b.txs, b.txs.len(), cf, key);
    lemma_tx_index(second, action, height, b.txs, b.txs.len(), Cf::Default, hk);
    match action {
        BlockAction::Connect => {
            let op = store::put(Cf::Default, hk, codec::enc_header(b.header));
            assert(head.drop_last() =~= Seq::<store::OpView>::empty());
            assert(store::write_all(first, head.drop_last()) == first);
            assert(second == store::write(first, op));
        },
        BlockAction::Disconnect => {
            assert(second == first);
        },
    }
    codec::law_read_header(b.header, codec::enc_header(b.header));
    let pos = codec::enc_position((height as u64, i as u64));
    codec::law_read_position((height as u64, i as u64), pos);
    bytes::lemma_le_bytes_len(issued as nat, 8);
    bytes::lemma_pow256_values();
    bytes::lemma_le_read_write(issued as nat, 8);
}

/// What an action on a block leaves in memory: the block at its height, with
/// its hash leading back to it and the work of the blocks up to it; of what is
/// kept at other heights nothing changes; its time is the last of those kept,
/// of which there are no more than eleven, where it is connected, and the last
/// one is dropped where it is disconnected; and the supply is the sum of the
/// subsidies.
pub proof fn law_action_is_remembered(
    s: StateView,
    db: store::Db,
    b: tx::BlockView,
    hash: Seq<u8>,
    height: usize,
    action: BlockAction,
    is_best: bool,
    work: nat,
    proofs: Seq<TxProofs>,
    other: usize,
)
    requires
        plan_of(s, db, b, hash, height, action, is_best, work, proofs) is Ok,
        issue_moves(db, height, action),
        other != height,
        s.timestamps.len() <= 11,
    ensures
        ({
            let p = plan_of(s, db, b, hash, height, action, is_best, work, proofs)->Ok_0;
            let t = changed(s, p.changes);
            let times = s.timestamps.push(b.header.timestamp);
            &&& p.changes.height == height && p.changes.hash == hash
            &&& p.action == action && p.is_best == is_best
            &&& t.blocks.dom().contains(height) && t.blocks[height] == b
            &&& t.hashes.dom().contains(height) && t.hashes[height] == hash
            &&& t.heights.dom().contains(hash) && t.heights[hash] == height
            &&& work_at(t, height) == work + if height > 0 {
                work_at(s, (height - 1) as usize)
            } else {
                0
            }
            &&& t.blocks.dom().contains(other) == s.blocks.dom().contains(other)
            &&& s.blocks.dom().contains(other) ==> t.blocks[other] == s.blocks[other]
            &&& t.hashes.dom().contains(other) == s.hashes.dom().contains(other)
            &&& s.hashes.dom().contains(other) ==> t.hashes[other] == s.hashes[other]
            &&& work_at(t, other) == work_at(s, other)
            &&& action is Connect ==> t.timestamps == if s.timestamps.len() < 11 {
                times
            } else {
                times.subrange(1, 12)
            }
            &&& action is Disconnect && s.timestamps.len() > 0 ==> t.timestamps
                == s.timestamps.subrange(0, s.timestamps.len() - 1)
            &&& action is Connect ==> t.supply == ledger::stored_issue(db)->Ok_0
                + params::subsidy_at(height as nat)
            &&& action is Disconnect ==> t.supply == ledger::stored_issue(db)->Ok_0
                - params::subsidy_at(height as nat)
        }),
{
    let times = s.timestamps.push(b.header.timestamp);
    if s.timestamps.len() == 11 {
        assert(times.skip(1) =~= times.subrange(1, 12));
    }
    if s.timestamps.len() > 0 {
        assert(s.timestamps.drop_last() =~= s.timestamps.subrange(0, s.timestamps.len() - 1));
    }
}

proof fn lemma_unindex(db: store::Db, t: tx::TxView, n: nat, cf: Cf, key: Seq<u8>)
    requires
        n <= t.outputs.len(),
        n <= u32::MAX,
    ensures
        ({
            let after = store::write_all(db, unindex_ops(t, n));
            &&& cf != Cf::AddrIndex ==> store::read(after, cf, key) == store::read(db, cf, key)
            &&& store::read(db, Cf::AddrIndex, key) is None ==> store::read(
                after,
                Cf::AddrIndex,
                key,
            ) is None
            &&& forall|i: int|
                0 <= i < n && key == keys::addr_key(
                    hash::hash160_of((#[trigger] t.outputs[i]).script_pubkey),
                    tx::txid_of(t),
                    i as u32,
                ) ==> store::read(after, Cf::AddrIndex, key) is None
        }),
    decreases n,
{
    if n > 0 {
        lemma_unindex(db, t, (n - 1) as nat, cf, key);
        assert(unindex_ops(t, n).drop_last() =~= unindex_ops(t, (n - 1) as nat));
    }
}

proof fn lemma_unindex_txs(db: store::Db, txs: Seq<tx::TxView>, n: nat, cf: Cf, key: Seq<u8>)
    requires
        n <= txs.len(),
    ensures
        ({
            let after = store::write_all(db, unindex_txs(txs, n));
            &&& cf != Cf::AddrIndex ==> store::read(after, cf, key) == store::read(db, cf, key)
            &&& store::read(db, Cf::AddrIndex, key) is None ==> store::read(
                after,
                Cf::AddrIndex,
                key,
            ) is None
            &&& forall|k: int, i: int|
                0 <= k < n && !txs[k].is_anonymous && 0 <= i < txs[k].outputs.len() <= u32::MAX
                    && key == keys::addr_key(
                    hash::hash160_of((#[trigger] txs[k].outputs[i]).script_pubkey),
                    tx::txid_of(txs[k]),
                    i as u32,
                ) ==> store::read(after, Cf::AddrIndex, key) is None
        }),
    decreases n,
{
    if n > 0 {
        let m = (n - 1) as nat;
        lemma_unindex_txs(db, txs, m, cf, key);
        let t = txs[n - 1];
        let before = unindex_txs(txs, m);
        let mid = store::write_all(db, before);
        if !t.is_anonymous {
            let k = t.outputs.len() % 0x1_0000_0000;
            store::lemma_write_append(db, before, unindex_ops(t, k));
            lemma_unindex(mid, t, k, cf, key);
            assert forall|j: int, i: int|
                0 <= j < n && !txs[j].is_anonymous && 0 <= i < txs[j].outputs.len() <= u32::MAX
                    && key == keys::addr_key(
                    hash::hash160_of((#[trigger] txs[j].outputs[i]).script_pubkey),
                    tx::txid_of(txs[j]),
                    i as u32,
                ) implies store::read(
                store::write_all(db, unindex_txs(txs, n)),
                Cf::AddrIndex,
                key,
            ) is None by {
                if j == n - 1 {
                    assert(k == t.outputs.len());
                    assert(t.outputs[i] == txs[j].outputs[i]);
                }
            }
        }
    }
}

/// Forgetting a block takes the block itself out of the database, and the
/// entries of its transparent outputs out of the index by scripts; the outputs
/// stay, and so does everything else that is no entry of that index.
pub proof fn law_pruned_block_is_gone(
    db: store::Db,
    b: tx::BlockView,
    hash: Seq<u8>,
    k: int,
    i: int,
    cf: Cf,
    key: Seq<u8>,
)
    requires
        0 <= k < b.txs.len(),
        !b.txs[k].is_anonymous,
        0 <= i < b.txs[k].outputs.len() <= u32::MAX,
        cf != Cf::AddrIndex,
        cf != Cf::Default || key != keys::block_key(hash),
    ensures
        ({
            let after = store::write_all(db, prune_ops(b, hash));
            &&& store::read(after, Cf::Default, keys::block_key(hash)) is None
            &&& store::read(
                after,
                Cf::AddrIndex,
                keys::addr_key(
                    hash::hash160_of(b.txs[k].outputs[i].script_pubkey),
                    tx::txid_of(b.txs[k]),
                    i as u32,
                ),
            ) is None
            &&& store::read(after, cf, key) == store::read(db, cf, key)
        }),
{
    let op = store::del(Cf::Default, keys::block_key(hash));
    let rest = unindex_txs(b.txs, b.txs.len());
    let mid = store::write_all(db, seq![op]);
    store::lemma_write_append(db, seq![op], rest);
    assert(seq![op].drop_last() =~= Seq::<store::OpView>::empty());
    assert(store::write_all(db, seq![op].drop_last()) == db);
    assert(mid == store::write(db, op));
    let addr = keys::addr_key(
        hash::hash160_of(b.txs[k].outputs[i].script_pubkey),
        tx::txid_of(b.txs[k]),
        i as u32,
    );
    lemma_unindex_txs(mid, b.txs, b.txs.len(), cf, key);
    lemma_unindex_txs(mid, b.txs, b.txs.len(), Cf::Default, keys::block_key(hash));
    lemma_unindex_txs(mid, b.txs, b.txs.len(), Cf::AddrIndex, addr);
}

} // verus!
