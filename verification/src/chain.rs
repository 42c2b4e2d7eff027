//! The chain: which block is the best one, and what a new block does.
use crate::anon::BatchVerdict;
use crate::big;
use crate::big::{big_add, big_div, big_from, big_le, big_mul};
use crate::bytes;
use crate::bytes::{from_be, read32};
use crate::cache::TargetCache;
use crate::codec;
use crate::consensus;
use crate::consensus::{check_body, check_time, check_work, validate_block, BlockContext};
use crate::errors;
use crate::errors::{other, ChainError, Fault};
use crate::journal;
use crate::journal::{build_reorg, end_reorg_journal, start_reorg_journal, ReorgJournal};
use crate::keys;
use crate::keys::{make_genesis_key, make_height_key, make_set_hash_key, make_supply_key};
use crate::ledger;
use crate::ledger::{
    are_bits_computable, are_times_readable, check_state, load_block_by_height,
    load_current_height, load_current_tip, load_header, validate_state_full,
    validate_supply_full,
};
use crate::mempool;
use crate::mempool::Mempool;
use crate::orphans;
use crate::orphans::{bound_orphans, insert_orphan, keep_fresh, Orphan};
use crate::params;
use crate::params::{subsidy, PRUNE_DEPTH, REORG_MAX_DEPTH};
use crate::state;
use crate::state::{push_time, save_block, BlockPlan, ChainState};
use crate::store;
use crate::store::{Cf, Op, Snapshot};
use crate::target;
use crate::target::{compact_to_target, target_work};
use crate::tx;
use crate::tx::{make_no_id, Block, BlockHeader};
use crate::utxo;
use crate::utxo::BlockAction;
use crate::validate::TxProofs;
use num_bigint::BigUint;
use std::collections::HashMap;
use vstd::prelude::*;

verus! {

/// How often taking writes back is tried.
pub const ROLLBACK_ATTEMPTS: u8 = 3;

/// How many headers are sent at once.
pub const MAX_HEADERS: usize = 2000;

/// After how many blocks the recorded supply is checked.
pub const STATE_CHECK_INTERVAL: usize = 1000;

/// What became of the writes of an action.
#[derive(Debug, Clone, Copy, PartialEq, Eq, Structural)]
pub enum WriteOutcome {
    /// They were made.
    Written,
    /// They failed, and what was made of them was taken back.
    RolledBack,
    /// They failed, and taking them back failed too.
    Stuck,
}

/// The chain.
pub struct Chain {
    /// What is kept in memory.
    pub state: ChainState,
    /// The hash of the best block.
    pub best_tip: [u8; 32],
    /// The height of the best block.
    pub best_height: usize,
    /// The blocks that wait for their predecessors.
    pub orphan_blocks: Vec<Orphan>,
    target_cache: TargetCache,
    genesis_hash: [u8; 32],
    batch_pending: bool,
    read_only_mode: bool,
    checkpoints: HashMap<usize, [u8; 32]>,
}

/// What a [`Chain`] says.
#[verifier::ext_equal]
pub struct ChainView {
    pub state: state::StateView,
    pub best_tip: Seq<u8>,
    pub best_height: usize,
    pub orphans: Seq<orphans::OrphanView>,
    pub genesis_hash: Seq<u8>,
    pub pending: bool,
    pub read_only: bool,
    pub checkpoints: Map<usize, [u8; 32]>,
}

impl View for Chain {
    type V = ChainView;

    closed spec fn view(&self) -> ChainView {
        ChainView {
            state: self.state@,
            best_tip: self.best_tip@,
            best_height: self.best_height,
            orphans: orphans::views(self.orphan_blocks@),
            genesis_hash: self.genesis_hash@,
            pending: self.batch_pending,
            read_only: self.read_only_mode,
            checkpoints: self.checkpoints@,
        }
    }
}

/// A chain with nothing on it.
pub open spec fn fresh_chain(
    genesis_hash: Seq<u8>,
    checkpoints: Map<usize, [u8; 32]>,
) -> ChainView {
    ChainView {
        state: state::empty_state(),
        best_tip: tx::zero_id(),
        best_height: 0,
        orphans: Seq::empty(),
        genesis_hash,
        pending: false,
        read_only: false,
        checkpoints,
    }
}

// ---------------------------------------------------------------------------
// Actions on blocks
// ---------------------------------------------------------------------------

/// Whether an action may begin: no other is under way, and the chain may still
/// be written to where a block is put on it.
pub open spec fn begin_fault(c: ChainView, action: BlockAction) -> Option<Fault> {
    if c.pending {
        Some(Fault::Other("Batch pending, cannot apply action"@))
    } else if c.read_only && action is Connect {
        Some(Fault::Other("Chain in read-only mode due to previous failure"@))
    } else {
        None
    }
}

/// The chain after an action has begun, which it stays until it is finished.
pub open spec fn begun(c: ChainView, action: BlockAction) -> ChainView {
    if begin_fault(c, action) is Some {
        c
    } else {
        ChainView { pending: true, ..c }
    }
}

/// What beginning an action on a block comes to.
pub open spec fn begin_result(
    c: ChainView,
    db: store::Db,
    b: tx::BlockView,
    hash: Seq<u8>,
    height: usize,
    action: BlockAction,
    is_best: bool,
    work: nat,
    proofs: Seq<TxProofs>,
) -> Result<state::PlanView, Fault> {
    match begin_fault(c, action) {
        Some(e) => Err(e),
        None => state::plan_of(c.state, db, b, hash, height, action, is_best, work, proofs),
    }
}

/// Whether finishing an action forgets a block: it is far enough behind a new
/// best one.
pub open spec fn prunes(p: state::PlanView) -> bool {
    p.action is Connect && p.is_best && p.changes.height > PRUNE_DEPTH
}

/// The height of the block that is forgotten.
pub open spec fn pruned_height(p: state::PlanView) -> usize {
    (p.changes.height - PRUNE_DEPTH) as usize
}

/// The chain after an action was finished.
pub open spec fn finished(c: ChainView, p: state::PlanView, outcome: WriteOutcome) -> ChainView {
    match outcome {
        WriteOutcome::RolledBack => c,
        WriteOutcome::Stuck => ChainView { read_only: true, ..c },
        WriteOutcome::Written => {
            let s = state::changed(c.state, p.changes);
            let best = p.action is Connect && p.is_best;
            ChainView {
                state: if prunes(p) {
                    state::StateView { blocks: s.blocks.remove(pruned_height(p)), ..s }
                } else {
                    s
                },
                best_tip: if best {
                    p.changes.hash
                } else {
                    c.best_tip
                },
                best_height: if best {
                    p.changes.height
                } else {
                    c.best_height
                },
                pending: false,
                ..c
            }
        },
    }
}

/// The writes that forgetting a block asks for.
pub open spec fn pruned_ops(c: ChainView, p: state::PlanView) -> Seq<store::OpView> {
    let s = state::changed(c.state, p.changes);
    let h = pruned_height(p);
    if prunes(p) && s.blocks.dom().contains(h) {
        state::prune_ops(s.blocks[h], s.hashes[h])
    } else {
        Seq::empty()
    }
}

/// What an action on a block came to, where the writes are made: the result,
/// the chain and the database.
pub struct Applied {
    pub result: Result<(), Fault>,
    pub chain: ChainView,
    pub db: store::Db,
}

/// What an action on a block comes to, where the writes are made.
pub open spec fn applied(
    c: ChainView,
    db: store::Db,
    b: tx::BlockView,
    hash: Seq<u8>,
    height: usize,
    action: BlockAction,
    is_best: bool,
    work: nat,
    proofs: Seq<TxProofs>,
) -> Applied {
    let c1 = begun(c, action);
    match begin_result(c, db, b, hash, height, action, is_best, work, proofs) {
        Err(e) => Applied { result: Err(e), chain: c1, db },
        Ok(p) => Applied {
            result: Ok(()),
            chain: finished(c1, p, WriteOutcome::Written),
            db: store::write_all(db, p.ops),
        },
    }
}

/// Whether taking writes back is tried once more, after some tries failed.
pub fn retry_rollback(failed: u8) -> (r: bool)
    ensures
        r == (failed < ROLLBACK_ATTEMPTS),
{
    failed < ROLLBACK_ATTEMPTS
}

impl Chain {
    /// Whether what is kept in memory fits together: every block that is kept
    /// has its hash, no block waits twice, and the cache is right.
    pub closed spec fn wf(&self) -> bool {
        &&& self.state.hashes_kept()
        &&& orphans::distinct(orphans::views(self.orphan_blocks@))
        &&& self.target_cache.wf()
    }

    /// What a block at a height is checked against.
    pub closed spec fn context(&self, height: usize, now: u32) -> BlockContext<'_> {
        BlockContext {
            best_height: self.best_height,
            height,
            now,
            checkpoints: &self.checkpoints,
        }
    }

    /// A block is checked against the chain's own height and checkpoints.
    pub proof fn law_checked_against_own_chain(&self, height: usize, now: u32)
        ensures
            self.context(height, now).best_height == self@.best_height,
            self.context(height, now).height == height,
            self.context(height, now).now == now,
            self.context(height, now).checkpoints@ == self@.checkpoints,
    {
    }

    /// A chain with nothing on it.
    fn empty(genesis_hash: [u8; 32], checkpoints: HashMap<usize, [u8; 32]>) -> (r: Self)
        ensures
            r.wf(),
            r@ == fresh_chain(genesis_hash@, checkpoints@),
    {
        let r = Chain {
            state: ChainState::new(),
            best_tip: make_no_id(),
            best_height: 0,
            orphan_blocks: Vec::new(),
            target_cache: TargetCache::new(),
            genesis_hash,
            batch_pending: false,
            read_only_mode: false,
            checkpoints,
        };
        assert(r@.orphans =~= Seq::<orphans::OrphanView>::empty());
        r
    }

    /// The hash of the first block.
    pub fn get_genesis_hash(&self) -> (r: [u8; 32])
        ensures
            r@ == self@.genesis_hash,
    {
        self.genesis_hash
    }

    /// The hash and the height of the best block.
    pub fn best(&self) -> (r: ([u8; 32], usize))
        ensures
            r.0@ == self@.best_tip,
            r.1 == self@.best_height,
    {
        (self.best_tip, self.best_height)
    }

    /// Whether the chain may no longer be written to.
    pub fn is_read_only(&self) -> (r: bool)
        ensures
            r == self@.read_only,
    {
        self.read_only_mode
    }

    /// Begins an action on a block: what it is going to do.
    pub fn begin_block_action(
        &mut self,
        db: &Snapshot,
        block: &Block,
        hash: [u8; 32],
        height: usize,
        action: BlockAction,
        is_best: bool,
        work: &BigUint,
        proofs: &Vec<TxProofs>,
    ) -> (r: Result<BlockPlan, ChainError>)
        requires
            old(self).wf(),
            utxo::block_proofs_fit(block@, proofs@),
            state::issue_moves(db@, height, action),
        ensures
            final(self).wf(),
            final(self)@ == begun(old(self)@, action),
            ({
                let p = begin_result(
                    old(self)@,
                    db@,
                    block@,
                    hash@,
                    height,
                    action,
                    is_best,
                    big::big(*work),
                    proofs@,
                );
                match r {
                    Ok(x) => p == Ok::<_, Fault>(x@),
                    Err(e) => p == Err::<state::PlanView, _>(e@),
                }
            }),
    {
        if self.batch_pending {
            return Err(other("Batch pending, cannot apply action"));
        }
        if self.read_only_mode && action == BlockAction::Connect {
            return Err(other("Chain in read-only mode due to previous failure"));
        }
        self.batch_pending = true;
        self.state.plan(db, block, hash, height, action, is_best, work, proofs)
    }

    /// Finishes an action, given what became of its writes: the writes that
    /// forgetting a block asks for.
    pub fn finish_block_action(&mut self, plan: BlockPlan, outcome: WriteOutcome) -> (r: Result<
        Vec<Op>,
        ChainError,
    >)
        requires
            old(self).wf(),
        ensures
            final(self).wf(),
            final(self)@ == finished(old(self)@, plan@, outcome),
            match r {
                Ok(ops) => outcome == WriteOutcome::Written && store::ops_view(ops@) == pruned_ops(
                    old(self)@,
                    plan@,
                ),
                Err(e) => outcome != WriteOutcome::Written && e@ == Fault::Other("Write error"@),
            },
    {
        match outcome {
            WriteOutcome::RolledBack => Err(other("Write error")),
            WriteOutcome::Stuck => {
                self.read_only_mode = true;
                Err(other("Write error"))
            },
            WriteOutcome::Written => {
                let ghost before = self@;
                let best = plan.action == BlockAction::Connect && plan.is_best;
                let height: usize = plan.changes.height;
                let hash = plan.changes.hash;
                self.state.apply(plan.changes);
                assert(self.state.hashes_kept());
                let mut ops: Vec<Op> = Vec::new();
                assert(store::ops_view(ops@) =~= Seq::<store::OpView>::empty());
                if best {
                    self.best_tip = hash;
                    self.best_height = height;
                    if height > PRUNE_DEPTH {
                        ops = self.state.prune(height - PRUNE_DEPTH);
                    }
                }
                self.batch_pending = false;
                Ok(ops)
            },
        }
    }

    /// Does an action on a block, the database being one in memory, which
    /// takes every write.
    pub fn apply_block_action(
        &mut self,
        db: &mut Snapshot,
        block: &Block,
        hash: [u8; 32],
        height: usize,
        action: BlockAction,
        is_best: bool,
        work: &BigUint,
        proofs: &Vec<TxProofs>,
    ) -> (r: Result<(), ChainError>)
        requires
            old(self).wf(),
            utxo::block_proofs_fit(block@, proofs@),
            state::issue_moves(old(db)@, height, action),
        ensures
            final(self).wf(),
            ({
                let a = applied(
                    old(self)@,
                    old(db)@,
                    block@,
                    hash@,
                    height,
                    action,
                    is_best,
                    big::big(*work),
                    proofs@,
                );
                &&& errors::verdict(r) == a.result
                &&& final(self)@ == a.chain
                &&& final(db)@ == a.db
            }),
    {
        match self.begin_block_action(db, block, hash, height, action, is_best, work, proofs) {
            Err(e) => Err(e),
            Ok(plan) => {
                db.apply_all(&plan.ops);
                match self.finish_block_action(plan, WriteOutcome::Written) {
                    Ok(_) => Ok(()),
                    Err(e) => Err(e),
                }
            },
        }
    }

    /// A chain with its first block on it.
    pub fn new(
        db: &mut Snapshot,
        genesis: &Block,
        genesis_hash: [u8; 32],
        proofs: &Vec<TxProofs>,
        checkpoints: HashMap<usize, [u8; 32]>,
    ) -> (r: Result<Self, ChainError>)
        requires
            utxo::block_proofs_fit(genesis@, proofs@),
            state::issue_moves(old(db)@, 0, BlockAction::Connect),
        ensures
            ({
                let bits = genesis@.header.bits;
                let a = applied(
                    fresh_chain(genesis_hash@, checkpoints@),
                    old(db)@,
                    genesis@,
                    genesis_hash@,
                    0,
                    BlockAction::Connect,
                    true,
                    target::work_of(bits),
                    proofs@,
                );
                if target::bits_accepted(bits) {
                    &&& final(db)@ == a.db
                    &&& match r {
                        Ok(c) => c.wf() && a.result is Ok && c@ == a.chain,
                        Err(e) => a.result == Err::<(), _>(e@),
                    }
                } else {
                    &&& final(db)@ == old(db)@
                    &&& r is Err
                    &&& r->Err_0@ == Fault::InvalidBlock("target exponent too large"@)
                }
            }),
    {
        let goal = match compact_to_target(genesis.header.bits) {
            Ok(t) => t,
            Err(e) => {
                return Err(e);
            },
        };
        let work = target_work(&goal);
        let mut chain = Chain::empty(genesis_hash, checkpoints);
        match chain.apply_block_action(
            db,
            genesis,
            genesis_hash,
            0,
            BlockAction::Connect,
            true,
            &work,
            proofs,
        ) {
            Ok(_) => Ok(chain),
            Err(e) => Err(e),
        }
    }
}

/// A chain begins at its first block: where the block can be put on it, the
/// block is the best one, at height zero, with its own work.
pub proof fn law_new_chain(
    db: store::Db,
    b: tx::BlockView,
    hash: Seq<u8>,
    proofs: Seq<TxProofs>,
    checkpoints: Map<usize, [u8; 32]>,
)
    requires
        applied(
            fresh_chain(hash, checkpoints),
            db,
            b,
            hash,
            0,
            BlockAction::Connect,
            true,
            target::work_of(b.header.bits),
            proofs,
        ).result is Ok,
    ensures
        ({
            let c = applied(
                fresh_chain(hash, checkpoints),
                db,
                b,
                hash,
                0,
                BlockAction::Connect,
                true,
                target::work_of(b.header.bits),
                proofs,
            ).chain;
            &&& c.best_height == 0
            &&& c.best_tip == hash
            &&& c.state.heights.dom().contains(hash)
            &&& c.state.heights[hash] == 0
            &&& state::work_at(c.state, 0) == target::work_of(b.header.bits)
            &&& !c.pending
        }),
{
}

/// Where an action fails before its writes, no other can begin.
pub proof fn law_failed_action_blocks(
    c: ChainView,
    db: store::Db,
    b: tx::BlockView,
    hash: Seq<u8>,
    height: usize,
    action: BlockAction,
    is_best: bool,
    work: nat,
    proofs: Seq<TxProofs>,
    next: BlockAction,
)
    requires
        !c.pending,
        begin_fault(c, action) is None,
        begin_result(c, db, b, hash, height, action, is_best, work, proofs) is Err,
    ensures
        begin_fault(
            applied(c, db, b, hash, height, action, is_best, work, proofs).chain,
            next,
        ) is Some,
{
}

// ---------------------------------------------------------------------------
// New blocks
// ---------------------------------------------------------------------------

/// What is to be done with a new block.
#[derive(Debug, Clone, Copy, PartialEq, Eq, Structural)]
pub enum Step {
    /// Nothing, it is known.
    Known,
    /// It waits for its predecessor.
    Wait,
    /// It becomes the best one, after as many blocks were taken off the chain.
    Reorg(usize, usize),
    /// It is put beside the best chain.
    Side(usize),
}

/// The seconds of a time in milliseconds, in 32 bits.
pub open spec fn seconds(now_ms: u128) -> u32 {
    ((now_ms as nat / 1000) % 0x1_0000_0000) as u32
}

/// Whether a new block is valid. Where the check cannot be carried through,
/// that is an error of its own.
pub open spec fn validated(
    c: ChainView,
    db: store::Db,
    b: tx::BlockView,
    hash: Seq<u8>,
    height: usize,
    now: u32,
    proofs: Seq<TxProofs>,
    batch: BatchVerdict,
) -> Result<(), Fault> {
    match consensus::work_verdict(b, hash) {
        Err(e) => Err(e),
        Ok(_) => if !ledger::bits_computable(db, height) {
            Err(Fault::Other("Validation panic"@))
        } else {
            match consensus::body_verdict(b, c.best_height, db, height, proofs, batch) {
                Err(e) => Err(e),
                Ok(_) => if !ledger::times_readable(db, (height - 1) as usize) || now
                    + consensus::MAX_TIME_AHEAD > u32::MAX {
                    Err(Fault::Other("Validation panic"@))
                } else {
                    consensus::time_verdict(
                        b.header.timestamp,
                        hash,
                        ledger::median_at(db, (height - 1) as usize),
                        now,
                        consensus::checkpoint_at(c.checkpoints, height),
                    )
                },
            }
        },
    }
}

/// What is to be done with a valid block after the one at `prev`: with it the
/// chain that it is on may have more work than the best one. Then that one
/// gives way, unless too many of its blocks would go.
pub open spec fn choice(c: ChainView, prev: usize, bits: u32) -> Result<Step, Fault> {
    let new_work = state::work_at(c.state, prev) + target::work_of(bits);
    let current = state::work_at(c.state, c.best_height);
    if new_work > current {
        if c.best_height - prev > REORG_MAX_DEPTH {
            Err(Fault::ReorgTooDeep)
        } else if new_work <= current * 99 / 100 {
            Err(Fault::ReorgTooDeep)
        } else {
            Ok(Step::Reorg((prev + 1) as usize, (c.best_height - prev) as usize))
        }
    } else {
        Ok(Step::Side((prev + 1) as usize))
    }
}

/// What is to be done with a new block.
pub open spec fn decision(
    c: ChainView,
    db: store::Db,
    b: tx::BlockView,
    hash: Seq<u8>,
    now_ms: u128,
    proofs: Seq<TxProofs>,
    batch: BatchVerdict,
) -> Result<Step, Fault> {
    if c.state.heights.dom().contains(hash) {
        Ok(Step::Known)
    } else if !c.state.heights.dom().contains(b.header.prev_hash@) {
        Ok(Step::Wait)
    } else {
        let prev = c.state.heights[b.header.prev_hash@];
        match validated(
            c,
            db,
            b,
            hash,
            (prev + 1) as usize,
            seconds(now_ms),
            proofs,
            batch,
        ) {
            Err(e) => Err(e),
            Ok(_) => choice(c, prev, b.header.bits),
        }
    }
}

/// Whether a block after the one at `prev` gives the chain that it is on more
/// work than the best one has.
pub open spec fn outweighs(c: ChainView, prev: usize, bits: u32) -> bool {
    target::bits_accepted(bits) && state::work_at(c.state, prev) + target::work_of(bits)
        > state::work_at(c.state, c.best_height)
}

/// Whether heights stay in range with a new block, and the one before it is
/// not above the best one where that one would give way.
pub open spec fn reorg_in_range(c: ChainView, b: tx::BlockView) -> bool {
    c.state.heights.dom().contains(b.header.prev_hash@) ==> {
        let prev = c.state.heights[b.header.prev_hash@];
        &&& prev < usize::MAX
        &&& c.best_height < usize::MAX
        &&& prev <= c.best_height || !outweighs(c, prev, b.header.bits)
    }
}

/// How many blocks are above a height.
pub open spec fn depth_above(c: ChainView, prev: usize) -> nat {
    if prev <= c.best_height {
        (c.best_height - prev) as nat
    } else {
        0
    }
}

/// Whether the findings about the blocks above the one before a new block are
/// there, and the sum of the subsidies stays an amount.
pub open spec fn branch_readable(
    c: ChainView,
    db: store::Db,
    b: tx::BlockView,
    old_proofs: Seq<Vec<TxProofs>>,
) -> bool {
    c.state.heights.dom().contains(b.header.prev_hash@) ==> {
        let prev = c.state.heights[b.header.prev_hash@];
        &&& journal::old_proofs_fit(db, c.best_height, depth_above(c, prev), old_proofs)
        &&& state::issue_moves(db, (prev + 1) as usize, BlockAction::Connect)
    }
}

/// The chain with a block that waits.
pub open spec fn with_waiting(
    c: ChainView,
    b: tx::BlockView,
    hash: Seq<u8>,
    now_ms: u128,
) -> ChainView {
    ChainView {
        orphans: orphans::bounded(
            orphans::with_orphan(
                c.orphans,
                orphans::OrphanView { hash, block: b, time: now_ms },
            ),
        ),
        ..c
    }
}

/// The journal of a reorganization.
pub open spec fn journal_for(
    c: ChainView,
    b: tx::BlockView,
    id: Seq<char>,
    depth: usize,
) -> journal::JournalView {
    journal::JournalView {
        id,
        old_height: c.best_height as u64,
        old_tip: bytes::as_id(c.best_tip),
        depth: depth as u64,
        block: b,
    }
}

/// What putting a block on the chain came to: whether it became the best one,
/// at which height it was stored, the chain and the database.
pub struct Added {
    pub result: Result<bool, Fault>,
    pub stored: Option<usize>,
    pub chain: ChainView,
    pub db: store::Db,
}

/// What putting a block beside the best one comes to, where the writes are made:
/// one that was connected is stored as the best one.
pub open spec fn put_beside(
    c: ChainView,
    db: store::Db,
    b: tx::BlockView,
    hash: Seq<u8>,
    height: usize,
    proofs: Seq<TxProofs>,
) -> Added {
    let a = applied(
        c,
        db,
        b,
        hash,
        height,
        BlockAction::Connect,
        false,
        target::work_of(b.header.bits),
        proofs,
    );
    match a.result {
        Err(e) => Added { result: Err(e), stored: None, chain: a.chain, db: a.db },
        Ok(_) => Added {
            result: Ok(false),
            stored: Some(height),
            chain: a.chain,
            db: store::write_all(a.db, state::save_ops(height, b, hash)),
        },
    }
}

/// What a reorganization comes to, where the writes are made. It is recorded in
/// the journal before anything else and removed from it after everything else;
/// in memory it changes the best height alone.
pub open spec fn reorganized(
    c: ChainView,
    db: store::Db,
    b: tx::BlockView,
    hash: Seq<u8>,
    id: Seq<char>,
    height: usize,
    depth: usize,
    proofs: Seq<TxProofs>,
    old_proofs: Seq<Vec<TxProofs>>,
) -> Added {
    let noted = store::write(db, journal::start_op(journal_for(c, b, id, depth)));
    match journal::reorg_ops(c.state, db, c.best_height, depth as nat, old_proofs, b, proofs) {
        Err(e) => Added { result: Err(e), stored: None, chain: c, db: noted },
        Ok(ops) => Added {
            result: Ok(true),
            stored: Some(height),
            chain: ChainView { best_height: height, ..c },
            db: store::write_all(
                store::write(
                    store::write_all(noted, ops),
                    store::del(Cf::Default, keys::journal_key(vstd::utf8::encode_utf8(id))),
                ),
                state::save_ops(height, b, hash),
            ),
        },
    }
}

/// What putting a block on the chain comes to, where the writes are made.
pub open spec fn added(
    c: ChainView,
    db: store::Db,
    b: tx::BlockView,
    hash: Seq<u8>,
    now_ms: u128,
    id: Seq<char>,
    proofs: Seq<TxProofs>,
    batch: BatchVerdict,
    old_proofs: Seq<Vec<TxProofs>>,
) -> Added {
    match decision(c, db, b, hash, now_ms, proofs, batch) {
        Err(e) => Added { result: Err(e), stored: None, chain: c, db },
        Ok(Step::Known) => Added { result: Ok(false), stored: None, chain: c, db },
        Ok(Step::Wait) => Added {
            result: Ok(false),
            stored: None,
            chain: with_waiting(c, b, hash, now_ms),
            db,
        },
        Ok(Step::Side(height)) => put_beside(c, db, b, hash, height, proofs),
        Ok(Step::Reorg(height, depth)) => reorganized(
            c,
            db,
            b,
            hash,
            id,
            height,
            depth,
            proofs,
            old_proofs,
        ),
    }
}

/// What a step to be taken tells of the block and the one before it.
proof fn lemma_step_told(
    c: ChainView,
    db: store::Db,
    b: tx::BlockView,
    hash: Seq<u8>,
    now_ms: u128,
    proofs: Seq<TxProofs>,
    batch: BatchVerdict,
)
    requires
        reorg_in_range(c, b),
    ensures
        ({
            let prev = c.state.heights[b.header.prev_hash@];
            match decision(c, db, b, hash, now_ms, proofs, batch) {
                Ok(Step::Side(height)) => {
                    &&& c.state.heights.dom().contains(b.header.prev_hash@)
                    &&& height == prev + 1
                    &&& target::bits_accepted(b.header.bits)
                },
                Ok(Step::Reorg(height, depth)) => {
                    &&& c.state.heights.dom().contains(b.header.prev_hash@)
                    &&& height == prev + 1
                    &&& depth == depth_above(c, prev)
                    &&& depth <= c.best_height < usize::MAX
                },
                _ => true,
            }
        }),
{
}

/// What adding a block came to: whether it became the best one, the chain, the
/// database and the pool.
pub struct Joined {
    pub result: Result<bool, Fault>,
    pub chain: ChainView,
    pub db: store::Db,
    pub pool: mempool::PoolView,
}

/// What checking the recorded supply after the block at a height comes to: it
/// is done at some heights only.
pub open spec fn interval_verdict(c: ChainView, db: store::Db, height: usize) -> Result<(), Fault> {
    if height % STATE_CHECK_INTERVAL == 0 {
        ledger::state_verdict(db, c.state.supply)
    } else {
        Ok(())
    }
}

/// What adding a block comes to, where the writes are made. The transactions of
/// a block that was stored leave the pool. Then, where no block waits, the
/// recorded supply is checked.
pub open spec fn joined(
    c: ChainView,
    db: store::Db,
    p: mempool::PoolView,
    b: tx::BlockView,
    hash: Seq<u8>,
    now_ms: u128,
    id: Seq<char>,
    proofs: Seq<TxProofs>,
    batch: BatchVerdict,
    old_proofs: Seq<Vec<TxProofs>>,
) -> Joined {
    let a = added(c, db, b, hash, now_ms, id, proofs, batch, old_proofs);
    match a.stored {
        None => Joined { result: a.result, chain: a.chain, db: a.db, pool: p },
        Some(height) => {
            let (q, ok) = mempool::removals(p, tx::txids(b.txs));
            Joined {
                result: if !ok {
                    Err(Fault::Other("Mempool stuck"@))
                } else if a.chain.orphans.len() > 0 {
                    a.result
                } else {
                    match interval_verdict(a.chain, a.db, height) {
                        Ok(_) => a.result,
                        Err(e) => Err(e),
                    }
                },
                chain: a.chain,
                db: a.db,
                pool: q,
            }
        },
    }
}

impl Chain {
    fn check_new_block(
        &self,
        db: &Snapshot,
        block: &Block,
        hash: &[u8; 32],
        height: usize,
        now: u32,
        proofs: &Vec<TxProofs>,
        batch: BatchVerdict,
    ) -> (r: Result<(), ChainError>)
        requires
            utxo::block_proofs_fit(block@, proofs@),
            height >= 1,
        ensures
            errors::verdict(r) == validated(
                self@,
                db@,
                block@,
                hash@,
                height,
                now,
                proofs@,
                batch,
            ),
    {
        match check_work(block, hash) {
            Ok(_) => {},
            Err(e) => {
                return Err(e);
            },
        }
        if !are_bits_computable(db, height) {
            return Err(other("Validation panic"));
        }
        match check_body(block, self.best_height, db, height, proofs, batch) {
            Ok(_) => {},
            Err(e) => {
                return Err(e);
            },
        }
        if !are_times_readable(db, height - 1) || now > u32::MAX - consensus::MAX_TIME_AHEAD {
            return Err(other("Validation panic"));
        }
        let context = BlockContext {
            best_height: self.best_height,
            height,
            now,
            checkpoints: &self.checkpoints,
        };
        check_time(block, hash, &context, db)
    }

    fn choose_step(&mut self, prev: usize, bits: u32) -> (r: Result<Step, ChainError>)
        requires
            old(self).wf(),
            target::bits_accepted(bits),
            prev < usize::MAX,
            prev <= old(self)@.best_height || !outweighs(old(self)@, prev, bits),
        ensures
            final(self).wf(),
            final(self)@ == old(self)@,
            match r {
                Ok(s) => choice(old(self)@, prev, bits) == Ok::<_, Fault>(s),
                Err(e) => choice(old(self)@, prev, bits) == Err::<Step, _>(e@),
            },
    {
        let goal = match self.target_cache.target(bits) {
            Ok(t) => t,
            Err(e) => {
                return Err(e);
            },
        };
        let new_work = big_add(&self.state.work_up_to(prev), &target_work(&goal));
        let current = self.state.work_up_to(self.best_height);
        if !big_le(&new_work, &current) {
            let depth: usize = self.best_height - prev;
            if depth > REORG_MAX_DEPTH {
                return Err(ChainError::ReorgTooDeep);
            }
            let floor = big_div(&big_mul(&current, &big_from(99)), &big_from(100));
            if big_le(&new_work, &floor) {
                return Err(ChainError::ReorgTooDeep);
            }
            Ok(Step::Reorg(prev + 1, depth))
        } else {
            Ok(Step::Side(prev + 1))
        }
    }

    /// Whether heights stay in range with a new block, and the one before it
    /// is not above the best one where that one would give way.
    pub fn stays_in_range(&self, block: &Block) -> (r: bool)
        ensures
            r == reorg_in_range(self@, block@),
    {
        let prev: usize = match self.state.hash_to_height.get(&block.header.prev_hash) {
            Some(h) => h,
            None => {
                return true;
            },
        };
        if prev == usize::MAX || self.best_height == usize::MAX {
            return false;
        }
        if prev <= self.best_height {
            return true;
        }
        match compact_to_target(block.header.bits) {
            Ok(goal) => {
                let new_work = big_add(&self.state.work_up_to(prev), &target_work(&goal));
                big_le(&new_work, &self.state.work_up_to(self.best_height))
            },
            Err(_) => true,
        }
    }

    /// What is to be done with a new block. One that waits is kept.
    pub fn decide_block(
        &mut self,
        db: &Snapshot,
        block: &Block,
        hash: [u8; 32],
        now_ms: u128,
        proofs: &Vec<TxProofs>,
        batch: BatchVerdict,
    ) -> (r: Result<Step, ChainError>)
        requires
            old(self).wf(),
            utxo::block_proofs_fit(block@, proofs@),
            reorg_in_range(old(self)@, block@),
        ensures
            final(self).wf(),
            final(self)@ == if r == Ok::<_, ChainError>(Step::Wait) {
                with_waiting(old(self)@, block@, hash@, now_ms)
            } else {
                old(self)@
            },
            match r {
                Ok(s) => decision(
                    old(self)@,
                    db@,
                    block@,
                    hash@,
                    now_ms,
                    proofs@,
                    batch,
                ) == Ok::<_, Fault>(s),
                Err(e) => decision(
                    old(self)@,
                    db@,
                    block@,
                    hash@,
                    now_ms,
                    proofs@,
                    batch,
                ) == Err::<Step, _>(e@),
            },
    {
        if self.state.hash_to_height.get(&hash).is_some() {
            return Ok(Step::Known);
        }
        let prev: usize = match self.state.hash_to_height.get(&block.header.prev_hash) {
            Some(h) => h,
            None => {
                insert_orphan(
                    &mut self.orphan_blocks,
                    Orphan { hash, block: block.clone(), time: now_ms },
                );
                bound_orphans(&mut self.orphan_blocks);
                return Ok(Step::Wait);
            },
        };
        let now: u32 = ((now_ms / 1000) % 0x1_0000_0000) as u32;
        match self.check_new_block(db, block, &hash, prev + 1, now, proofs, batch) {
            Ok(_) => {},
            Err(e) => {
                return Err(e);
            },
        }
        self.choose_step(prev, block.header.bits)
    }

    /// The journal of a reorganization that puts a block on the chain.
    pub fn reorg_journal(&self, journal_id: &str, depth: usize, block: &Block) -> (r: ReorgJournal)
        ensures
            r@ == journal_for(self@, block@, journal_id@, depth),
    {
        proof {
            bytes::lemma_as_id(self.best_tip);
        }
        ReorgJournal {
            journal_id: journal_id.to_string(),
            old_tip_height: self.best_height as u64,
            old_tip_hash: self.best_tip,
            disconnect_depth: depth as u64,
            new_block: block.clone(),
        }
    }

    /// What a reorganization writes.
    pub fn reorg_writes(
        &self,
        db: &Snapshot,
        depth: usize,
        old_proofs: &Vec<Vec<TxProofs>>,
        block: &Block,
        proofs: &Vec<TxProofs>,
    ) -> (r: Result<Vec<Op>, ChainError>)
        requires
            depth <= self@.best_height < usize::MAX,
            journal::old_proofs_fit(db@, self@.best_height, depth as nat, old_proofs@),
            utxo::block_proofs_fit(block@, proofs@),
        ensures
            match r {
                Ok(ops) => journal::reorg_ops(
                    self@.state,
                    db@,
                    self@.best_height,
                    depth as nat,
                    old_proofs@,
                    block@,
                    proofs@,
                ) == Ok::<_, Fault>(store::ops_view(ops@)),
                Err(e) => journal::reorg_ops(
                    self@.state,
                    db@,
                    self@.best_height,
                    depth as nat,
                    old_proofs@,
                    block@,
                    proofs@,
                ) == Err::<Seq<store::OpView>, _>(e@),
            },
    {
        build_reorg(
            self.state.utxo_set_hash,
            self.state.total_supply,
            db,
            self.best_height,
            depth,
            old_proofs,
            block,
            proofs,
        )
    }

    /// Records that a reorganization was written.
    pub fn finish_reorg(&mut self, height: usize)
        requires
            old(self).wf(),
        ensures
            final(self).wf(),
            final(self)@ == (ChainView { best_height: height, ..old(self)@ }),
    {
        self.best_height = height;
    }

    /// Puts a block beside the best one.
    fn place_beside(
        &mut self,
        db: &mut Snapshot,
        block: &Block,
        hash: [u8; 32],
        height: usize,
        proofs: &Vec<TxProofs>,
    ) -> (r: Result<(bool, Option<usize>), ChainError>)
        requires
            old(self).wf(),
            utxo::block_proofs_fit(block@, proofs@),
            state::issue_moves(old(db)@, height, BlockAction::Connect),
            target::bits_accepted(block@.header.bits),
        ensures
            final(self).wf(),
            ({
                let a = put_beside(old(self)@, old(db)@, block@, hash@, height, proofs@);
                &&& final(self)@ == a.chain
                &&& final(db)@ == a.db
                &&& match r {
                    Ok(x) => a.result == Ok::<_, Fault>(x.0) && a.stored == x.1,
                    Err(e) => a.result == Err::<bool, _>(e@) && a.stored is None,
                }
            }),
    {
        let goal = match compact_to_target(block.header.bits) {
            Ok(t) => t,
            Err(e) => {
                return Err(e);
            },
        };
        let work = target_work(&goal);
        match self.apply_block_action(
            db,
            block,
            hash,
            height,
            BlockAction::Connect,
            false,
            &work,
            proofs,
        ) {
            Ok(_) => {},
            Err(e) => {
                return Err(e);
            },
        }
        let ops = save_block(height, block, &hash);
        db.apply_all(&ops);
        Ok((false, Some(height)))
    }

    /// Puts a block in the place of the best ones above the one before it.
    fn reorganize(
        &mut self,
        db: &mut Snapshot,
        block: &Block,
        hash: [u8; 32],
        journal_id: &str,
        height: usize,
        depth: usize,
        proofs: &Vec<TxProofs>,
        old_proofs: &Vec<Vec<TxProofs>>,
    ) -> (r: Result<(bool, Option<usize>), ChainError>)
        requires
            old(self).wf(),
            utxo::block_proofs_fit(block@, proofs@),
            depth <= old(self)@.best_height < usize::MAX,
            journal::old_proofs_fit(
                old(db)@,
                old(self)@.best_height,
                depth as nat,
                old_proofs@,
            ),
        ensures
            final(self).wf(),
            ({
                let a = reorganized(
                    old(self)@,
                    old(db)@,
                    block@,
                    hash@,
                    journal_id@,
                    height,
                    depth,
                    proofs@,
                    old_proofs@,
                );
                &&& final(self)@ == a.chain
                &&& final(db)@ == a.db
                &&& match r {
                    Ok(x) => a.result == Ok::<_, Fault>(x.0) && a.stored == x.1,
                    Err(e) => a.result == Err::<bool, _>(e@) && a.stored is None,
                }
            }),
    {
        let journal = self.reorg_journal(journal_id, depth, block);
        let writes = self.reorg_writes(db, depth, old_proofs, block, proofs);
        db.apply(start_reorg_journal(&journal));
        match writes {
            Err(e) => Err(e),
            Ok(ops) => {
                db.apply_all(&ops);
                db.apply(end_reorg_journal(journal_id));
                self.finish_reorg(height);
                let ops = save_block(height, block, &hash);
                db.apply_all(&ops);
                Ok((true, Some(height)))
            },
        }
    }

    /// Puts a block on the chain: whether it became the best one, and at which
    /// height it was stored.
    fn place_block(
        &mut self,
        db: &mut Snapshot,
        block: &Block,
        hash: [u8; 32],
        now_ms: u128,
        journal_id: &str,
        proofs: &Vec<TxProofs>,
        batch: BatchVerdict,
        old_proofs: &Vec<Vec<TxProofs>>,
    ) -> (r: Result<(bool, Option<usize>), ChainError>)
        requires
            old(self).wf(),
            utxo::block_proofs_fit(block@, proofs@),
            reorg_in_range(old(self)@, block@),
            branch_readable(old(self)@, old(db)@, block@, old_proofs@),
        ensures
            final(self).wf(),
            ({
                let a = added(
                    old(self)@,
                    old(db)@,
                    block@,
                    hash@,
                    now_ms,
                    journal_id@,
                    proofs@,
                    batch,
                    old_proofs@,
                );
                &&& final(self)@ == a.chain
                &&& final(db)@ == a.db
                &&& match r {
                    Ok(x) => a.result == Ok::<_, Fault>(x.0) && a.stored == x.1,
                    Err(e) => a.result == Err::<bool, _>(e@) && a.stored is None,
                }
            }),
    {
        proof {
            lemma_step_told(self@, db@, block@, hash@, now_ms, proofs@, batch);
        }
        match self.decide_block(db, block, hash, now_ms, proofs, batch) {
            Err(e) => Err(e),
            Ok(Step::Known) => Ok((false, None)),
            Ok(Step::Wait) => Ok((false, None)),
            Ok(Step::Side(height)) => self.place_beside(db, block, hash, height, proofs),
            Ok(Step::Reorg(height, depth)) => self.reorganize(
                db,
                block,
                hash,
                journal_id,
                height,
                depth,
                proofs,
                old_proofs,
            ),
        }
    }

    /// Adds a block, the database being one in memory, which takes every write.
    /// Its transactions leave the pool; where they cannot, the pool is stuck.
    /// Where blocks wait they are left waiting, and are to be tried before
    /// [`Chain::check_after_block`]; where none waits, that check is made.
    pub fn add_block(
        &mut self,
        db: &mut Snapshot,
        pool: &mut Mempool,
        block: &Block,
        hash: [u8; 32],
        now_ms: u128,
        journal_id: &str,
        proofs: &Vec<TxProofs>,
        batch: BatchVerdict,
        old_proofs: &Vec<Vec<TxProofs>>,
    ) -> (r: Result<bool, ChainError>)
        requires
            old(self).wf(),
            old(pool).wf(),
            utxo::block_proofs_fit(block@, proofs@),
            reorg_in_range(old(self)@, block@),
            branch_readable(old(self)@, old(db)@, block@, old_proofs@),
        ensures
            final(self).wf(),
            final(pool).wf(),
            ({
                let a = joined(
                    old(self)@,
                    old(db)@,
                    old(pool)@,
                    block@,
                    hash@,
                    now_ms,
                    journal_id@,
                    proofs@,
                    batch,
                    old_proofs@,
                );
                &&& final(self)@ == a.chain
                &&& final(db)@ == a.db
                &&& final(pool)@ == a.pool
                &&& match r {
                    Ok(x) => a.result == Ok::<_, Fault>(x),
                    Err(e) => a.result == Err::<bool, _>(e@),
                }
            }),
    {
        match self.place_block(db, block, hash, now_ms, journal_id, proofs, batch, old_proofs) {
            Err(e) => Err(e),
            Ok((best, None)) => Ok(best),
            Ok((best, Some(height))) => {
                if !pool.remove_block(block) {
                    return Err(other("Mempool stuck"));
                }
                if self.orphan_blocks.len() > 0 {
                    return Ok(best);
                }
                match self.check_after_block(db, height) {
                    Ok(_) => Ok(best),
                    Err(e) => Err(e),
                }
            },
        }
    }

    /// The block at a height.
    pub fn load_block_from_db(&self, db: &Snapshot, height: usize) -> (r: Result<Block, ChainError>)
        ensures
            match r {
                Ok(b) => ledger::block_at(db@, height) == Ok::<_, Fault>(b@),
                Err(e) => ledger::block_at(db@, height) == Err::<tx::BlockView, _>(e@),
            },
    {
        load_block_by_height(db, height)
    }

    /// The header at a height.
    pub fn load_header(&self, db: &Snapshot, height: usize) -> (r: Result<BlockHeader, ChainError>)
        ensures
            match r {
                Ok(h) => ledger::header_at(db@, height) == Ok::<_, Fault>(h),
                Err(e) => ledger::header_at(db@, height) == Err::<BlockHeader, _>(e@),
            },
    {
        load_header(db, height)
    }

    /// What saving a block at a height writes.
    pub fn save_block(&self, height: usize, block: &Block, hash: &[u8; 32]) -> (r: Vec<Op>)
        ensures
            store::ops_view(r@) == state::save_ops(height, block@, hash@),
    {
        save_block(height, block, hash)
    }

    /// Whether a block is valid at a height.
    pub fn validate_block(
        &self,
        block: &Block,
        hash: &[u8; 32],
        height: usize,
        now: u32,
        db: &Snapshot,
        proofs: &Vec<TxProofs>,
        batch: BatchVerdict,
    ) -> (r: Result<(), ChainError>)
        requires
            consensus::block_checkable(
                block@,
                hash@,
                self.context(height, now),
                db@,
                proofs@,
                batch,
            ),
            utxo::block_proofs_fit(block@, proofs@),
        ensures
            errors::verdict(r) == consensus::block_verdict(
                block@,
                hash@,
                self.context(height, now),
                db@,
                proofs@,
                batch,
            ),
    {
        let context = BlockContext {
            best_height: self.best_height,
            height,
            now,
            checkpoints: &self.checkpoints,
        };
        validate_block(block, hash, &context, db, proofs, batch)
    }

    /// Whether the unspent outputs come to what was issued, or the block at
    /// the best height is to blame.
    pub fn validate_state_full(&self, utxos: &Vec<Vec<u8>>, anonymous: &Vec<Vec<u8>>) -> (r: Result<
        (),
        ChainError,
    >)
        ensures
            errors::verdict(r) == ledger::supply_verdict(
                utxos@,
                anonymous@,
                self@.best_height,
                Fault::InvalidBlock("Supply mismatch"@),
            ),
    {
        validate_state_full(utxos, anonymous, self.best_height)
    }

    /// Whether the unspent outputs come to what was issued.
    pub fn validate_supply_full(&self, utxos: &Vec<Vec<u8>>, anonymous: &Vec<Vec<u8>>) -> (r:
        Result<(), ChainError>)
        ensures
            errors::verdict(r) == ledger::supply_verdict(
                utxos@,
                anonymous@,
                self@.best_height,
                Fault::SupplyMismatch,
            ),
    {
        validate_supply_full(utxos, anonymous, self.best_height)
    }

    /// Whether the recorded sum of the unspent outputs is the one in memory.
    pub fn validate_state(&self, db: &Snapshot) -> (r: Result<(), ChainError>)
        ensures
            errors::verdict(r) == ledger::state_verdict(db@, self@.state.supply),
    {
        check_state(db, self.state.total_supply)
    }

    /// Checks the recorded supply after the block at a height, which is done at
    /// some heights only.
    pub fn check_after_block(&self, db: &Snapshot, height: usize) -> (r: Result<(), ChainError>)
        ensures
            errors::verdict(r) == interval_verdict(self@, db@, height),
    {
        if height % STATE_CHECK_INTERVAL == 0 {
            self.validate_state(db)
        } else {
            Ok(())
        }
    }

    /// Hands out the waiting blocks: without those that have waited too long,
    /// and without the oldest where they are too many.
    pub fn process_orphans(&mut self, now_ms: u128) -> (r: Vec<Orphan>)
        requires
            old(self).wf(),
        ensures
            final(self).wf(),
            final(self)@ == (ChainView { orphans: Seq::empty(), ..old(self)@ }),
            orphans::views(r@) == orphans::bounded(
                orphans::fresh(old(self)@.orphans, now_ms, old(self)@.orphans.len()),
            ),
    {
        let ghost before = self@;
        let mut kept = keep_fresh(&self.orphan_blocks, now_ms);
        proof {
            orphans::lemma_fresh_distinct(before.orphans, now_ms, before.orphans.len());
        }
        bound_orphans(&mut kept);
        self.orphan_blocks = Vec::new();
        assert(self@.orphans =~= Seq::<orphans::OrphanView>::empty());
        kept
    }

    /// Makes a block wait.
    pub fn restore_orphan(&mut self, orphan: Orphan)
        requires
            old(self).wf(),
        ensures
            final(self).wf(),
            final(self)@ == (ChainView {
                orphans: orphans::with_orphan(old(self)@.orphans, orphan@),
                ..old(self)@
            }),
    {
        insert_orphan(&mut self.orphan_blocks, orphan);
    }
}

/// More work wins: a valid block whose chain has no more work than the best
/// one never becomes the best one.
pub proof fn law_more_work_wins(
    c: ChainView,
    db: store::Db,
    b: tx::BlockView,
    hash: Seq<u8>,
    now_ms: u128,
    id: Seq<char>,
    proofs: Seq<TxProofs>,
    batch: BatchVerdict,
    old_proofs: Seq<Vec<TxProofs>>,
)
    requires
        reorg_in_range(c, b),
        added(c, db, b, hash, now_ms, id, proofs, batch, old_proofs).result == Ok::<_, Fault>(
            true,
        ),
    ensures
        c.state.heights.dom().contains(b.header.prev_hash@),
        ({
            let prev = c.state.heights[b.header.prev_hash@];
            &&& state::work_at(c.state, prev) + target::work_of(b.header.bits) > state::work_at(
                c.state,
                c.best_height,
            )
            &&& c.best_height - prev <= REORG_MAX_DEPTH
            &&& added(c, db, b, hash, now_ms, id, proofs, batch, old_proofs).chain.best_height
                == prev + 1
        }),
{
}

/// Which chain wins: a valid block that is new, after a known one, becomes the
/// best one only where its chain has more work. Where it has, and too many blocks
/// would go, the block is refused and nothing changes.
pub proof fn law_fork_choice(
    c: ChainView,
    db: store::Db,
    b: tx::BlockView,
    hash: Seq<u8>,
    now_ms: u128,
    id: Seq<char>,
    proofs: Seq<TxProofs>,
    batch: BatchVerdict,
    old_proofs: Seq<Vec<TxProofs>>,
    prev: usize,
)
    requires
        !c.state.heights.dom().contains(hash),
        c.state.heights.dom().contains(b.header.prev_hash@),
        prev == c.state.heights[b.header.prev_hash@],
        reorg_in_range(c, b),
        validated(
            c,
            db,
            b,
            hash,
            (prev + 1) as usize,
            seconds(now_ms),
            proofs,
            batch,
        ) is Ok,
    ensures
        ({
            let a = added(c, db, b, hash, now_ms, id, proofs, batch, old_proofs);
            if !outweighs(c, prev, b.header.bits) {
                &&& a.chain.best_height == c.best_height
                &&& a.chain.best_tip == c.best_tip
                &&& a.result is Ok ==> a.result == Ok::<_, Fault>(false)
            } else if c.best_height - prev > REORG_MAX_DEPTH {
                a.result == Err::<bool, _>(Fault::ReorgTooDeep) && a.chain == c && a.db == db
            } else {
                a.result is Ok ==> a.result == Ok::<_, Fault>(true) && a.chain.best_height == prev
                    + 1
            }
        }),
{
    if outweighs(c, prev, b.header.bits) {
        let new_work = state::work_at(c.state, prev) + target::work_of(b.header.bits);
        let current = state::work_at(c.state, c.best_height);
        assert(new_work > current * 99 / 100);
    }
}

/// After a block was added, none of its transactions is in the pool, and
/// nothing has come into it; a block that was not stored leaves the pool as it
/// is.
pub proof fn law_added_block_leaves_pool(
    c: ChainView,
    db: store::Db,
    p: mempool::PoolView,
    b: tx::BlockView,
    hash: Seq<u8>,
    now_ms: u128,
    id: Seq<char>,
    proofs: Seq<TxProofs>,
    batch: BatchVerdict,
    old_proofs: Seq<Vec<TxProofs>>,
)
    ensures
        ({
            let a = added(c, db, b, hash, now_ms, id, proofs, batch, old_proofs);
            let j = joined(c, db, p, b, hash, now_ms, id, proofs, batch, old_proofs);
            &&& a.stored is None ==> j.pool == p
            &&& a.stored is Some && j.result is Ok ==> forall|i: int|
                0 <= i < b.txs.len() ==> !j.pool.txs.dom().contains(tx::txid_of(#[trigger] b.txs[i]))
            &&& mempool::only_less(p, j.pool)
        }),
{
    let ids = tx::txids(b.txs);
    mempool::lemma_removals_only_take(p, ids, ids.len(), p.txs.dom().len());
    let j = joined(c, db, p, b, hash, now_ms, id, proofs, batch, old_proofs);
    let a = added(c, db, b, hash, now_ms, id, proofs, batch, old_proofs);
    if a.stored is Some && j.result is Ok {
        assert forall|i: int| 0 <= i < b.txs.len() implies !j.pool.txs.dom().contains(
            tx::txid_of(#[trigger] b.txs[i]),
        ) by {
            assert(ids[i] == tx::txid_of(b.txs[i]));
        }
    }
}

/// A refused block leaves the chain as it is, but for the mark of an action
/// that failed half way; nor does a known one change it.
pub proof fn law_refused_block_changes_nothing(
    c: ChainView,
    db: store::Db,
    b: tx::BlockView,
    hash: Seq<u8>,
    now_ms: u128,
    id: Seq<char>,
    proofs: Seq<TxProofs>,
    batch: BatchVerdict,
    old_proofs: Seq<Vec<TxProofs>>,
)
    requires
        added(c, db, b, hash, now_ms, id, proofs, batch, old_proofs).result is Err
            || c.state.heights.dom().contains(hash),
    ensures
        ({
            let a = added(c, db, b, hash, now_ms, id, proofs, batch, old_proofs);
            &&& a.chain == (ChainView { pending: a.chain.pending, ..c })
            &&& c.state.heights.dom().contains(hash) ==> a.chain == c && a.db == db
                && a.result == Ok::<_, Fault>(false)
        }),
{
}

/// Whether what is kept in memory agrees: the block that is kept at a height is
/// known to be at that height, and no more times are kept than the median
/// needs.
pub open spec fn heights_agree(s: state::StateView) -> bool {
    &&& forall|h: usize| #[trigger]
        s.hashes.dom().contains(h) ==> s.heights.dom().contains(s.hashes[h])
            && s.heights[s.hashes[h]] == h
    &&& s.timestamps.len() <= state::TIMESTAMP_WINDOW
}

/// What is kept in memory goes on agreeing, whatever block is added.
pub proof fn law_heights_agree(
    c: ChainView,
    db: store::Db,
    b: tx::BlockView,
    hash: Seq<u8>,
    now_ms: u128,
    id: Seq<char>,
    proofs: Seq<TxProofs>,
    batch: BatchVerdict,
    old_proofs: Seq<Vec<TxProofs>>,
)
    requires
        heights_agree(c.state),
    ensures
        heights_agree(state::empty_state()),
        heights_agree(added(c, db, b, hash, now_ms, id, proofs, batch, old_proofs).chain.state),
{
}

// ---------------------------------------------------------------------------
// Headers for a peer
// ---------------------------------------------------------------------------

/// A walk along the headers after a known block, up to one that is named, the
/// best one, or the largest number.
pub struct HeaderWalk {
    next: usize,
    last: usize,
    stop: [u8; 32],
    done: bool,
    headers: Vec<BlockHeader>,
}

/// What a [`HeaderWalk`] says: the next height, the last, where to stop,
/// whether it is over, and the headers so far.
pub struct WalkView {
    pub next: usize,
    pub last: usize,
    pub stop: Seq<u8>,
    pub done: bool,
    pub headers: Seq<BlockHeader>,
}

impl View for HeaderWalk {
    type V = WalkView;

    closed spec fn view(&self) -> WalkView {
        WalkView {
            next: self.next,
            last: self.last,
            stop: self.stop@,
            done: self.done,
            headers: self.headers@,
        }
    }
}

/// Whether a walk is over.
pub open spec fn walk_over(w: WalkView) -> bool {
    w.done || w.next > w.last || w.headers.len() >= MAX_HEADERS
}

/// The walk after a header and its hash.
pub open spec fn walked(w: WalkView, header: BlockHeader, hash: Seq<u8>) -> WalkView {
    WalkView {
        next: if w.next < usize::MAX {
            (w.next + 1) as usize
        } else {
            w.next
        },
        done: w.done || hash == w.stop || w.next == usize::MAX,
        headers: w.headers.push(header),
        ..w
    }
}

impl Chain {
    /// A walk along the headers after the block that `locator` names, which
    /// has none where that block is not known.
    pub fn get_headers(&self, locator: &[u8; 32], stop: [u8; 32]) -> (r: HeaderWalk)
        requires
            self@.state.heights.dom().contains(locator@) ==> self@.state.heights[locator@]
                < usize::MAX,
        ensures
            r@ == (if self@.state.heights.dom().contains(locator@) {
                WalkView {
                    next: (self@.state.heights[locator@] + 1) as usize,
                    last: self@.best_height,
                    stop: stop@,
                    done: false,
                    headers: Seq::empty(),
                }
            } else {
                WalkView {
                    next: 0,
                    last: self@.best_height,
                    stop: stop@,
                    done: true,
                    headers: Seq::empty(),
                }
            }),
    {
        match self.state.hash_to_height.get(locator) {
            Some(h) => HeaderWalk {
                next: h + 1,
                last: self.best_height,
                stop,
                done: false,
                headers: Vec::new(),
            },
            None => HeaderWalk {
                next: 0,
                last: self.best_height,
                stop,
                done: true,
                headers: Vec::new(),
            },
        }
    }
}

impl HeaderWalk {
    /// The next header, whose hash is to be taken; `None` where the walk is
    /// over.
    pub fn next_header(&self, db: &Snapshot) -> (r: Result<Option<BlockHeader>, ChainError>)
        ensures
            walk_over(self@) ==> r == Ok::<_, ChainError>(None::<BlockHeader>),
            !walk_over(self@) ==> match r {
                Ok(h) => h is Some && ledger::header_at(db@, self@.next) == Ok::<_, Fault>(h->0),
                Err(e) => ledger::header_at(db@, self@.next) == Err::<BlockHeader, _>(e@),
            },
    {
        if self.done || self.next > self.last || self.headers.len() >= MAX_HEADERS {
            return Ok(None);
        }
        match load_header(db, self.next) {
            Ok(h) => Ok(Some(h)),
            Err(e) => Err(e),
        }
    }

    /// Takes a header, given its hash.
    pub fn take_header(&mut self, header: BlockHeader, hash: &[u8; 32])
        requires
            !walk_over(old(self)@),
        ensures
            final(self)@ == walked(old(self)@, header, hash@),
    {
        self.headers.push(header);
        proof {
            bytes::lemma_id_ext(*hash, self.stop);
        }
        if bytes::same32(hash, &self.stop) {
            self.done = true;
        }
        if self.next == usize::MAX {
            self.done = true;
        } else {
            self.next += 1;
        }
    }

    /// The headers of the walk.
    pub fn headers(&self) -> (r: Vec<BlockHeader>)
        ensures
            r@ == self@.headers,
    {
        let mut out: Vec<BlockHeader> = Vec::new();
        let mut i: usize = 0;
        while i < self.headers.len()
            invariant
                i <= self.headers@.len(),
                out@ == self.headers@.take(i as int),
            decreases self.headers@.len() - i,
        {
            out.push(self.headers[i]);
            assert(out@ =~= self.headers@.take(i + 1));
            i += 1;
        }
        assert(out@ =~= self.headers@);
        out
    }
}

/// The walk after the first `n` of its steps, given the hash of each header on
/// its way.
pub open spec fn walk_after(w: WalkView, db: store::Db, hashes: Seq<Seq<u8>>, n: nat) -> WalkView
    decreases n,
{
    if n == 0 {
        w
    } else {
        let before = walk_after(w, db, hashes, (n - 1) as nat);
        walked(before, ledger::header_at(db, before.next)->Ok_0, hashes[n - 1])
    }
}

/// The stored headers from a height on.
pub open spec fn stored_run(db: store::Db, start: usize, n: nat) -> Seq<BlockHeader> {
    Seq::new(n, |i: int| ledger::header_at(db, (start + i) as usize)->Ok_0)
}

/// The headers of a walk are the run of stored headers after the block that it
/// starts from. The walk is over at the largest number of headers, after the
/// best one, or after the one whose hash is where to stop, and not before.
pub proof fn law_walk_is_a_run(w: WalkView, db: store::Db, hashes: Seq<Seq<u8>>, n: nat)
    requires
        !w.done,
        w.headers.len() == 0,
        n <= hashes.len(),
        w.next + n <= usize::MAX,
        forall|i: nat| i < n ==> !walk_over(#[trigger] walk_after(w, db, hashes, i)),
    ensures
        ({
            let v = walk_after(w, db, hashes, n);
            &&& v.headers == stored_run(db, w.next, n)
            &&& v.next == w.next + n
            &&& walk_over(v) == (n == MAX_HEADERS || w.next + n > w.last || (n > 0 && hashes[n - 1]
                == w.stop))
            &&& n <= MAX_HEADERS
            &&& forall|i: int| 0 <= i < n - 1 ==> #[trigger] hashes[i] != w.stop
        }),
    decreases n,
{
    let v = walk_after(w, db, hashes, n);
    if n == 0 {
        assert(v.headers =~= stored_run(db, w.next, n));
    } else {
        let m = (n - 1) as nat;
        law_walk_is_a_run(w, db, hashes, m);
        lemma_walk_keeps(w, db, hashes, m);
        let u = walk_after(w, db, hashes, m);
        assert(!walk_over(u));
        assert(v.headers =~= stored_run(db, w.next, n));
    }
    lemma_walk_keeps(w, db, hashes, n);
}

proof fn lemma_walk_keeps(w: WalkView, db: store::Db, hashes: Seq<Seq<u8>>, n: nat)
    ensures
        walk_after(w, db, hashes, n).stop == w.stop,
        walk_after(w, db, hashes, n).last == w.last,
    decreases n,
{
    if n > 0 {
        lemma_walk_keeps(w, db, hashes, (n - 1) as nat);
    }
}

// ---------------------------------------------------------------------------
// Loading the chain
// ---------------------------------------------------------------------------

/// The state with the block at a height loaded: with its transactions where it
/// is not too far back, and its hash and work.
pub open spec fn load_step(
    s: state::StateView,
    db: store::Db,
    height: usize,
    prune_start: usize,
) -> Result<state::StateView, Fault> {
    match store::read(db, Cf::Default, keys::height_key(height)) {
        None => Err(Fault::Other("Missing hash"@)),
        Some(hash) => {
            let header = if height >= prune_start {
                match ledger::block_at(db, height) {
                    Ok(b) => Ok(b.header),
                    Err(e) => Err(e),
                }
            } else {
                ledger::header_at(db, height)
            };
            match header {
                Err(e) => Err(e),
                Ok(h) => if !target::bits_accepted(h.bits) {
                    Err(Fault::InvalidBlock("target exponent too large"@))
                } else {
                    let total = state::work_with(s, height, target::work_of(h.bits));
                    let t = state::StateView {
                        hashes: s.hashes.insert(height, hash),
                        heights: s.heights.insert(hash, height),
                        work: s.work.insert(height, total),
                        ..s
                    };
                    Ok(
                        if height >= prune_start {
                            state::StateView {
                                blocks: t.blocks.insert(
                                    height,
                                    ledger::block_at(db, height)->Ok_0,
                                ),
                                timestamps: state::capped(t.timestamps.push(h.timestamp)),
                                ..t
                            }
                        } else {
                            t
                        },
                    )
                },
            }
        },
    }
}

/// The state with the first `n` blocks loaded.
pub open spec fn loaded(db: store::Db, prune_start: usize, n: nat) -> Result<
    state::StateView,
    Fault,
>
    decreases n,
{
    if n == 0 {
        Ok(state::empty_state())
    } else {
        match loaded(db, prune_start, (n - 1) as nat) {
            Err(e) => Err(e),
            Ok(s) => load_step(s, db, (n - 1) as usize, prune_start),
        }
    }
}

/// Where blocks are kept with their transactions.
pub open spec fn prune_start(best_height: usize) -> usize {
    if best_height >= PRUNE_DEPTH {
        (best_height - PRUNE_DEPTH) as usize
    } else {
        0
    }
}

/// The state with the recorded supply, where it is the sum of the subsidies:
/// the totals are taken from the records, or, where one is missing, the stored
/// outputs are summed up.
pub open spec fn smart_supply(
    s: state::StateView,
    db: store::Db,
    best_height: usize,
    utxos: Seq<Vec<u8>>,
    anonymous: Seq<Vec<u8>>,
) -> Result<state::StateView, Fault> {
    let set_hash = store::read(db, Cf::Default, keys::set_hash_key());
    let supply = store::read(db, Cf::Default, keys::supply_key());
    if set_hash is Some && supply is Some {
        if supply->0.len() != 8 {
            Err(Fault::Other("Invalid supply bytes"@))
        } else if bytes::be_value(supply->0) != params::issued_below(best_height as nat + 1) {
            Err(Fault::SupplyMismatch)
        } else {
            Ok(
                state::StateView {
                    set_hash: set_hash->0,
                    supply: bytes::be_value(supply->0) as u64,
                    ..s
                },
            )
        }
    } else {
        match ledger::supply_verdict(utxos, anonymous, best_height, Fault::SupplyMismatch) {
            Ok(_) => Ok(s),
            Err(e) => Err(e),
        }
    }
}

/// The hash of the first block, as it is recorded.
pub open spec fn stored_genesis(db: store::Db) -> Result<Seq<u8>, Fault> {
    match store::read(db, Cf::Default, keys::genesis_key()) {
        None => Err(Fault::Other("Missing genesis_hash"@)),
        Some(b) => Ok(b),
    }
}

/// The chain that the database holds.
pub open spec fn loaded_chain(
    db: store::Db,
    checkpoints: Map<usize, [u8; 32]>,
    utxos: Seq<Vec<u8>>,
    anonymous: Seq<Vec<u8>>,
) -> Result<ChainView, Fault> {
    match ledger::stored_tip(db) {
        Err(e) => Err(e),
        Ok(tip) => match ledger::stored_height(db) {
            Err(e) => Err(e),
            Ok(best) => match stored_genesis(db) {
                Err(e) => Err(e),
                Ok(genesis) => match loaded(db, prune_start(best as usize), best + 1) {
                    Err(e) => Err(e),
                    Ok(s) => match ledger::state_verdict(db, 0) {
                        Err(e) => Err(e),
                        Ok(_) => match smart_supply(s, db, best as usize, utxos, anonymous) {
                            Err(e) => Err(e),
                            Ok(s) => Ok(
                                ChainView {
                                    state: s,
                                    best_tip: tip,
                                    best_height: best as usize,
                                    ..fresh_chain(genesis, checkpoints)
                                },
                            ),
                        },
                    },
                },
            },
        },
    }
}

/// Whether the records of hashes in the database, up to the recorded height,
/// are hashes of 32 bytes.
pub open spec fn hashes_in_form(db: store::Db) -> bool {
    &&& ledger::is_id(store::read(db, Cf::Default, keys::tip_key()))
    &&& ledger::is_id(store::read(db, Cf::Default, keys::genesis_key()))
    &&& ledger::is_id(store::read(db, Cf::Default, keys::set_hash_key()))
    &&& ledger::stored_height(db) is Ok ==> forall|h: usize|
        h <= ledger::stored_height(db)->Ok_0 ==> ledger::is_id(
            #[trigger] store::read(db, Cf::Default, keys::height_key(h)),
        )
}

proof fn lemma_loaded_stop(db: store::Db, start: usize, i: nat, n: nat, e: Fault)
    requires
        i <= n,
        loaded(db, start, i) == Err::<state::StateView, Fault>(e),
    ensures
        loaded(db, start, n) == Err::<state::StateView, Fault>(e),
    decreases n,
{
    if i < n {
        lemma_loaded_stop(db, start, i, (n - 1) as nat, e);
    }
}

proof fn lemma_issue_bound(n: nat)
    ensures
        params::issued_below(n) <= n * params::INITIAL_SUBSIDY,
    decreases n,
{
    if n > 0 {
        lemma_issue_bound((n - 1) as nat);
        params::lemma_subsidy_bound((n - 1) as nat);
    }
}

/// The subsidies of the blocks up to a height and the block at it.
fn issued_exactly(height: usize) -> (r: u128)
    ensures
        r == params::issued_below(height as nat + 1),
{
    let mut acc: u128 = 0;
    let mut h: usize = 0;
    loop
        invariant
            h <= height,
            acc == params::issued_below(h as nat),
        decreases height - h,
    {
        proof {
            lemma_issue_bound(h as nat + 1);
            assert((h as nat + 1) * params::INITIAL_SUBSIDY <= 0x1_0000_0000_0000_0000
                * 10_000_000_000) by (nonlinear_arith)
                requires
                    h as nat + 1 <= 0x1_0000_0000_0000_0000,
                    params::INITIAL_SUBSIDY == 10_000_000_000,
            ;
        }
        acc = acc + subsidy(h) as u128;
        if h == height {
            return acc;
        }
        h += 1;
    }
}

impl Chain {
    fn load_block_at(&mut self, db: &Snapshot, height: usize, start: usize) -> (r: Result<
        (),
        ChainError,
    >)
        requires
            old(self).wf(),
            ledger::is_id(store::read(db@, Cf::Default, keys::height_key(height))),
        ensures
            match r {
                Ok(_) => {
                    &&& final(self).wf()
                    &&& load_step(old(self)@.state, db@, height, start) == Ok::<_, Fault>(
                        final(self)@.state,
                    )
                    &&& final(self)@ == (ChainView { state: final(self)@.state, ..old(self)@ })
                },
                Err(e) => load_step(old(self)@.state, db@, height, start) == Err::<
                    state::StateView,
                    _,
                >(e@),
            },
    {
        broadcast use vstd::std_specs::btree::group_btree_axioms;

        let ghost before = self@;
        let key = make_height_key(height);
        let hash = match db.get(Cf::Default, key.as_slice()) {
            Some(b) => {
                let h = read32(b.as_slice(), 0);
                assert(h@ =~= b@);
                h
            },
            None => {
                return Err(other("Missing hash"));
            },
        };
        let (header, full): (BlockHeader, Option<Block>) = if height >= start {
            match load_block_by_height(db, height) {
                Ok(b) => (b.header, Some(b)),
                Err(e) => {
                    return Err(e);
                },
            }
        } else {
            match load_header(db, height) {
                Ok(h) => (h, None),
                Err(e) => {
                    return Err(e);
                },
            }
        };
        let goal = match compact_to_target(header.bits) {
            Ok(t) => t,
            Err(e) => {
                return Err(e);
            },
        };
        let work = target_work(&goal);
        let total = if height > 0 {
            match self.state.cumulative_work.get(&(height - 1)) {
                Some(prev) => big_add(prev, &work),
                None => work,
            }
        } else {
            work
        };
        self.state.record(height, hash, total);
        assert(self.state.hashes_kept());
        match full {
            Some(b) => {
                push_time(&mut self.state.timestamps, header.timestamp);
                self.state.keep_block(height, b);
                assert(self.state.hashes_kept());
            },
            None => {},
        }
        proof {
            let s = load_step(before.state, db@, height, start)->Ok_0;
            assert(self@.state =~= s);
        }
        Ok(())
    }

    /// Takes the totals from the records, or sums up the stored outputs.
    pub fn validate_supply_smart(
        &mut self,
        db: &Snapshot,
        utxos: &Vec<Vec<u8>>,
        anonymous: &Vec<Vec<u8>>,
    ) -> (r: Result<(), ChainError>)
        requires
            old(self).wf(),
            ledger::is_id(store::read(db@, Cf::Default, keys::set_hash_key())),
        ensures
            final(self).wf(),
            ({
                let s = smart_supply(
                    old(self)@.state,
                    db@,
                    old(self)@.best_height,
                    utxos@,
                    anonymous@,
                );
                match r {
                    Ok(_) => s is Ok && final(self)@ == (ChainView {
                        state: s->Ok_0,
                        ..old(self)@
                    }),
                    Err(e) => s == Err::<state::StateView, _>(e@) && final(self)@ == old(self)@,
                }
            }),
    {
        let hash_key = make_set_hash_key();
        let supply_key = make_supply_key();
        match (db.get(Cf::Default, hash_key.as_slice()), db.get(
            Cf::Default,
            supply_key.as_slice(),
        )) {
            (Some(h), Some(b)) => {
                if b.len() != 8 {
                    return Err(other("Invalid supply bytes"));
                }
                let supply: u128 = from_be(b.as_slice());
                if supply != issued_exactly(self.best_height) {
                    return Err(ChainError::SupplyMismatch);
                }
                proof {
                    bytes::lemma_be_write_read(b@);
                    bytes::lemma_pow256_values();
                }
                let set_hash = read32(h.as_slice(), 0);
                assert(set_hash@ =~= h@);
                self.state.total_supply = supply as u64;
                self.state.utxo_set_hash = set_hash;
                Ok(())
            },
            _ => validate_supply_full(utxos, anonymous, self.best_height),
        }
    }

    /// The chain that the database holds, the stored outputs being given in
    /// the order of their keys.
    pub fn load_from_db(
        db: &Snapshot,
        checkpoints: HashMap<usize, [u8; 32]>,
        utxos: &Vec<Vec<u8>>,
        anonymous: &Vec<Vec<u8>>,
    ) -> (r: Result<Self, ChainError>)
        requires
            hashes_in_form(db@),
        ensures
            match r {
                Ok(c) => c.wf() && loaded_chain(db@, checkpoints@, utxos@, anonymous@) == Ok::<
                    _,
                    Fault,
                >(c@),
                Err(e) => loaded_chain(db@, checkpoints@, utxos@, anonymous@) == Err::<
                    ChainView,
                    _,
                >(e@),
            },
    {
        let best_tip = match load_current_tip(db) {
            Ok(t) => t,
            Err(e) => {
                return Err(e);
            },
        };
        let best_height: usize = match load_current_height(db) {
            Ok(h) => h,
            Err(e) => {
                return Err(e);
            },
        };
        let key = make_genesis_key();
        let genesis_hash = match db.get(Cf::Default, key.as_slice()) {
            Some(b) => {
                let h = read32(b.as_slice(), 0);
                assert(h@ =~= b@);
                h
            },
            None => {
                return Err(other("Missing genesis_hash"));
            },
        };
        let ghost map = checkpoints@;
        let mut chain = Chain::empty(genesis_hash, checkpoints);
        chain.best_tip = best_tip;
        chain.best_height = best_height;
        let start: usize = if best_height >= PRUNE_DEPTH {
            best_height - PRUNE_DEPTH
        } else {
            0
        };
        let ghost base = chain@;
        let mut h: usize = 0;
        loop
            invariant_except_break
                h <= best_height,
                chain.wf(),
                hashes_in_form(db@),
                start == prune_start(best_height),
                loaded(db@, start, h as nat) == Ok::<_, Fault>(chain@.state),
                chain@ == (ChainView { state: chain@.state, ..base }),
                ledger::stored_tip(db@) == Ok::<_, Fault>(best_tip@),
                ledger::stored_height(db@) == Ok::<_, Fault>(best_height as nat),
                stored_genesis(db@) == Ok::<_, Fault>(genesis_hash@),
            ensures
                chain.wf(),
                loaded(db@, start, best_height as nat + 1) == Ok::<_, Fault>(chain@.state),
                chain@ == (ChainView { state: chain@.state, ..base }),
            decreases best_height - h,
        {
            match chain.load_block_at(db, h, start) {
                Ok(_) => {},
                Err(e) => {
                    proof {
                        lemma_loaded_stop(
                            db@,
                            start,
                            (h + 1) as nat,
                            best_height as nat + 1,
                            e@,
                        );
                    }
                    return Err(e);
                },
            }
            assert(loaded(db@, start, h as nat + 1) == Ok::<_, Fault>(chain@.state));
            if h == best_height {
                break ;
            }
            h += 1;
        }
        match check_state(db, 0) {
            Ok(_) => {},
            Err(e) => {
                return Err(e);
            },
        }
        match chain.validate_supply_smart(db, utxos, anonymous) {
            Ok(_) => Ok(chain),
            Err(e) => Err(e),
        }
    }
}

// ---------------------------------------------------------------------------
// What becomes of a new block
// ---------------------------------------------------------------------------

/// What is decided about a new block: one that is known is left alone; one
/// whose predecessor is not known waits; one that is not valid is refused for
/// what is wrong with it; one whose chain has no more work than the best goes
/// beside it, at the height after its predecessor's; and one whose chain has
/// more becomes the best, in place of the blocks above its predecessor, unless
/// these are more than 2016.
pub proof fn law_new_block_decided(
    c: ChainView,
    db: store::Db,
    b: tx::BlockView,
    hash: Seq<u8>,
    now_ms: u128,
    proofs: Seq<TxProofs>,
    batch: BatchVerdict,
)
    requires
        reorg_in_range(c, b),
    ensures
        ({
            let r = decision(c, db, b, hash, now_ms, proofs, batch);
            let known = c.state.heights.dom().contains(hash);
            let after = c.state.heights.dom().contains(b.header.prev_hash@);
            let prev = c.state.heights[b.header.prev_hash@];
            let v = validated(
                c,
                db,
                b,
                hash,
                (prev + 1) as usize,
                seconds(now_ms),
                proofs,
                batch,
            );
            let new = state::work_at(c.state, prev) + target::work_of(b.header.bits);
            let old = state::work_at(c.state, c.best_height);
            &&& known ==> r == Ok::<Step, Fault>(Step::Known)
            &&& !known && !after ==> r == Ok::<Step, Fault>(Step::Wait)
            &&& !known && after && v is Err ==> r == Err::<Step, Fault>(v->Err_0)
            &&& !known && after && v is Ok && new <= old ==> r == Ok::<Step, Fault>(
                Step::Side((prev + 1) as usize),
            )
            &&& !known && after && v is Ok && new > old && c.best_height - prev <= 2016 ==> r
                == Ok::<Step, Fault>(
                Step::Reorg((prev + 1) as usize, (c.best_height - prev) as usize),
            )
            &&& !known && after && v is Ok && new > old && c.best_height - prev > 2016 ==> r
                == Err::<Step, Fault>(Fault::ReorgTooDeep)
        }),
{
    let prev = c.state.heights[b.header.prev_hash@];
    let new = state::work_at(c.state, prev) + target::work_of(b.header.bits);
    let old = state::work_at(c.state, c.best_height);
    if new > old {
        assert(new > old * 99 / 100);
    }
}

/// A new block is valid exactly where it has done its work, the target due at
/// its height can be computed, its contents are valid, the median of the times
/// before it can be taken, its time is later than that and no more than 7200
/// seconds ahead of the clock, and its hash is that of the checkpoint at its
/// height, where there is one.
pub proof fn law_new_block_valid(
    c: ChainView,
    db: store::Db,
    b: tx::BlockView,
    hash: Seq<u8>,
    height: usize,
    now: u32,
    proofs: Seq<TxProofs>,
    batch: BatchVerdict,
)
    requires
        now <= u32::MAX - 7200,
    ensures
        validated(c, db, b, hash, height, now, proofs, batch) is Ok <==> {
            &&& consensus::work_verdict(b, hash) is Ok
            &&& ledger::bits_computable(db, height)
            &&& consensus::body_verdict(b, c.best_height, db, height, proofs, batch) is Ok
            &&& ledger::times_readable(db, (height - 1) as usize)
            &&& ledger::median_at(db, (height - 1) as usize) < b.header.timestamp <= now + 7200
            &&& c.checkpoints.dom().contains(height) ==> c.checkpoints[height]@ == hash
        },
{
}

/// A chain that was told a time in milliseconds goes by the seconds of it.
pub proof fn law_seconds_of_time(now_ms: u128)
    requires
        now_ms < 4_294_967_296_000,
    ensures
        1000 * seconds(now_ms) <= now_ms < 1000 * (seconds(now_ms) + 1),
{
}

/// What an action on a block leaves of the chain, where its writes are made: a
/// block that is connected as the best one is the best one; any other action
/// leaves the best one as it is. Another action may begin. What waits, the
/// first block and the checkpoints stay; and the block 10080 below a new best
/// one is kept in memory no longer.
pub proof fn law_action_moves_chain(
    c: ChainView,
    db: store::Db,
    b: tx::BlockView,
    hash: Seq<u8>,
    height: usize,
    action: BlockAction,
    is_best: bool,
    work: nat,
    proofs: Seq<TxProofs>,
    next: BlockAction,
)
    requires
        applied(c, db, b, hash, height, action, is_best, work, proofs).result is Ok,
    ensures
        ({
            let a = applied(c, db, b, hash, height, action, is_best, work, proofs);
            let best = action is Connect && is_best;
            &&& best ==> a.chain.best_tip == hash && a.chain.best_height == height
            &&& !best ==> a.chain.best_tip == c.best_tip && a.chain.best_height == c.best_height
            &&& !a.chain.pending && a.chain.read_only == c.read_only
            &&& !c.read_only ==> begin_fault(a.chain, next) is None
            &&& a.chain.orphans == c.orphans
            &&& a.chain.genesis_hash == c.genesis_hash
            &&& a.chain.checkpoints == c.checkpoints
            &&& a.chain.state.heights.dom().contains(hash) && a.chain.state.heights[hash] == height
            &&& a.chain.state.blocks.dom().contains(height) && a.chain.state.blocks[height] == b
            &&& best && height > 10_080 ==> !a.chain.state.blocks.dom().contains(
                (height - 10_080) as usize,
            )
            &&& height <= 10_080 || !best ==> forall|h: usize|
                h != height ==> (#[trigger] a.chain.state.blocks.dom().contains(h)
                    == c.state.blocks.dom().contains(h))
            &&& forall|h: usize|
                h != height && h != height - 10_080 ==> (
                #[trigger] a.chain.state.blocks.dom().contains(h) == c.state.blocks.dom().contains(
                    h,
                ))
        }),
{
}

/// An action is not begun while another is under way, and no block is put on a
/// chain that may not be written to; otherwise it is begun.
pub proof fn law_actions_wait(c: ChainView, action: BlockAction)
    ensures
        begin_fault(c, action) is None <==> !c.pending && !(c.read_only && action is Connect),
        begin_fault(c, action) is None ==> begin_fault(begun(c, action), action) is Some,
{
}

proof fn lemma_saved_keeps(db: store::Db, height: usize, b: tx::BlockView, hash: Seq<u8>, key: Seq<u8>)
    requires
        key.len() > 14,
        key[0] == 0x72,
    ensures
        store::read(
            store::write_all(db, state::save_ops(height, b, hash)),
            Cf::Default,
            key,
        ) == store::read(db, Cf::Default, key),
{
    let ops = state::save_ops(height, b, hash);
    assert(keys::block_key(hash)[0] == 0x62);
    assert(keys::height_key(height)[0] == 0x68);
    assert(keys::tip_key()[0] == 0x74);
    assert(keys::best_height_key()[0] == 0x68);
    store::lemma_untouched(db, ops, Cf::Default, key);
}

/// A block that was put on the chain is stored: at its height, as the best one,
/// whether it became the best or was put beside it; where it became the best,
/// the journal of that holds nothing any more.
pub proof fn law_added_block_is_stored(
    c: ChainView,
    db: store::Db,
    b: tx::BlockView,
    hash: Seq<u8>,
    now_ms: u128,
    id: Seq<char>,
    proofs: Seq<TxProofs>,
    batch: BatchVerdict,
    old_proofs: Seq<Vec<TxProofs>>,
)
    requires
        reorg_in_range(c, b),
        added(c, db, b, hash, now_ms, id, proofs, batch, old_proofs).stored is Some,
        hash.len() == 32,
        codec::enc_block(b).len() < bytes::pow256(8),
        c.state.heights[b.header.prev_hash@] < u32::MAX,
        vstd::utf8::encode_utf8(id).len() > 0,
    ensures
        ({
            let a = added(c, db, b, hash, now_ms, id, proofs, batch, old_proofs);
            let height = (c.state.heights[b.header.prev_hash@] + 1) as usize;
            &&& a.result is Ok
            &&& a.stored == Some(height)
            &&& ledger::block_at(a.db, height) == Ok::<tx::BlockView, Fault>(b)
            &&& ledger::stored_height(a.db) == Ok::<nat, Fault>(height as nat)
            &&& ledger::stored_tip(a.db) == Ok::<Seq<u8>, Fault>(hash)
            &&& a.result == Ok::<bool, Fault>(true) ==> a.chain.best_height == height
                && store::read(
                a.db,
                Cf::Default,
                keys::journal_key(vstd::utf8::encode_utf8(id)),
            ) is None
            &&& a.result == Ok::<bool, Fault>(false) ==> a.chain.best_height == c.best_height
                && a.chain.best_tip == c.best_tip && a.chain.state.heights.dom().contains(hash)
        }),
{
    let height = (c.state.heights[b.header.prev_hash@] + 1) as usize;
    law_new_block_decided(c, db, b, hash, now_ms, proofs, batch);
    match decision(c, db, b, hash, now_ms, proofs, batch) {
        Ok(Step::Side(h)) => {
            let x = applied(
                c,
                db,
                b,
                hash,
                h,
                BlockAction::Connect,
                false,
                target::work_of(b.header.bits),
                proofs,
            );
            state::law_saved_block_loads(x.db, h, b, hash);
        },
        Ok(Step::Reorg(h, depth)) => {
            let noted = store::write(db, journal::start_op(journal_for(c, b, id, depth)));
            let ops = journal::reorg_ops(
                c.state,
                db,
                c.best_height,
                depth as nat,
                old_proofs,
                b,
                proofs,
            )->Ok_0;
            let key = keys::journal_key(vstd::utf8::encode_utf8(id));
            let x = store::write(store::write_all(noted, ops), store::del(Cf::Default, key));
            assert(key[0] == 0x72);
            state::law_saved_block_loads(x, h, b, hash);
            lemma_saved_keeps(x, h, b, hash, key);
        },
        _ => {},
    }
}

/// A block that has to wait is kept, and changes nothing else: what waited goes
/// on waiting as long as there is room.
pub proof fn law_waiting_block_is_kept(
    c: ChainView,
    db: store::Db,
    b: tx::BlockView,
    hash: Seq<u8>,
    now_ms: u128,
    id: Seq<char>,
    proofs: Seq<TxProofs>,
    batch: BatchVerdict,
    old_proofs: Seq<Vec<TxProofs>>,
)
    requires
        !c.state.heights.dom().contains(hash),
        !c.state.heights.dom().contains(b.header.prev_hash@),
        orphans::distinct(c.orphans),
        c.orphans.len() < 500,
    ensures
        ({
            let a = added(c, db, b, hash, now_ms, id, proofs, batch, old_proofs);
            &&& a.result == Ok::<bool, Fault>(false) && a.stored is None
            &&& a.db == db
            &&& a.chain == (ChainView { orphans: a.chain.orphans, ..c })
            &&& a.chain.orphans.contains(
                orphans::OrphanView { hash, block: b, time: now_ms },
            )
            &&& forall|x: orphans::OrphanView|
                #![trigger a.chain.orphans.contains(x)]
                c.orphans.contains(x) && x.hash != hash ==> a.chain.orphans.contains(x)
        }),
{
    orphans::law_new_orphan_waits(
        c.orphans,
        orphans::OrphanView { hash, block: b, time: now_ms },
    );
}

// ---------------------------------------------------------------------------
// What a loaded chain is
// ---------------------------------------------------------------------------

/// What is loaded of the first `n` blocks.
proof fn lemma_loaded(db: store::Db, start: usize, n: nat, h: usize)
    requires
        h < n <= usize::MAX,
        loaded(db, start, n) is Ok,
    ensures
        ({
            let s = loaded(db, start, n)->Ok_0;
            let hash = store::read(db, Cf::Default, keys::height_key(h));
            let header = if h >= start {
                ledger::block_at(db, h)->Ok_0.header
            } else {
                ledger::header_at(db, h)->Ok_0
            };
            &&& hash is Some && s.hashes.dom().contains(h) && s.hashes[h] == hash->0
            &&& s.heights.dom().contains(hash->0)
            &&& s.work.dom().contains(h)
            &&& s.work[h] == target::work_of(header.bits) + if h > 0 {
                s.work[(h - 1) as usize]
            } else {
                0
            }
            &&& s.blocks.dom().contains(h) <==> h >= start
            &&& h >= start ==> ledger::block_at(db, h) is Ok && s.blocks[h] == ledger::block_at(
                db,
                h,
            )->Ok_0
            &&& h < start ==> ledger::header_at(db, h) is Ok
            &&& forall|g: usize| g >= n ==> !(#[trigger] s.blocks.dom().contains(g))
        }),
    decreases n,
{
    reveal_with_fuel(loaded, 2);
    let m = (n - 1) as nat;
    let s = loaded(db, start, m)->Ok_0;
    if h < m {
        lemma_loaded(db, start, m, h);
    }
    if 0 < m {
        lemma_loaded(db, start, m, (m - 1) as usize);
    }
    assert(m as usize as nat == m);
}

/// The times that are loaded are those of the last blocks, no more than eleven
/// of them.
proof fn lemma_loaded_times(db: store::Db, start: usize, n: nat)
    requires
        n <= usize::MAX,
        loaded(db, start, n) is Ok,
    ensures
        ({
            let t = loaded(db, start, n)->Ok_0.timestamps;
            let k: int = if n <= start {
                0
            } else if n - start <= 11 {
                n - start
            } else {
                11
            };
            &&& t.len() == k
            &&& forall|i: int|
                0 <= i < k ==> #[trigger] t[i] == ledger::block_at(
                    db,
                    (n - k + i) as usize,
                )->Ok_0.header.timestamp
        }),
    decreases n,
{
    if n > 0 {
        lemma_loaded_times(db, start, (n - 1) as nat);
        assert((n - 1) as usize as nat == n - 1);
    }
}

/// A loaded chain is the one that is stored: its best block is the recorded one,
/// at the recorded height; it knows the recorded hash of every height up to
/// that, and the work up to it, which grows by that of each block; it keeps the
/// blocks from 10080 below the best one on, and the times of the last eleven of
/// them; nothing waits.
pub proof fn law_loaded_chain_is_stored(
    db: store::Db,
    checkpoints: Map<usize, [u8; 32]>,
    utxos: Seq<Vec<u8>>,
    anonymous: Seq<Vec<u8>>,
    h: usize,
)
    requires
        loaded_chain(db, checkpoints, utxos, anonymous) is Ok,
        h <= ledger::stored_height(db)->Ok_0 < usize::MAX,
    ensures
        ({
            let c = loaded_chain(db, checkpoints, utxos, anonymous)->Ok_0;
            let tip = store::read(db, Cf::Default, keys::tip_key());
            let hash = store::read(db, Cf::Default, keys::height_key(h));
            let kept = h + 10_080 >= c.best_height;
            let header = if kept {
                ledger::block_at(db, h)->Ok_0.header
            } else {
                ledger::header_at(db, h)->Ok_0
            };
            &&& tip == Some(c.best_tip)
            &&& ledger::stored_height(db) == Ok::<nat, Fault>(c.best_height as nat)
            &&& store::read(db, Cf::Default, keys::genesis_key()) == Some(c.genesis_hash)
            &&& c.checkpoints == checkpoints
            &&& c.orphans.len() == 0 && !c.pending && !c.read_only
            &&& hash is Some && c.state.hashes.dom().contains(h) && c.state.hashes[h] == hash->0
            &&& c.state.heights.dom().contains(hash->0)
            &&& state::work_at(c.state, h) == target::work_of(header.bits) + if h > 0 {
                state::work_at(c.state, (h - 1) as usize)
            } else {
                0
            }
            &&& c.state.blocks.dom().contains(h) <==> kept
            &&& kept ==> c.state.blocks[h] == ledger::block_at(db, h)->Ok_0
            &&& c.state.timestamps.len() == if c.best_height < 10 {
                (c.best_height + 1) as nat
            } else {
                11
            }
            &&& c.best_height - c.state.timestamps.len() < h ==> c.state.timestamps[h
                - c.best_height - 1 + c.state.timestamps.len()] == ledger::block_at(
                db,
                h,
            )->Ok_0.header.timestamp
        }),
{
    let best = ledger::stored_height(db)->Ok_0;
    let start = prune_start(best as usize);
    lemma_loaded(db, start, best + 1, h);
    if h > 0 {
        lemma_loaded(db, start, best + 1, (h - 1) as usize);
    }
    lemma_loaded_times(db, start, best + 1);
}

/// A chain is loaded only where the recorded sum of the unspent outputs, where
/// there is one with their hash, is the sum of the subsidies of all blocks up
/// to the best one; and it is taken over.
pub proof fn law_loaded_supply(
    s: state::StateView,
    db: store::Db,
    best_height: usize,
    utxos: Seq<Vec<u8>>,
    anonymous: Seq<Vec<u8>>,
    recorded: u64,
)
    requires
        store::read(db, Cf::Default, keys::set_hash_key()) is Some,
        store::read(db, Cf::Default, keys::supply_key()) == Some(
            bytes::be_bytes(recorded as nat, 8),
        ),
    ensures
        ({
            let r = smart_supply(s, db, best_height, utxos, anonymous);
            &&& r is Ok <==> recorded == params::issued_below(best_height as nat + 1)
            &&& r is Err ==> r->Err_0 == Fault::SupplyMismatch
            &&& r is Ok ==> r->Ok_0 == (state::StateView {
                set_hash: store::read(db, Cf::Default, keys::set_hash_key())->0,
                supply: recorded,
                ..s
            })
        }),
{
    bytes::lemma_pow256_values();
    bytes::lemma_be_bytes_len(recorded as nat, 8);
    bytes::lemma_be_read_write(recorded as nat, 8);
}

/// The recorded supply is checked after every 1000th block; taking writes back
/// is tried three times; and no more than 2000 headers are sent at once.
pub proof fn law_chain_limits(c: ChainView, db: store::Db, height: usize, w: WalkView)
    ensures
        height % 1000 != 0 ==> interval_verdict(c, db, height) is Ok,
        height % 1000 == 0 ==> interval_verdict(c, db, height) == ledger::state_verdict(
            db,
            c.state.supply,
        ),
        ROLLBACK_ATTEMPTS == 3,
        walk_over(w) <==> w.done || w.next > w.last || w.headers.len() >= 2000,
{
}

} // verus!
