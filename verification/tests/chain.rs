use lyrion::anon::BatchVerdict;
use lyrion::chain::{retry_rollback, Chain, Step, WriteOutcome, STATE_CHECK_INTERVAL};
use lyrion::codec::{deserialize_position, serialize_header, serialize_output};
use lyrion::consensus::{
    check_body, check_commitments, check_time, check_work, validate_block, BlockContext,
};
use lyrion::errors::{other, ChainError};
use lyrion::journal::{
    deserialize_journal, end_reorg_journal, recover_pending_reorg, serialize_journal,
    start_reorg_journal, ReorgJournal,
};
use lyrion::keys::{
    make_best_height_key, make_genesis_key, make_header_key, make_height_key, make_issued_key,
    make_journal_key, make_outpoint_key, make_set_hash_key, make_supply_key, make_tip_key,
};
use lyrion::ledger::{
    are_bits_computable, are_times_readable, calculate_next_bits, check_state, compute_cf_supply,
    get_median_timestamp, issued_up_to, load_block_by_height, load_current_height,
    load_current_tip, load_header, load_supply_from_db, median_of, validate_state_full,
    validate_supply_full,
};
use lyrion::mempool::{Admission, Mempool};
use lyrion::miner::{create_genesis_block, next_template, GenesisSearch, Search};
use lyrion::orphans::{bound_orphans, insert_orphan, keep_fresh, Orphan, OrphanRun};
use lyrion::params::{subsidy, GENESIS_TIMESTAMP, MAX_ORPHANS, ORPHAN_TTL_MS};
use lyrion::secp::PublicKey;
use lyrion::state::{make_prune_ops, save_block, ChainState, IdMap};
use lyrion::store::{del_op, put_op, reverse_ops, Cf, Op, Snapshot};
use lyrion::target::{compact_to_target, target_work};
use lyrion::tx::{Block, OutputMap, TXInput, TXOutput, Transaction};
use lyrion::utxo::{hash_utxo_entry, xor_hash, BlockAction, Delta};
use lyrion::validate::TxProofs;
use num_bigint::BigUint;
use std::collections::HashMap;

const NOW: u128 = 1_763_596_800_000;

fn key() -> PublicKey {
    let mut sk = [0u8; 32];
    sk[31] = 1;
    PublicKey::from_secret(&sk).unwrap()
}

/// A hash that meets every target in use here.
fn easy(n: u8) -> [u8; 32] {
    let mut h = [0u8; 32];
    h[31] = n;
    h
}

fn genesis() -> Block {
    let mut search = GenesisSearch::start(&key());
    let outcome = search.submit(&easy(1));
    assert_eq!(outcome, Search::Found);
    create_genesis_block(search).unwrap()
}

fn proofs(n: usize) -> Vec<TxProofs> {
    (0..n).map(|_| TxProofs { rings: vec![], batch: BatchVerdict::Accepted }).collect()
}

fn chain(db: &mut Snapshot) -> Chain {
    Chain::new(db, &genesis(), easy(1), &proofs(1), HashMap::new()).unwrap()
}

/// The block after the one with hash `prev`, with its own coinbase.
fn block_after(prev: [u8; 32], n: u8) -> Block {
    let mut b = genesis();
    b.header.prev_hash = prev;
    b.header.timestamp += 60 * n as u32;
    b.txs[0].inputs[0].script_sig = vec![n];
    b.header.merkle_root = Block::compute_merkle_root(&b.txs);
    b
}

fn add(c: &mut Chain, db: &mut Snapshot, b: &Block, hash: [u8; 32], depth: usize) -> Result<bool, ChainError> {
    let old: Vec<Vec<TxProofs>> = (0..depth).map(|_| proofs(1)).collect();
    let mut pool = Mempool::new(1_000_000);
    let found = proofs(b.txs.len());
    c.add_block(db, &mut pool, b, hash, NOW, "journal", &found, BatchVerdict::Accepted, &old)
}

/// A transaction that spends output 0 of `txid`.
fn spend(txid: [u8; 32]) -> Transaction {
    Transaction {
        version: 1,
        is_anonymous: false,
        inputs: vec![TXInput { txid, vout: 0, script_sig: vec![1], sequence: u32::MAX }],
        outputs: vec![TXOutput { value: 60, script_pubkey: vec![7], commitment: None }],
        lock_time: 0,
        range_proofs: vec![],
    }
}

#[test]
fn test_chain_init() {
    let mut db = Snapshot::new();
    let genesis = genesis();
    let chain = Chain::new(&mut db, &genesis, easy(1), &proofs(1), HashMap::new()).expect("Chain failed");
    assert_eq!(chain.best_height, 0);
}

#[test]
fn test_chain_fork() {
    let mut db = Snapshot::new();
    let genesis = genesis();
    let genesis_hash = easy(1);
    let mut chain =
        Chain::new(&mut db, &genesis, genesis_hash, &proofs(1), HashMap::new()).expect("Chain failed");
    let mut block1 = genesis.clone();
    block1.header.prev_hash = chain.best_tip;
    add(&mut chain, &mut db, &block1, easy(2), 0).expect("Add failed");
    let mut block_fork = genesis.clone();
    block_fork.header.prev_hash = genesis_hash;
    block_fork.header.bits = 0x1d00ffff;
    add(&mut chain, &mut db, &block_fork, easy(2), 1).expect("Add failed");
    assert_eq!(chain.best_height, 1);
}

#[test]
fn test_prune_logic() {
    let mut db = Snapshot::new();
    let key = b"test_key";
    let val = b"test_value";
    db.apply(put_op(Cf::Utxo, key, val));
    assert_eq!(db.get(Cf::Utxo, key).unwrap(), val.to_vec());
}

#[test]
fn a_new_chain_begins_at_its_first_block() {
    let mut db = Snapshot::new();
    let c = chain(&mut db);
    assert_eq!(c.best_tip, easy(1));
    assert_eq!(c.get_genesis_hash(), easy(1));
    assert!(!c.is_read_only());
    assert_eq!(c.state.hash_to_height.get(&easy(1)), Some(0));
    assert_eq!(c.state.hash_to_height.get(&easy(2)), None);
    assert_eq!(c.state.work_up_to(0), BigUint::from(0x1_0001_0001u64));
    assert_eq!(c.state.work_up_to(1), BigUint::from(0u32));
    assert_eq!(db.get(Cf::Default, &make_header_key(0)), Some(serialize_header(&genesis().header)));
    assert_eq!(db.get(Cf::Default, &make_issued_key()), Some(subsidy(0).to_le_bytes().to_vec()));
    assert_eq!(load_supply_from_db(&db), Ok(10_000_000_000));
    let txid = genesis().txs[0].hash();
    assert_eq!(db.get(Cf::Coinbase, &txid), Some(vec![0; 8]));
    let position = db.get(Cf::TxIndex, &txid).unwrap();
    assert_eq!(deserialize_position(&position), Some((0, 0)));
}

#[test]
fn a_chain_refuses_a_first_block_without_a_target() {
    let mut db = Snapshot::new();
    let mut b = genesis();
    b.header.bits = 0xff00_0001;
    let r = Chain::new(&mut db, &b, easy(1), &proofs(1), HashMap::new());
    assert!(matches!(r, Err(ChainError::InvalidBlock(_))));
}

#[test]
fn a_block_on_the_best_one_becomes_the_best_one() {
    let mut db = Snapshot::new();
    let mut c = chain(&mut db);
    let b = block_after(easy(1), 1);
    assert_eq!(
        c.decide_block(&db, &b, easy(2), NOW, &proofs(1), BatchVerdict::Accepted),
        Ok(Step::Reorg(1, 0))
    );
    assert_eq!(add(&mut c, &mut db, &b, easy(2), 0), Ok(true));
    assert_eq!(c.best_height, 1);
    assert_eq!(db.get(Cf::Default, &make_tip_key()), Some(easy(2).to_vec()));
    assert_eq!(load_current_height(&db), Ok(1));
    assert_eq!(load_current_tip(&db), Ok(easy(2)));
    assert_eq!(c.load_block_from_db(&db, 1).unwrap().txs, b.txs);
    assert_eq!(c.load_header(&db, 1).unwrap().timestamp, b.header.timestamp);
    assert_eq!(db.get(Cf::Default, &make_journal_key(b"journal")), None);
}

#[test]
fn an_added_block_leaves_the_pool() {
    let mut db = Snapshot::new();
    let mut c = chain(&mut db);
    let b = block_after(easy(1), 1);
    let mined = b.txs[0].clone();
    let mut known = Snapshot::new();
    let spent = TXOutput { value: subsidy(0), script_pubkey: vec![], commitment: None };
    let none = make_outpoint_key(false, &mined.inputs[0].txid, mined.inputs[0].vout);
    known.apply(put_op(Cf::Utxo, &none, &serialize_output(&spent)));
    known.apply(put_op(Cf::Utxo, &make_outpoint_key(false, &[5; 32], 0), &serialize_output(&spent)));
    let other_tx = spend([5; 32]);
    let mut pool = Mempool::new(1_000_000);
    assert_eq!(pool.insert(mined.clone(), &known, 5), Ok(Admission::Added));
    assert_eq!(pool.insert(other_tx.clone(), &known, 5), Ok(Admission::Added));
    let found = proofs(1);
    // A block that waits leaves the pool as it is.
    let stranger = block_after(easy(9), 1);
    let r = c.add_block(
        &mut db,
        &mut pool,
        &stranger,
        easy(7),
        NOW,
        "journal",
        &found,
        BatchVerdict::Accepted,
        &vec![],
    );
    assert_eq!(r, Ok(false));
    assert!(pool.contains(&mined.hash()));
    let r = c.add_block(
        &mut db,
        &mut pool,
        &b,
        easy(2),
        NOW,
        "journal",
        &found,
        BatchVerdict::Accepted,
        &vec![],
    );
    assert_eq!(r, Ok(true));
    assert_eq!(c.best(), (easy(1), 1));
    assert!(!pool.contains(&mined.hash()));
    assert!(pool.contains(&other_tx.hash()));
    // The last transaction of the pool takes the average with it.
    let mut db = Snapshot::new();
    let mut c = chain(&mut db);
    let mut pool = Mempool::new(1_000_000);
    assert_eq!(pool.insert(mined, &known, 5), Ok(Admission::Added));
    let r = c.add_block(
        &mut db,
        &mut pool,
        &b,
        easy(2),
        NOW,
        "journal",
        &found,
        BatchVerdict::Accepted,
        &vec![],
    );
    assert_eq!(r, Err(other("Mempool stuck")));
    assert_eq!(pool.len(), 0);
    assert_eq!(load_current_height(&db), Ok(1));
}

#[test]
fn a_template_follows_the_best_block() {
    let mut db = Snapshot::new();
    let c = chain(&mut db);
    let mut known = Snapshot::new();
    let spent = TXOutput { value: 100, script_pubkey: vec![], commitment: None };
    known.apply(put_op(Cf::Utxo, &make_outpoint_key(false, &[5; 32], 0), &serialize_output(&spent)));
    let mut pool = Mempool::new(1_000_000);
    assert_eq!(pool.insert(spend([5; 32]), &known, 5), Ok(Admission::Added));
    let t = next_template(&c, &db, &pool, b"x", &key(), "").unwrap();
    assert_eq!(t.prev_hash, easy(1));
    assert_eq!(t.bits, 0x1d00ffff);
    assert_eq!(t.txs.len(), 2);
    assert!(t.txs[0].is_coinbase());
    assert_eq!(t.txs[0].outputs[0].value, subsidy(1));
    assert_eq!(t.txs[1], spend([5; 32]));
    assert_eq!(t.merkle_root, Block::compute_merkle_root(&t.txs));
}

#[test]
fn transparent_blocks_without_fees_balance() {
    let b = genesis();
    let none = OutputMap::new();
    assert_eq!(check_commitments(&b, &none, 0, BatchVerdict::Failed), Ok(()));
    assert_eq!(
        check_commitments(&b, &none, 1, BatchVerdict::Accepted),
        Err(ChainError::InvalidCommitment)
    );
}

#[test]
fn known_blocks_and_strangers_wait() {
    let mut db = Snapshot::new();
    let mut c = chain(&mut db);
    assert_eq!(add(&mut c, &mut db, &genesis(), easy(1), 0), Ok(false));
    assert_eq!(c.orphan_blocks.len(), 0);
    let stranger = block_after(easy(9), 1);
    assert_eq!(
        c.decide_block(&db, &stranger, easy(2), NOW, &proofs(1), BatchVerdict::Accepted),
        Ok(Step::Wait)
    );
    assert_eq!(add(&mut c, &mut db, &stranger, easy(2), 0), Ok(false));
    assert_eq!(c.orphan_blocks.len(), 1);
    assert_eq!(c.best_height, 0);
    let waiting = c.process_orphans(NOW + 5);
    assert_eq!(waiting.len(), 1);
    assert_eq!(c.orphan_blocks.len(), 0);
    for o in waiting {
        c.restore_orphan(o);
    }
    assert_eq!(c.orphan_blocks.len(), 1);
    assert_eq!(c.process_orphans(NOW + ORPHAN_TTL_MS).len(), 0);
}

#[test]
fn refused_blocks_change_nothing() {
    let mut db = Snapshot::new();
    let mut c = chain(&mut db);
    let good = block_after(easy(1), 1);
    let mut cases: Vec<(Block, [u8; 32], ChainError)> = vec![];
    cases.push((good.clone(), [0xff; 32], ChainError::InsufficientPoW));
    let mut b = good.clone();
    b.header.bits = 0x1d00fffe;
    cases.push((b, easy(2), ChainError::InvalidBlock("Invalid bits".to_string())));
    let mut b = good.clone();
    b.header.merkle_root[0] ^= 1;
    cases.push((b, easy(2), ChainError::InvalidBlock("Invalid Merkle root".to_string())));
    let mut b = good.clone();
    b.txs = vec![];
    b.header.merkle_root = [0; 32];
    cases.push((b, easy(2), ChainError::InvalidBlock("No coinbase".to_string())));
    let mut b = good.clone();
    b.txs[0].outputs[0].value += 1;
    b.header.merkle_root = Block::compute_merkle_root(&b.txs);
    cases.push((b, easy(2), ChainError::InvalidCoinbaseFee));
    let mut b = good.clone();
    b.header.timestamp = GENESIS_TIMESTAMP + 7201;
    cases.push((b, easy(2), ChainError::InvalidTimestamp));
    let mut b = good.clone();
    b.header.bits = 0xff00_0001;
    cases.push((b, easy(2), ChainError::InvalidBlock("target exponent too large".to_string())));
    let mut b = good.clone();
    b.txs.push(spend([5; 32]));
    b.header.merkle_root = Block::compute_merkle_root(&b.txs);
    cases.push((b, easy(2), ChainError::MissingUTXO));
    for (b, hash, e) in cases {
        assert_eq!(add(&mut c, &mut db, &b, hash, 0), Err(e));
        assert_eq!(c.best_height, 0);
        assert_eq!(c.best_tip, easy(1));
    }
    assert_eq!(add(&mut c, &mut db, &good, easy(2), 0), Ok(true));
}

#[test]
fn checkpoints_bind() {
    let mut db = Snapshot::new();
    let checkpoints: HashMap<usize, [u8; 32]> = [(1, easy(7))].into_iter().collect();
    let mut c = Chain::new(&mut db, &genesis(), easy(1), &proofs(1), checkpoints).unwrap();
    let b = block_after(easy(1), 1);
    assert_eq!(add(&mut c, &mut db, &b, easy(2), 0), Err(ChainError::AttackDetected));
    assert_eq!(add(&mut c, &mut db, &b, easy(7), 0), Ok(true));
}

#[test]
fn blocks_are_checked_on_their_own() {
    let mut db = Snapshot::new();
    let c = chain(&mut db);
    let b = block_after(easy(1), 1);
    let now = GENESIS_TIMESTAMP;
    let none = HashMap::new();
    let context = BlockContext { best_height: 0, height: 1, now, checkpoints: &none };
    assert_eq!(check_work(&b, &easy(2)), Ok(()));
    assert_eq!(check_work(&b, &[1; 32]), Err(ChainError::InsufficientPoW));
    assert_eq!(check_body(&b, 0, &db, 1, &proofs(1), BatchVerdict::Accepted), Ok(()));
    assert_eq!(check_time(&b, &easy(2), &context, &db), Ok(()));
    assert_eq!(
        validate_block(&b, &easy(2), &context, &db, &proofs(1), BatchVerdict::Accepted),
        Ok(())
    );
    assert_eq!(
        c.validate_block(&b, &easy(2), 1, now, &db, &proofs(1), BatchVerdict::Accepted),
        Ok(())
    );
    assert_eq!(
        c.validate_block(&b, &easy(2), 1, now - 8000, &db, &proofs(1), BatchVerdict::Accepted),
        Err(ChainError::InvalidTimestamp)
    );
}

#[test]
fn a_large_block_is_refused() {
    let mut b = block_after(easy(1), 1);
    b.txs[0].inputs[0].script_sig = vec![0; 4_000_000];
    assert_eq!(
        check_work(&b, &easy(2)),
        Err(ChainError::InvalidBlock("Block too large".to_string()))
    );
}

#[test]
fn disconnecting_undoes_connecting() {
    let mut db = Snapshot::new();
    let mut c = chain(&mut db);
    let spent = TXOutput { value: 60, script_pubkey: vec![4], commitment: None };
    db.apply(put_op(Cf::Utxo, &make_outpoint_key(false, &[5; 32], 0), &serialize_output(&spent)));
    let mut set = [0u8; 32];
    xor_hash(&mut set, &hash_utxo_entry(&[5; 32], 0, &spent));
    c.state.utxo_set_hash = set;
    c.state.total_supply = 60;
    let mut b = block_after(easy(1), 1);
    b.txs.push(spend([5; 32]));
    let work = target_work(&compact_to_target(b.header.bits).unwrap());
    c.apply_block_action(&mut db, &b, easy(2), 1, BlockAction::Connect, true, &work, &proofs(2))
        .unwrap();
    assert_eq!(c.best_height, 1);
    assert_eq!(c.best_tip, easy(2));
    assert_eq!(db.get(Cf::Utxo, &make_outpoint_key(false, &[5; 32], 0)), None);
    let made = make_outpoint_key(false, &b.txs[1].hash(), 0);
    assert_eq!(db.get(Cf::Utxo, &made), Some(serialize_output(&b.txs[1].outputs[0])));
    let mut expected = [0u8; 32];
    xor_hash(&mut expected, &hash_utxo_entry(&b.txs[1].hash(), 0, &b.txs[1].outputs[0]));
    assert_eq!(c.state.utxo_set_hash, expected);
    assert_eq!(db.get(Cf::Default, &make_set_hash_key()), Some(expected.to_vec()));
    assert_eq!(db.get(Cf::Default, &make_supply_key()), Some(60u64.to_be_bytes().to_vec()));
    assert_eq!(load_supply_from_db(&db), Ok(subsidy(0) + subsidy(1)));
    assert_eq!(c.state.total_supply, subsidy(0) + subsidy(1));
    // What was spent has to be there for it to be counted back in.
    db.apply(put_op(Cf::Utxo, &make_outpoint_key(false, &[5; 32], 0), &serialize_output(&spent)));
    let mut d = Delta::new(expected, 60);
    d.apply_utxo_changes(&db, BlockAction::Disconnect, 1, &b, &proofs(2)).unwrap();
    assert_eq!(d.set_hash, set);
    assert_eq!(d.supply, 60);
    db.apply_all(&d.ops);
    assert_eq!(db.get(Cf::Utxo, &made), None);
}

#[test]
fn disconnecting_takes_outputs_the_other_way_round() {
    let mut db = Snapshot::new();
    let spent = TXOutput { value: 60, script_pubkey: vec![4], commitment: None };
    db.apply(put_op(Cf::Utxo, &make_outpoint_key(false, &[5; 32], 0), &serialize_output(&spent)));
    for (scripts, same) in [([1u8, 2, 1], true), ([1, 2, 3], false)] {
        let mut b = block_after(easy(1), 1);
        let mut t = spend([5; 32]);
        t.outputs = scripts
            .iter()
            .map(|s| TXOutput { value: 20, script_pubkey: vec![*s], commitment: None })
            .collect();
        b.txs.push(t);
        let mut d = Delta::new([8; 32], 100);
        d.apply_utxo_changes(&db, BlockAction::Connect, 1, &b, &proofs(2)).unwrap();
        assert_eq!(d.supply, 100);
        assert_ne!(d.set_hash, [8; 32]);
        let mut e = Delta::new(d.set_hash, d.supply);
        e.apply_utxo_changes(&db, BlockAction::Disconnect, 1, &b, &proofs(2)).unwrap();
        assert_eq!(e.supply, 100);
        assert_eq!(e.set_hash == [8; 32], same);
    }
}

#[test]
fn taking_writes_back_restores_the_database() {
    let mut db = Snapshot::new();
    let mut c = chain(&mut db);
    let spent = TXOutput { value: 60, script_pubkey: vec![4], commitment: None };
    let place = make_outpoint_key(false, &[5; 32], 0);
    db.apply(put_op(Cf::Utxo, &place, &serialize_output(&spent)));
    c.state.total_supply = 60;
    let mut b = block_after(easy(1), 1);
    b.txs.push(spend([5; 32]));
    let work = BigUint::from(1u32);
    let plan = c
        .begin_block_action(&db, &b, easy(2), 1, BlockAction::Connect, true, &work, &proofs(2))
        .unwrap();
    db.apply_all(&plan.ops);
    assert_eq!(db.get(Cf::Utxo, &place), None);
    db.apply_all(&reverse_ops(&plan.undo));
    assert_eq!(db.get(Cf::Utxo, &place), Some(serialize_output(&spent)));
    assert_eq!(db.get(Cf::Utxo, &make_outpoint_key(false, &b.txs[1].hash(), 0)), None);
    assert!(matches!(c.finish_block_action(plan, WriteOutcome::Stuck), Err(e) if e == other("Write error")));
    assert!(c.is_read_only());
    assert!(retry_rollback(2));
    assert!(!retry_rollback(3));
    // The action was never finished, so no other can begin.
    let again =
        c.begin_block_action(&db, &b, easy(2), 1, BlockAction::Connect, true, &work, &proofs(2));
    assert!(matches!(again, Err(e) if e == other("Batch pending, cannot apply action")));
}

#[test]
fn missing_outputs_stop_an_action() {
    let mut db = Snapshot::new();
    let mut c = chain(&mut db);
    let mut b = block_after(easy(1), 1);
    b.txs.push(spend([5; 32]));
    let work = BigUint::from(1u32);
    assert_eq!(
        c.apply_block_action(&mut db, &b, easy(2), 1, BlockAction::Connect, true, &work, &proofs(2)),
        Err(ChainError::MissingUTXO)
    );
    assert_eq!(
        c.apply_block_action(&mut db, &b, easy(2), 1, BlockAction::Connect, true, &work, &proofs(2)),
        Err(other("Batch pending, cannot apply action"))
    );
}

#[test]
fn a_branch_with_less_work_stays_beside() {
    let mut db = Snapshot::new();
    let mut c = chain(&mut db);
    let b1 = block_after(easy(1), 1);
    let work = target_work(&compact_to_target(b1.header.bits).unwrap());
    c.apply_block_action(&mut db, &b1, easy(2), 1, BlockAction::Connect, true, &work, &proofs(1))
        .unwrap();
    db.apply_all(&c.save_block(1, &b1, &easy(2)));
    let rival = block_after(easy(1), 2);
    assert_eq!(
        c.decide_block(&db, &rival, easy(3), NOW, &proofs(1), BatchVerdict::Accepted),
        Ok(Step::Side(1))
    );
    assert_eq!(add(&mut c, &mut db, &rival, easy(3), 1), Ok(false));
    assert_eq!(c.best_height, 1);
    assert_eq!(c.best_tip, easy(2));
}

#[test]
fn a_longer_branch_with_less_work_stays_beside() {
    let mut db = Snapshot::new();
    let mut c = chain(&mut db);
    let b1 = block_after(easy(1), 1);
    let work = target_work(&compact_to_target(b1.header.bits).unwrap());
    c.apply_block_action(&mut db, &b1, easy(2), 1, BlockAction::Connect, false, &work, &proofs(1))
        .unwrap();
    db.apply_all(&c.save_block(1, &b1, &easy(2)));
    let b2 = block_after(easy(2), 2);
    assert_eq!(c.best_height, 0);
    assert!(!c.stays_in_range(&b2));
    assert!(c.stays_in_range(&block_after(easy(1), 2)));
    assert!(c.stays_in_range(&block_after(easy(9), 2)));
    let mut without_target = b2.clone();
    without_target.header.bits = 0xff00_0001;
    assert!(c.stays_in_range(&without_target));
    c.state.cumulative_work.insert(0, BigUint::from(u64::MAX));
    assert!(c.stays_in_range(&b2));
    assert_eq!(
        c.decide_block(&db, &b2, easy(3), NOW, &proofs(1), BatchVerdict::Accepted),
        Ok(Step::Side(2))
    );
    assert_eq!(add(&mut c, &mut db, &b2, easy(3), 0), Ok(false));
    assert_eq!(c.best_height, 0);
}

#[test]
fn a_reorganization_is_recorded_first() {
    let mut db = Snapshot::new();
    let mut c = chain(&mut db);
    let b1 = block_after(easy(1), 1);
    assert_eq!(add(&mut c, &mut db, &b1, easy(2), 0), Ok(true));
    let b2 = block_after(easy(1), 2);
    let journal = c.reorg_journal("one", 1, &b2);
    assert_eq!(journal.old_tip_height, 1);
    assert_eq!(journal.disconnect_depth, 1);
    let bytes = serialize_journal(&journal);
    let read = deserialize_journal(&bytes).unwrap();
    assert_eq!(read.journal_id, "one");
    assert_eq!(read.new_block.txs, b2.txs);
    assert!(deserialize_journal(&bytes[..20]).is_none());
    db.apply(start_reorg_journal(&journal));
    assert_eq!(db.get(Cf::Default, &make_journal_key(b"one")), Some(bytes));
    let ops = c.reorg_writes(&db, 1, &vec![proofs(1)], &b2, &proofs(1)).unwrap();
    assert!(!ops.is_empty());
    db.apply_all(&ops);
    c.finish_reorg(1);
    db.apply(end_reorg_journal("one"));
    assert_eq!(db.get(Cf::Default, &make_journal_key(b"one")), None);
    assert_eq!(c.best_height, 1);
    assert_eq!(db.get(Cf::Coinbase, &b1.txs[0].hash()), None);
    assert!(db.get(Cf::Coinbase, &b2.txs[0].hash()).is_some());
}

#[test]
fn a_recorded_reorganization_is_completed_once() {
    let mut db = Snapshot::new();
    let mut c = chain(&mut db);
    let b1 = block_after(easy(1), 1);
    assert_eq!(add(&mut c, &mut db, &b1, easy(2), 0), Ok(true));
    let b2 = block_after(easy(1), 2);
    let journal = ReorgJournal {
        journal_id: "one".to_string(),
        old_tip_height: 1,
        old_tip_hash: easy(2),
        disconnect_depth: 1,
        new_block: b2.clone(),
    };
    let direct = c.reorg_writes(&db, 1, &vec![proofs(1)], &b2, &proofs(1)).unwrap();
    let ops = recover_pending_reorg(
        c.state.utxo_set_hash,
        c.state.total_supply,
        &db,
        &journal,
        &vec![proofs(1)],
        &proofs(1),
    )
    .unwrap();
    assert!(ops.len() >= direct.len());
    for (a, b) in ops.iter().zip(direct.iter()) {
        assert_eq!(a.key, b.key);
        assert_eq!(a.value, b.value);
    }
    db.apply(put_op(Cf::Default, &make_tip_key(), &easy(3)));
    let ops = recover_pending_reorg(
        c.state.utxo_set_hash,
        c.state.total_supply,
        &db,
        &journal,
        &vec![proofs(1)],
        &proofs(1),
    )
    .unwrap();
    assert!(ops.len() <= 1);
}

#[test]
fn headers_are_walked_through() {
    let mut db = Snapshot::new();
    let mut c = chain(&mut db);
    for n in 1..4u8 {
        let b = block_after(easy(n), n);
        let work = BigUint::from(1u32);
        c.apply_block_action(&mut db, &b, easy(n + 1), n as usize, BlockAction::Connect, true, &work, &proofs(1))
            .unwrap();
    }
    let mut walk = c.get_headers(&easy(1), easy(3));
    let mut n = 2;
    while let Some(h) = walk.next_header(&db).unwrap() {
        walk.take_header(h, &easy(n));
        n += 1;
    }
    let headers = walk.headers();
    assert_eq!(headers.len(), 2);
    assert_eq!(headers[0].prev_hash, easy(1));
    assert_eq!(headers[1].prev_hash, easy(2));
    for (i, h) in headers.iter().enumerate() {
        let stored = c.load_header(&db, i + 1).unwrap();
        assert_eq!(serialize_header(h), serialize_header(&stored));
    }
    // Where no header is the one to stop at, the walk ends at the best block.
    let mut walk = c.get_headers(&easy(1), [0; 32]);
    let mut n = 2;
    while let Some(h) = walk.next_header(&db).unwrap() {
        walk.take_header(h, &easy(n));
        n += 1;
    }
    assert_eq!(walk.headers().len(), c.best_height);
    assert!(c.get_headers(&[9; 32], [0; 32]).next_header(&db).unwrap().is_none());
}

#[test]
fn stored_blocks_load() {
    let mut db = Snapshot::new();
    assert_eq!(load_current_height(&db), Err(other("Missing height")));
    assert_eq!(load_current_tip(&db), Err(other("Missing tip")));
    assert!(matches!(load_block_by_height(&db, 3), Err(e) if e == other("Missing hash")));
    let b = block_after(easy(1), 1);
    db.apply_all(&save_block(3, &b, &easy(4)));
    assert_eq!(load_block_by_height(&db, 3).unwrap().txs, b.txs);
    assert_eq!(load_header(&db, 3).unwrap().timestamp, b.header.timestamp);
    assert_eq!(load_current_height(&db), Ok(3));
    assert_eq!(load_current_tip(&db), Ok(easy(4)));
    db.apply_all(&make_prune_ops(&b, &easy(4)));
    assert!(load_block_by_height(&db, 3).is_err());
    db.apply(put_op(Cf::Default, &make_best_height_key(), &[1]));
    assert_eq!(load_current_height(&db), Err(other("Invalid height bytes")));
    db.apply(put_op(Cf::Default, &make_header_key(3), &[1]));
    assert!(matches!(load_header(&db, 3), Err(e) if e == other("Deserialize header failed")));
}

#[test]
fn the_median_is_in_the_middle() {
    assert_eq!(median_of(&vec![]), 0);
    assert_eq!(median_of(&vec![5]), 5);
    assert_eq!(median_of(&vec![9, 1, 5]), 5);
    assert_eq!(median_of(&vec![9, 1, 5, 7]), 7);
    let mut db = Snapshot::new();
    for n in 0..12u8 {
        let b = block_after(easy(n), n);
        db.apply_all(&save_block(n as usize, &b, &easy(n + 1)));
    }
    assert!(are_times_readable(&db, 11));
    assert_eq!(get_median_timestamp(&db, 11), GENESIS_TIMESTAMP + 360);
    assert_eq!(get_median_timestamp(&db, 2), GENESIS_TIMESTAMP + 60);
    db.apply(put_op(Cf::Default, &lyrion::keys::make_block_key(&easy(3)), &[1]));
    assert!(!are_times_readable(&db, 3));
}

#[test]
fn targets_change_with_every_interval() {
    let mut db = Snapshot::new();
    assert!(!are_bits_computable(&db, 0));
    assert!(!are_bits_computable(&db, 1));
    let mut first = genesis();
    first.header.bits = 0x1c00ffff;
    db.apply(put_op(Cf::Default, &make_header_key(0), &serialize_header(&first.header)));
    assert!(are_bits_computable(&db, 1));
    assert_eq!(calculate_next_bits(&db, 1), Ok(0x1c00ffff));
    let mut last = first.clone();
    last.header.timestamp += 60_480;
    db.apply(put_op(Cf::Default, &make_header_key(2015), &serialize_header(&last.header)));
    assert!(are_bits_computable(&db, 2016));
    assert_eq!(calculate_next_bits(&db, 2016), Ok(0x1b7fff80));
}

#[test]
fn supplies_are_summed_up() {
    let output = |value: u64| {
        serialize_output(&TXOutput { value, script_pubkey: vec![], commitment: None })
    };
    assert_eq!(compute_cf_supply(&vec![output(3), output(4)]), Ok(7));
    assert_eq!(
        compute_cf_supply(&vec![output(u64::MAX), output(1)]),
        Err(ChainError::ValueOverflow)
    );
    assert_eq!(
        compute_cf_supply(&vec![vec![1]]),
        Err(other("Deserialize failed in supply validation"))
    );
    assert_eq!(issued_up_to(0), Some(10_000_000_000));
    assert_eq!(issued_up_to(1), Some(20_000_000_000));
    let all = vec![output(15_000_000_000)];
    let rest = vec![output(5_000_000_000)];
    assert_eq!(validate_supply_full(&all, &rest, 1), Ok(()));
    assert_eq!(validate_supply_full(&all, &rest, 2), Err(ChainError::SupplyMismatch));
    assert_eq!(validate_state_full(&all, &rest, 1), Ok(()));
    assert_eq!(
        validate_state_full(&all, &vec![], 1),
        Err(ChainError::InvalidBlock("Supply mismatch".to_string()))
    );
    let mut db = Snapshot::new();
    let mut c = chain(&mut db);
    assert_eq!(c.validate_supply_full(&vec![output(10_000_000_000)], &vec![]), Ok(()));
    assert!(c.validate_state_full(&vec![], &vec![]).is_err());
    db.apply(put_op(Cf::Default, &make_supply_key(), &7u64.to_be_bytes()));
    assert_eq!(check_state(&db, 7), Ok(()));
    assert_eq!(check_state(&db, 8), Err(ChainError::SupplyMismatch));
    assert_eq!(c.validate_state(&db), Err(ChainError::SupplyMismatch));
    assert_eq!(
        c.check_after_block(&db, STATE_CHECK_INTERVAL),
        Err(ChainError::SupplyMismatch)
    );
    assert_eq!(c.check_after_block(&db, STATE_CHECK_INTERVAL + 1), Ok(()));
    assert_eq!(
        c.validate_supply_smart(&db, &vec![], &vec![]),
        Err(ChainError::SupplyMismatch)
    );
    db.apply(put_op(Cf::Default, &make_supply_key(), &10_000_000_000u64.to_be_bytes()));
    assert_eq!(c.validate_supply_smart(&db, &vec![], &vec![]), Ok(()));
    assert_eq!(c.state.total_supply, 10_000_000_000);
    db.apply(put_op(Cf::Default, &make_supply_key(), &[1]));
    assert_eq!(check_state(&db, 7), Err(other("Invalid supply bytes")));
    db.apply(del_op(Cf::Default, &make_supply_key()));
    assert_eq!(check_state(&db, 7), Ok(()));
    db.apply(put_op(Cf::Default, &make_issued_key(), &[1]));
    assert_eq!(load_supply_from_db(&db), Err(other("Invalid supply bytes")));
}

#[test]
fn a_chain_loads_from_its_records() {
    let output =
        serialize_output(&TXOutput { value: 20_000_000_000, script_pubkey: vec![], commitment: None });
    let mut db = Snapshot::new();
    let load = |db: &Snapshot| Chain::load_from_db(db, HashMap::new(), &vec![output.clone()], &vec![]);
    assert!(matches!(load(&db), Err(e) if e == other("Missing tip")));
    let first = genesis();
    db.apply_all(&save_block(0, &first, &easy(1)));
    let second = block_after(easy(1), 1);
    db.apply_all(&save_block(1, &second, &easy(2)));
    assert!(load(&db).is_err());
    db.apply(put_op(Cf::Default, &make_genesis_key(), &easy(1)));
    let c = load(&db).unwrap();
    assert_eq!(c.best_height, 1);
    assert_eq!(c.best_tip, easy(2));
    assert_eq!(c.get_genesis_hash(), easy(1));
    assert_eq!(c.state.hash_to_height.get(&easy(2)), Some(1));
    assert_eq!(c.state.work_up_to(1), BigUint::from(0x2_0002_0002u64));
    db.apply(del_op(Cf::Default, &make_height_key(0)));
    assert!(load(&db).is_err());
}

fn orphan(n: u16, time: u128) -> Orphan {
    let mut hash = [0u8; 32];
    hash[..2].copy_from_slice(&n.to_be_bytes());
    Orphan { hash, block: block_after(easy(9), 1), time }
}

#[test]
fn waiting_blocks_are_bounded() {
    let mut v: Vec<Orphan> = vec![];
    for n in 0..=MAX_ORPHANS as u16 {
        insert_orphan(&mut v, orphan(n, if n == 7 { 1 } else { 100 }));
    }
    insert_orphan(&mut v, orphan(3, 200));
    assert_eq!(v.len(), MAX_ORPHANS + 1);
    bound_orphans(&mut v);
    assert_eq!(v.len(), MAX_ORPHANS);
    assert!(v.iter().all(|o| o.hash != orphan(7, 0).hash));
    assert_eq!(v.iter().filter(|o| o.time == 200).count(), 1);
    let kept = keep_fresh(&v, 100 + ORPHAN_TTL_MS);
    assert_eq!(kept.len(), 1);
}

#[test]
fn waiting_blocks_are_tried_until_none_fits() {
    let mut run = OrphanRun::start(vec![orphan(1, 5), orphan(2, 5), orphan(3, 5)]);
    assert_eq!(run.next().unwrap().hash, orphan(3, 5).hash);
    run.report(false);
    assert_eq!(run.next().unwrap().hash, orphan(2, 5).hash);
    run.report(true);
    run.report(false);
    // One was added, so the two that are left are tried again.
    assert_eq!(run.next().unwrap().hash, orphan(1, 5).hash);
    run.report(false);
    run.report(false);
    assert!(run.next().is_none());
    let left = run.finish(6);
    assert_eq!(left.len(), 2);
}

#[test]
fn heights_are_found_by_hash() {
    let mut m = IdMap::new();
    m.insert(easy(1), 4);
    m.insert(easy(2), 5);
    m.insert(easy(1), 6);
    assert_eq!(m.get(&easy(1)), Some(6));
    assert_eq!(m.get(&easy(2)), Some(5));
    assert_eq!(m.get(&easy(3)), None);
}

#[test]
fn states_keep_and_forget_blocks() {
    let mut s = ChainState::new();
    let b = block_after(easy(1), 1);
    s.record(3, easy(4), BigUint::from(9u32));
    s.keep_block(3, b.clone());
    assert_eq!(s.work_up_to(3), BigUint::from(9u32));
    assert_eq!(s.prune(2).len(), 0);
    let ops = s.prune(3);
    assert!(!ops.is_empty());
    assert!(!s.blocks.contains_key(&3));
    assert_eq!(s.prune(3).len(), 0);
}

#[test]
fn the_database_keeps_what_was_written_last() {
    let mut db = Snapshot::new();
    let ops: Vec<Op> = vec![
        put_op(Cf::Default, b"a", b"1"),
        put_op(Cf::Utxo, b"a", b"2"),
        put_op(Cf::Default, b"a", b"3"),
        put_op(Cf::Default, b"b", b"4"),
        del_op(Cf::Default, b"b"),
    ];
    db.apply_all(&ops);
    assert_eq!(db.get(Cf::Default, b"a"), Some(b"3".to_vec()));
    assert_eq!(db.get(Cf::Utxo, b"a"), Some(b"2".to_vec()));
    assert_eq!(db.get(Cf::Default, b"b"), None);
    assert_eq!(reverse_ops(&ops)[0].key, b"b".to_vec());
}

#[test]
fn hashes_of_outputs_cancel_out() {
    let o = TXOutput { value: 1, script_pubkey: vec![2], commitment: None };
    let h = hash_utxo_entry(&[3; 32], 4, &o);
    assert_ne!(h, hash_utxo_entry(&[3; 32], 5, &o));
    let mut acc = [9u8; 32];
    xor_hash(&mut acc, &h);
    assert_ne!(acc, [9u8; 32]);
    xor_hash(&mut acc, &h);
    assert_eq!(acc, [9u8; 32]);
}

#[test]
fn a_key_image_is_recorded_once() {
    let db = Snapshot::new();
    let mut t = spend([5; 32]);
    t.is_anonymous = true;
    let ring = |ok: bool| {
        vec![lyrion::anon::RingProof { key_image_valid: ok, ring_len: Some(1), verifies: true }]
    };
    let mut d = Delta::new([0; 32], 60);
    assert_eq!(
        d.handle_utxo_action(&db, BlockAction::Connect, 1, &t, &ring(true)),
        Err(ChainError::InvalidScript)
    );
    t.inputs[0].script_sig = vec![6; 32];
    assert_eq!(
        d.handle_utxo_action(&db, BlockAction::Connect, 1, &t, &ring(false)),
        Err(ChainError::InvalidKeyImage)
    );
    let mut db = db;
    let spent = TXOutput { value: 60, script_pubkey: vec![4], commitment: None };
    db.apply(put_op(Cf::Anonymous, &make_outpoint_key(true, &[5; 32], 0), &serialize_output(&spent)));
    let mut d = Delta::new([0; 32], 60);
    assert_eq!(d.handle_utxo_action(&db, BlockAction::Connect, 1, &t, &ring(true)), Ok(()));
    db.apply_all(&d.ops);
    assert_eq!(db.get(Cf::KeyImages, &[6; 32]), Some(1u64.to_be_bytes().to_vec()));
    let mut d = Delta::new([0; 32], 60);
    assert_eq!(
        d.handle_utxo_action(&db, BlockAction::Connect, 2, &t, &ring(true)),
        Err(ChainError::DoubleSpend)
    );
}
