use lyrion::codec::serialize_output;
use lyrion::errors::{other, ChainError};
use lyrion::keys::make_outpoint_key;
use lyrion::mempool::{holds_id, Admission, Mempool};
use lyrion::pool_maps::MempoolEntry;
use lyrion::store::{put_op, Cf, Snapshot};
use lyrion::tx::{Block, BlockHeader, TXInput, TXOutput, Transaction};
use std::sync::Arc;

const SIZE: u64 = 99;

/// A transaction that spends output `n`, which holds 100,000, and leaves a fee.
fn paying(n: u8, fee: u64, db: &mut Snapshot) -> Transaction {
    let spent = TXOutput { value: 100_000, script_pubkey: vec![1], commitment: None };
    db.apply(put_op(Cf::Utxo, &make_outpoint_key(false, &[n; 32], 0), &serialize_output(&spent)));
    Transaction {
        version: 1,
        is_anonymous: false,
        inputs: vec![TXInput { txid: [n; 32], vout: 0, script_sig: vec![], sequence: u32::MAX }],
        outputs: vec![TXOutput { value: 100_000 - fee, script_pubkey: vec![2], commitment: None }],
        lock_time: 0,
        range_proofs: vec![],
    }
}

/// A transaction without outputs that spends one of the pool's.
fn child_of(t: &Transaction) -> Transaction {
    Transaction {
        version: 1,
        is_anonymous: false,
        inputs: vec![TXInput { txid: t.hash(), vout: 0, script_sig: vec![], sequence: u32::MAX }],
        outputs: vec![],
        lock_time: 0,
        range_proofs: vec![],
    }
}

fn anonymous(n: u8, image: u8, db: &mut Snapshot) -> Transaction {
    let spent = TXOutput { value: 100_000, script_pubkey: vec![1], commitment: None };
    db.apply(put_op(Cf::Anonymous, &make_outpoint_key(true, &[n; 32], 0), &serialize_output(&spent)));
    let mut t = paying(n, 5_000, db);
    t.is_anonymous = true;
    t.inputs[0].script_sig = vec![image; 32];
    t
}

#[test]
fn transactions_are_taken_in_once() {
    let mut db = Snapshot::new();
    let mut pool = Mempool::new(1_000_000);
    let t = paying(1, 99_000, &mut db);
    assert_eq!(t.size() as u64, SIZE);
    assert_eq!(pool.insert(t.clone(), &db, 5), Ok(Admission::Added));
    assert_eq!(pool.insert(t.clone(), &db, 6), Ok(Admission::Known));
    assert_eq!(pool.len(), 1);
    assert_eq!(pool.bytes() as u64, SIZE);
    assert_eq!(pool.average_fee(), 1000);
    assert!(pool.contains(&t.hash()));
    assert!(!pool.contains(&[0; 32]));
    assert_eq!(pool.get(&t.hash()), Some(t.clone()));
    assert_eq!(pool.get(&[0; 32]), None);
    assert_eq!(pool.transactions(), vec![t]);
    let u = paying(2, 9_900, &mut db);
    assert_eq!(pool.insert(u, &db, 7), Ok(Admission::Added));
    assert_eq!(pool.average_fee(), 550);
    assert_eq!(pool.len(), 2);
}

#[test]
fn refused_transactions_leave_the_pool_as_it_is() {
    let mut db = Snapshot::new();
    let mut pool = Mempool::new(1_000_000);
    let mut t = paying(1, 5_000, &mut db);
    t.inputs[0].vout = 3;
    assert_eq!(pool.insert(t, &db, 5), Err(ChainError::MissingUTXO));
    let mut t = paying(1, 0, &mut db);
    t.outputs[0].value += 1;
    assert_eq!(pool.insert(t, &db, 5), Err(ChainError::ValueOverflow));
    let mut t = paying(1, 5_000, &mut db);
    t.outputs[0].script_pubkey = vec![0; 500_000];
    assert_eq!(
        pool.insert(t, &db, 5),
        Err(ChainError::InvalidTx("Invalid size".to_string()))
    );
    let t = paying(1, 5_000, &mut db);
    db.apply(put_op(Cf::Utxo, &make_outpoint_key(false, &[1; 32], 0), &[1]));
    assert_eq!(pool.insert(t, &db, 5), Err(other("Deserialize output failed")));
    assert_eq!(pool.len(), 0);
    assert_eq!(pool.bytes(), 0);
}

#[test]
fn a_key_image_is_taken_once() {
    let mut db = Snapshot::new();
    let mut pool = Mempool::new(1_000_000);
    let t = anonymous(1, 7, &mut db);
    let other_tx = anonymous(2, 7, &mut db);
    let other_image = anonymous(3, 8, &mut db);
    assert_eq!(pool.insert(t.clone(), &db, 5), Ok(Admission::Added));
    assert_eq!(pool.insert(other_tx.clone(), &db, 5), Err(ChainError::DoubleSpend));
    assert_eq!(pool.insert(other_image, &db, 5), Ok(Admission::Added));
    assert!(pool.remove(&t.hash()));
    assert_eq!(pool.insert(other_tx, &db, 5), Ok(Admission::Added));
    let mut short = anonymous(4, 9, &mut db);
    short.inputs[0].script_sig = vec![9; 31];
    assert_eq!(pool.insert(short, &db, 5), Err(ChainError::InvalidScript));
}

#[test]
fn removing_takes_those_that_depend_along() {
    let mut db = Snapshot::new();
    let mut pool = Mempool::new(1_000_000);
    let t = paying(1, 99_000, &mut db);
    let keep = paying(2, 9_900, &mut db);
    let child = child_of(&t);
    for x in [&t, &keep, &child] {
        assert_eq!(pool.insert(x.clone(), &db, 5), Ok(Admission::Added));
    }
    assert_eq!(pool.len(), 3);
    assert!(pool.remove(&t.hash()));
    assert!(!pool.contains(&t.hash()));
    assert!(!pool.contains(&child.hash()));
    assert!(pool.contains(&keep.hash()));
    assert_eq!(pool.bytes() as u64, SIZE);
    assert!(pool.remove(&[0; 32]));
}

#[test]
fn removing_goes_all_the_way_down() {
    let mut db = Snapshot::new();
    let mut pool = Mempool::new(1_000_000);
    let t = paying(1, 99_000, &mut db);
    let child = child_of(&t);
    let grandchild = child_of(&child);
    let keep = paying(2, 9_900, &mut db);
    let kept_child = child_of(&keep);
    for x in [&t, &child, &grandchild, &keep, &kept_child] {
        assert_eq!(pool.insert(x.clone(), &db, 5), Ok(Admission::Added));
    }
    assert!(pool.remove(&t.hash()));
    assert!(!pool.contains(&child.hash()));
    assert!(!pool.contains(&grandchild.hash()));
    assert!(pool.contains(&keep.hash()));
    assert!(pool.contains(&kept_child.hash()));
    assert_eq!(pool.len(), 2);
}

#[test]
fn nothing_stays_without_what_it_depends_on() {
    let mut db = Snapshot::new();
    let mut pool = Mempool::new(3 * SIZE as usize);
    let low = paying(1, 0, &mut db);
    let child = child_of(&low);
    assert_eq!(pool.insert(low.clone(), &db, 2), Ok(Admission::Added));
    assert_eq!(pool.insert(child.clone(), &db, 1), Ok(Admission::Added));
    for n in 2..4 {
        let t = paying(n, 99_000, &mut db);
        assert_eq!(pool.insert(t.clone(), &db, 3), Ok(Admission::Added));
        assert!(pool.contains(&low.hash()) || !pool.contains(&child.hash()));
        assert!(pool.bytes() <= 3 * SIZE as usize);
    }
    assert!(!pool.contains(&low.hash()));
    assert!(!pool.contains(&child.hash()));
}

#[test]
fn removing_the_last_one_leaves_no_average() {
    let mut db = Snapshot::new();
    let mut pool = Mempool::new(1_000_000);
    let t = paying(1, 99_000, &mut db);
    assert_eq!(pool.insert(t.clone(), &db, 5), Ok(Admission::Added));
    assert!(!pool.remove(&t.hash()));
    assert_eq!(pool.len(), 0);
    assert_eq!(pool.bytes(), 0);
}

#[test]
fn several_are_removed_in_turn() {
    let mut db = Snapshot::new();
    let mut pool = Mempool::new(1_000_000);
    let all: Vec<Transaction> = (1..4).map(|n| paying(n, 99_000, &mut db)).collect();
    for t in &all {
        assert_eq!(pool.insert(t.clone(), &db, 5), Ok(Admission::Added));
    }
    let ids = vec![all[0].hash(), all[2].hash()];
    assert!(holds_id(&ids, &all[2].hash()));
    assert!(!holds_id(&ids, &all[1].hash()));
    assert!(pool.remove_all(&ids));
    assert_eq!(pool.transactions(), vec![all[1].clone()]);
}

#[test]
fn a_block_takes_its_transactions_out() {
    let mut db = Snapshot::new();
    let mut pool = Mempool::new(1_000_000);
    let all: Vec<Transaction> = (1..4).map(|n| paying(n, 99_000, &mut db)).collect();
    for t in &all {
        assert_eq!(pool.insert(t.clone(), &db, 5), Ok(Admission::Added));
    }
    let header = BlockHeader {
        version: 1,
        prev_hash: [0; 32],
        merkle_root: [0; 32],
        timestamp: 0,
        bits: 0x1d00ffff,
        nonce: 0,
    };
    let block = Block { header, txs: vec![all[1].clone(), all[2].clone()] };
    assert!(pool.remove_block(&block));
    assert_eq!(pool.transactions(), vec![all[0].clone()]);
}

#[test]
fn the_pool_stays_within_its_limit() {
    let mut db = Snapshot::new();
    let mut pool = Mempool::new(5 * SIZE as usize);
    for n in 1..6 {
        assert_eq!(pool.insert(paying(n, 99_000, &mut db), &db, 5), Ok(Admission::Added));
    }
    let cheap = paying(6, 99, &mut db);
    assert_eq!(pool.insert(cheap.clone(), &db, 5), Ok(Admission::Added));
    assert!(!pool.contains(&cheap.hash()));
    assert_eq!(pool.len(), 5);
    pool.update_max_size(10 * SIZE as usize);
    assert_eq!(pool.insert(cheap.clone(), &db, 5), Ok(Admission::Added));
    assert!(pool.contains(&cheap.hash()));
}

#[test]
fn the_cheapest_is_put_out_first() {
    let mut db = Snapshot::new();
    let mut pool = Mempool::new(1_000_000);
    let dear = paying(1, 99_000, &mut db);
    let cheap = paying(2, 99, &mut db);
    let fair = paying(3, 49_500, &mut db);
    for t in [&dear, &cheap, &fair] {
        assert_eq!(pool.insert(t.clone(), &db, 5), Ok(Admission::Added));
    }
    assert!(pool.evict_low_fee_package());
    assert!(!pool.contains(&cheap.hash()));
    assert_eq!(pool.len(), 2);
    // The next one is not below half of the average, so it stays.
    assert!(pool.evict_low_fee_package());
    assert_eq!(pool.len(), 2);
    assert!(pool.remove_orphaned_txs());
    assert_eq!(pool.len(), 2);
}

#[test]
fn entries_are_ordered_by_fee_and_time() {
    let mut db = Snapshot::new();
    let entry = |fee_per_byte: u64, time: u128, db: &mut Snapshot| MempoolEntry {
        tx: Arc::new(paying(1, 5_000, db)),
        fee_per_byte,
        time,
        depends_on: vec![],
        fee: 1,
    };
    let low = entry(1, 9, &mut db);
    let high = entry(2, 9, &mut db);
    let late = entry(2, 10, &mut db);
    assert!(low.goes_before(&high));
    assert!(!high.goes_before(&low));
    assert!(late.goes_before(&high));
    assert!(!high.goes_before(&late));
    assert!(!high.goes_before(&high));
}

#[test]
fn the_highest_fees_are_chosen_first() {
    let mut db = Snapshot::new();
    let mut pool = Mempool::new(1_000_000);
    let low = paying(1, 9_900, &mut db);
    let high = paying(2, 99_000, &mut db);
    let middle = paying(3, 49_500, &mut db);
    for t in [&low, &high, &middle] {
        assert_eq!(pool.insert(t.clone(), &db, 5), Ok(Admission::Added));
    }
    assert_eq!(
        pool.select_txs(1_000_000),
        vec![high.clone(), middle.clone(), low.clone()]
    );
    assert_eq!(pool.select_txs(2 * SIZE as usize), vec![high.clone(), middle.clone()]);
    assert_eq!(pool.select_txs(SIZE as usize - 1), vec![]);
}

#[test]
fn those_that_are_needed_come_first() {
    let mut db = Snapshot::new();
    let mut pool = Mempool::new(1_000_000);
    let t = paying(1, 0, &mut db);
    let child = child_of(&t);
    assert_eq!(pool.insert(t.clone(), &db, 5), Ok(Admission::Added));
    assert_eq!(pool.insert(child.clone(), &db, 5), Ok(Admission::Added));
    let chosen = pool.select_txs(1_000_000);
    let at = |x: &Transaction| chosen.iter().position(|y| y == x).unwrap();
    assert!(at(&t) < at(&child));
}

#[test]
fn old_transactions_expire() {
    let mut db = Snapshot::new();
    let mut pool = Mempool::new(1_000_000);
    let old = paying(1, 99_000, &mut db);
    let new = paying(2, 99_000, &mut db);
    assert_eq!(pool.insert(old.clone(), &db, 10), Ok(Admission::Added));
    assert_eq!(pool.insert(new.clone(), &db, 500), Ok(Admission::Added));
    // They go together, once the latest has been there for too long.
    assert!(pool.clean_expired(600, 100));
    assert_eq!(pool.len(), 2);
    pool.clean_expired(601, 100);
    assert_eq!(pool.len(), 0);
}
