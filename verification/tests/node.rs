use lyrion::backup::{names_backup, rotate_backups, KEPT_BACKUPS};
use lyrion::codec::serialize_header;
use lyrion::config::{parse_hash, read_checkpoints, AppConfig, ConfigError};
use lyrion::errors::other;
use lyrion::miner::{
    adjust_threads, build_template, check_readiness, create_genesis_block, found_block,
    initial_threads, meets_target, next_chunk, nonce_input, Find, GenesisSearch, Readiness, Search,
    GENESIS_MESSAGE, NONCE_CHUNK_SIZE,
};
use lyrion::order::order_desc;
use lyrion::params::{subsidy, GENESIS_TIMESTAMP};
use lyrion::pow::{engine_count, PowEngine};
use lyrion::script::p2pkh_script;
use lyrion::secp::PublicKey;
use lyrion::target::compact_to_target;
use lyrion::tx::{Block, TXOutput, Transaction};
use std::collections::HashMap;

fn key(n: u8) -> PublicKey {
    let mut sk = [0u8; 32];
    sk[31] = n;
    PublicKey::from_secret(&sk).unwrap()
}

fn plain() -> Transaction {
    Transaction {
        version: 1,
        is_anonymous: false,
        inputs: vec![],
        outputs: vec![TXOutput { value: 3, script_pubkey: vec![], commitment: None }],
        lock_time: 0,
        range_proofs: vec![],
    }
}

#[test]
fn the_number_of_threads_is_bounded() {
    assert_eq!(initial_threads(1, 64), 4);
    assert_eq!(initial_threads(16, 64), 16);
    assert_eq!(initial_threads(16, 8), 8);
    assert_eq!(initial_threads(200, 200), 64);
    assert_eq!(adjust_threads(16, 15), 8);
    assert_eq!(adjust_threads(10, 10), 4);
    assert_eq!(adjust_threads(16, 9), 24);
    assert_eq!(adjust_threads(60, 0), 64);
    assert_eq!(adjust_threads(20, 18), 20);
    assert_eq!(adjust_threads(20, 12), 20);
}

#[test]
fn the_miner_waits_for_a_chain_that_may_be_written() {
    assert_eq!(check_readiness(5, false), (Readiness::Mine, 0));
    assert_eq!(check_readiness(5, true), (Readiness::Wait, 6));
    assert_eq!(check_readiness(29, true), (Readiness::Wait, 30));
    assert_eq!(check_readiness(30, true), (Readiness::GiveUp, 30));
}

#[test]
fn a_template_pays_the_subsidy() {
    let t = build_template([1; 32], 7, 0x1d00ffff, b"x", &key(1), "", &vec![plain()]);
    assert_eq!(t.prev_hash, [1; 32]);
    assert_eq!(t.txs.len(), 2);
    assert!(t.txs[0].is_coinbase());
    assert_eq!(t.txs[0].outputs[0].value, subsidy(7));
    assert_eq!(t.txs[0].outputs[0].script_pubkey, p2pkh_script(&key(1)));
    assert_eq!(t.txs[1], plain());
    assert_eq!(t.merkle_root, Block::compute_merkle_root(&t.txs));
    let configured = hex::encode(key(2).serialize());
    let u = build_template([1; 32], 7, 0x1d00ffff, b"x", &key(1), &configured, &vec![]);
    assert_eq!(u.txs[0].outputs[0].script_pubkey, p2pkh_script(&key(2)));
}

#[test]
fn a_nonce_completes_the_header() {
    let t = build_template([1; 32], 7, 0x1d00ffff, b"x", &key(1), "", &vec![]);
    let base = t.header_base(99);
    let input = nonce_input(&base, 0x0102);
    let b = t.finish(99, 0x0102);
    assert_eq!(input, serialize_header(&b.header));
    assert_eq!(b.header.nonce, 0x0102);
    assert_eq!(b.header.timestamp, 99);
    assert_eq!(b.header.version, 1);
}

#[test]
fn hashes_are_held_against_the_target() {
    let goal = compact_to_target(0x03000005).unwrap();
    let mut hash = [0u8; 32];
    hash[31] = 5;
    assert!(meets_target(&hash, &goal));
    hash[31] = 6;
    assert!(!meets_target(&hash, &goal));
    assert_eq!(next_chunk(3), 3 + NONCE_CHUNK_SIZE);
    assert_eq!(next_chunk(u64::MAX), NONCE_CHUNK_SIZE - 1);
}

#[test]
fn a_found_block_is_offered_and_told_of() {
    assert_eq!(found_block(&[1; 32], &[1; 32], None), Find::Offer);
    assert_eq!(found_block(&[1; 32], &[1; 32], Some(true)), Find::Announce);
    assert_eq!(found_block(&[1; 32], &[1; 32], Some(false)), Find::Drop);
    assert_eq!(found_block(&[1; 32], &[2; 32], None), Find::Drop);
    assert_eq!(found_block(&[1; 32], &[2; 32], Some(true)), Find::Drop);
}

#[test]
fn the_first_block_is_searched_for() {
    let mut search = GenesisSearch::start(&key(1));
    let first = search.input();
    assert_eq!(search.submit(&[0xff; 32]), Search::Continue);
    let second = search.input();
    assert_eq!(first.len(), second.len());
    assert_eq!(second[76], 1);
    assert_eq!(search.submit(&[0; 32]), Search::Found);
    // A search that has ended stays as it is.
    assert_eq!(search.submit(&[0xff; 32]), Search::Found);
    let b = create_genesis_block(search).unwrap();
    assert_eq!(b.header.nonce, 1);
    assert_eq!(b.header.timestamp, GENESIS_TIMESTAMP);
    assert_eq!(GENESIS_TIMESTAMP, 1_763_596_800);
    assert_eq!(b.header.bits, 0x1d00ffff);
    assert_eq!(b.header.prev_hash, [0; 32]);
    assert_eq!(b.txs[0].inputs[0].script_sig, GENESIS_MESSAGE.as_bytes().to_vec());
    assert_eq!(b.txs[0].outputs[0].value, 10_000_000_000);
    assert_eq!(b.header.merkle_root, b.txs[0].hash());
    let mut unfinished = GenesisSearch::start(&key(1));
    assert_eq!(unfinished.submit(&[0xff; 32]), Search::Continue);
    let failed = create_genesis_block(unfinished);
    assert!(matches!(failed, Err(e) if e == other("Impossible to mine genesis – increase bits")));
}

fn raw() -> AppConfig {
    AppConfig {
        mainnet: false,
        coinbase_sk: "AQEBAQEBAQEBAQEBAQEBAQEBAQEBAQEBAQEBAQEBAQE=".to_string(),
        db_path: "db".to_string(),
        p2p_port: 1,
        rpc_port: 2,
        max_peers: 3,
        max_mempool_size: 4,
        seed_nodes: vec!["a:1".to_string()],
        tls_cert: String::new(),
        tls_key: String::new(),
        ca_cert: String::new(),
        reorg_max_depth: 5,
        backup_signing_key: String::new(),
        signing_key_path: String::new(),
        tx_expiration_ms: 6,
        log_level: "info".to_string(),
        max_threads: 7,
        num_randomx_threads: 0,
        enable_huge_pages: false,
        rpc_jwt_secret: String::new(),
        coinbase_sk_bytes: [0; 32],
        checkpoint_hashes: HashMap::new(),
        checkpoints: vec![(5, "ab".repeat(32))],
    }
}

#[test]
fn a_configuration_is_completed() {
    let c = AppConfig::load(raw(), &[0; 64], 8).unwrap();
    assert_eq!(c.coinbase_sk_bytes, [1; 32]);
    assert_eq!(c.num_randomx_threads, 8);
    assert_eq!(c.rpc_jwt_secret, "A".repeat(86) + "==");
    assert_eq!(c.checkpoint_hashes.get(&5), Some(&[0xab; 32]));
    assert_eq!(c.max_peers, 3);
    let mut own = raw();
    own.rpc_jwt_secret = "s".to_string();
    own.num_randomx_threads = 2;
    let c = AppConfig::load(own, &[0; 64], 500).unwrap();
    assert_eq!(c.rpc_jwt_secret, "s");
    assert_eq!(c.num_randomx_threads, 2);
    assert_eq!(AppConfig::load(raw(), &[0; 64], 500).unwrap().num_randomx_threads, 64);
}

fn fault(change: fn(&mut AppConfig)) -> ConfigError {
    let mut c = raw();
    change(&mut c);
    match AppConfig::load(c, &[0; 64], 8) {
        Ok(_) => panic!("the configuration should be refused"),
        Err(e) => e,
    }
}

#[test]
fn bad_configurations_are_refused() {
    assert_eq!(fault(|c| c.coinbase_sk = "!".to_string()), ConfigError::InvalidBase64);
    assert_eq!(fault(|c| c.coinbase_sk = "AQE=".to_string()), ConfigError::InvalidKeyLength);
    assert_eq!(
        fault(|c| c.checkpoints.push((9, "zz".to_string()))),
        ConfigError::InvalidCheckpoint(9)
    );
    assert_eq!(fault(|c| c.p2p_port = 0), ConfigError::InvalidPort);
    assert_eq!(fault(|c| c.rpc_port = 0), ConfigError::InvalidPort);
    assert_eq!(fault(|c| c.seed_nodes = vec![]), ConfigError::MissingSeeds);
    assert_eq!(ConfigError::InvalidPort.message(), "Ports must be > 0");
    assert_eq!(ConfigError::MissingSecret.message(), "RPC JWT secret required");
}

#[test]
fn hashes_are_read_from_hex() {
    assert_eq!(parse_hash(&"AB".repeat(32)), Some([0xab; 32]));
    assert_eq!(parse_hash(&"ab".repeat(31)), None);
    assert_eq!(parse_hash("abc"), None);
    assert_eq!(parse_hash(&"zz".repeat(32)), None);
    let m = read_checkpoints(&vec![(1, "01".repeat(32)), (1, "02".repeat(32))]).unwrap();
    assert_eq!(m.get(&1), Some(&[2; 32]));
    assert!(matches!(
        read_checkpoints(&vec![(1, "01".repeat(32)), (2, String::new())]),
        Err(ConfigError::InvalidCheckpoint(2))
    ));
}

#[test]
fn engines_take_turns() {
    assert_eq!(engine_count(0), 1);
    assert_eq!(engine_count(5), 5);
    assert_eq!(engine_count(500), 64);
    let mut e = PowEngine::new(2);
    assert_eq!(e.next(), Ok(0));
    assert_eq!(e.next(), Ok(1));
    assert_eq!(e.next(), Ok(0));
    assert_eq!(PowEngine::new(0).next(), Err(other("RandomX pool empty")));
}

#[test]
fn the_newest_backups_are_kept() {
    assert!(names_backup("db_checkpoint_5.zip"));
    assert!(!names_backup("db_checkpoint_5.zip.part"));
    assert!(!names_backup("db.zip"));
    let file = |n: &str, t: u64| (n.to_string(), t);
    let files = vec![
        file("a_checkpoint_1.zip", 1),
        file("other.zip", 0),
        file("a_checkpoint_5.zip", 5),
        file("a_checkpoint_2.zip", 2),
        file("a_checkpoint_4.zip", 4),
        file("a_checkpoint_3.zip", 3),
    ];
    assert_eq!(
        rotate_backups(&files, KEPT_BACKUPS),
        vec!["a_checkpoint_2.zip".to_string(), "a_checkpoint_1.zip".to_string()]
    );
    assert_eq!(rotate_backups(&files, 5), Vec::<String>::new());
}

#[test]
fn numbers_are_put_in_order() {
    assert_eq!(order_desc(&vec![3, 9, 1, 9]), vec![1, 3, 0, 2]);
    assert_eq!(order_desc(&vec![]), Vec::<usize>::new());
}
