use lyrion::address::{address_to_pubkey_hash, pubkey_to_anon_address};
use lyrion::codec::{serialize_block, serialize_output, serialize_position, serialize_tx, serialize_txs};
use lyrion::errors::{other, ChainError};
use lyrion::explorer::{
    create_multisig, find_block, find_tx, get_address_balance, is_synchronized, list_address,
    page_bounds, parse_block_query, rich_list, BlockQuery, TxPlace,
};
use lyrion::gui::{sum_with_block, AppState, LyrionWalletApp, Tab};
use lyrion::hash::hash160;
use lyrion::index::Row;
use lyrion::keys::{make_addr_key, make_outpoint_key};
use lyrion::mempool::Mempool;
use lyrion::rpc::answer as rpc_answer;
use lyrion::rpc::{
    admits, balance_reply, bearer_token, block_reply, height_reply, is_authorized, is_current,
    judge_claims, mempool_reply, read_mempool_reply, refresh_jwt, renew, renew_claims,
    renewed_token, say, send_tx_reply, serve, sign_token, unauthorized, validate_jwt, Request,
    Response, Source,
};
use lyrion::scan::WalletScan;
use lyrion::secp::PublicKey;
use lyrion::state::{save_block, ChainState, IdMap};
use lyrion::store::{put_op, Cf, Snapshot};
use lyrion::tx::{Block, BlockHeader, TXInput, TXOutput, Transaction};
use lyrion::vault::encrypt_wallet;
use lyrion::wallet::Utxo;

const HOME: &str = "1BgGZ9tcN4rm9KBzDn7KprQz87SZ26SAMH";
const AWAY: &str = "1W2x4jXRPDETTABsvKRe5ZsxexnBpxVqz";
const PHRASE: &str = "abandon abandon abandon abandon abandon abandon abandon abandon abandon \
                      abandon abandon about";

fn row(address: &str, txid: [u8; 32], vout: u32, value: u64) -> Row {
    let hash = address_to_pubkey_hash(address).unwrap();
    (make_addr_key(&hash, &txid, vout), value.to_be_bytes().to_vec())
}

fn answer(status: u16, words: &str) -> Response {
    Response { status, body: words.as_bytes().to_vec() }
}

fn sample(n: u8) -> Transaction {
    Transaction {
        version: 1,
        is_anonymous: false,
        inputs: vec![TXInput { txid: [n; 32], vout: 0, script_sig: vec![], sequence: 0 }],
        outputs: vec![TXOutput { value: 4, script_pubkey: vec![5], commitment: None }],
        lock_time: 0,
        range_proofs: vec![],
    }
}

fn block(txs: Vec<Transaction>) -> Block {
    let header = BlockHeader {
        version: 1,
        prev_hash: [0; 32],
        merkle_root: [0; 32],
        timestamp: 5,
        bits: 6,
        nonce: 7,
    };
    Block { header, txs }
}

#[test]
fn tokens_run_out() {
    let claim = |a: &str, b: &str| (a.to_string(), b.to_string());
    let claims = vec![claim("sub", "x"), claim("exp", "100")];
    assert!(is_current(&claims, 99));
    assert!(!is_current(&claims, 100));
    assert!(!is_current(&vec![claim("exp", "soon")], 0));
    assert!(!is_current(&vec![], 0));
    let later = renew(&claims, 250);
    assert_eq!(later, vec![claim("sub", "x"), claim("exp", "250")]);
    assert!(is_current(&later, 249));
    assert_eq!(judge_claims(&Some(claims.clone()), 99), Ok(true));
    assert_eq!(judge_claims(&Some(claims.clone()), 100), Ok(false));
    assert_eq!(judge_claims(&None, 0), Err(other("Invalid JWT")));
    assert!(admits(true, &Some(claims.clone()), 99));
    assert!(admits(true, &Some(claims.clone()), 100));
    assert!(!admits(true, &None, 0));
    assert!(!admits(false, &Some(claims.clone()), 99));
    assert_eq!(renew_claims(&Some(claims), 5), Ok(vec![claim("sub", "x"), claim("exp", "3605")]));
    assert_eq!(renew_claims(&None, 5), Err(other("Invalid JWT")));
    assert_eq!(renewed_token(Some("t".to_string())), Ok("t".to_string()));
    assert_eq!(renewed_token(None), Err(other("Refresh failed")));
    let token = sign_token(vec![claim("exp", "99999999999")], "secret").unwrap();
    assert_eq!(token.split('.').count(), 3);
    assert_ne!(token, sign_token(vec![claim("exp", "99999999999")], "other").unwrap());
    // A token whose time is a text is refused, though it is signed.
    assert_eq!(validate_jwt(&token, "secret", 5), Err(other("Invalid JWT")));
    assert_eq!(refresh_jwt(&token, "secret", u64::MAX), Err(other("Invalid JWT")));
    assert!(!is_authorized(Some(&format!("Bearer {}", token)), "secret", 5));
}

#[test]
fn strangers_are_turned_away() {
    assert_eq!(validate_jwt("no token", "secret", 5), Err(other("Invalid JWT")));
    assert_eq!(refresh_jwt("no token", "secret", 5), Err(other("Invalid JWT")));
    assert!(!is_authorized(None, "secret", 5));
    assert!(!is_authorized(Some("Bearer nonsense"), "secret", 5));
    assert_eq!(bearer_token("Bearer abc"), "abc");
    assert_eq!(bearer_token("Bearer Bearer abc"), "abc");
    assert_eq!(bearer_token("abc"), "abc");
    assert_eq!(unauthorized(), answer(401, "Invalid or missing JWT"));
    assert_eq!(say(200, "x"), answer(200, "x"));
}

#[test]
fn questions_are_answered() {
    assert_eq!(height_reply(0), answer(200, "0"));
    assert_eq!(height_reply(1234), answer(200, "1234"));
    let mut rows = vec![row(HOME, [1; 32], 0, 7), row(AWAY, [2; 32], 0, 5), row(HOME, [3; 32], 0, 30)];
    assert_eq!(balance_reply(&rows, HOME), answer(200, "37"));
    assert_eq!(balance_reply(&rows, "x"), answer(400, "Invalid address"));
    rows[2].1 = vec![1];
    assert_eq!(balance_reply(&rows, HOME), answer(200, "7"));
    let mut state = ChainState::new();
    assert_eq!(block_reply(&state, 3), answer(404, "No block at tip"));
    let b = block(vec![sample(1)]);
    state.record(3, [9; 32], num_bigint::BigUint::from(1u32));
    state.keep_block(3, b.clone());
    let mut body = vec![0, 0, 0, 1];
    body.extend_from_slice(&serialize_block(&b));
    assert_eq!(block_reply(&state, 3), Response { status: 200, body });
}

#[test]
fn transactions_are_sent() {
    let mut db = Snapshot::new();
    let mut pool = Mempool::new(1_000_000);
    let t = sample(1);
    let spent = TXOutput { value: 9_999, script_pubkey: vec![], commitment: None };
    db.apply(put_op(Cf::Utxo, &make_outpoint_key(false, &[1; 32], 0), &serialize_output(&spent)));
    let raw = hex::encode(serialize_tx(&t));
    assert_eq!(send_tx_reply(&mut pool, &db, "xyz", 1), Some(answer(400, "Invalid hex")));
    assert_eq!(send_tx_reply(&mut pool, &db, "00", 1), Some(answer(400, "Invalid TX")));
    assert_eq!(send_tx_reply(&mut pool, &db, &raw, 1), Some(answer(200, "TX sent")));
    assert_eq!(send_tx_reply(&mut pool, &db, &raw, 1), Some(answer(400, "Invalid TX")));
    let lost = hex::encode(serialize_tx(&sample(2)));
    assert_eq!(send_tx_reply(&mut pool, &db, &lost, 1), Some(answer(400, "Invalid TX")));
    let reply = mempool_reply(&pool);
    let mut body = vec![0, 0, 0, 1];
    body.extend_from_slice(&serialize_txs(&vec![t.clone()]));
    assert_eq!(reply, Response { status: 200, body });
    assert_eq!(read_mempool_reply(&reply.body), vec![t]);
    assert_eq!(read_mempool_reply(&[0, 0]), vec![]);
    assert_eq!(read_mempool_reply(&[0, 0, 0, 1, 9]), vec![]);
}

#[test]
fn requests_without_a_signed_token_are_refused() {
    let mut pool = Mempool::new(1_000_000);
    let state = ChainState::new();
    let db = Snapshot::new();
    let rows: Vec<Row> = vec![];
    let from = Source { state: &state, best_height: 7, db: &db, rows: &rows };
    let refused = Some(answer(401, "Invalid or missing JWT"));
    let requests = [
        Request::Height,
        Request::Balance(HOME.to_string()),
        Request::Block,
        Request::Mempool,
        Request::SendTx("00".to_string()),
    ];
    for r in &requests {
        assert_eq!(serve(r, None, "secret", &mut pool, &from, 5_000), refused);
        assert_eq!(serve(r, Some("Bearer x.y.z"), "secret", &mut pool, &from, 5_000), refused);
        assert_eq!(rpc_answer(r, false, &mut pool, &from, 5_000), refused);
    }
    assert_eq!(pool.len(), 0);
    let said = |r: &Request, pool: &mut Mempool| rpc_answer(r, true, pool, &from, 5_000).unwrap();
    assert_eq!(said(&requests[0], &mut pool), answer(200, "7"));
    assert_eq!(said(&requests[1], &mut pool), answer(200, "0"));
    assert_eq!(said(&requests[2], &mut pool), answer(404, "No block at tip"));
    assert_eq!(read_mempool_reply(&said(&requests[3], &mut pool).body), vec![]);
    assert_eq!(said(&requests[4], &mut pool), answer(400, "Invalid TX"));
}

#[test]
fn blocks_are_looked_for() {
    assert!(!is_synchronized(10));
    assert!(is_synchronized(11));
    assert_eq!(parse_block_query("12"), Ok(BlockQuery::Height(12)));
    assert_eq!(parse_block_query(&"ab".repeat(32)), Ok(BlockQuery::Hash([0xab; 32])));
    assert_eq!(parse_block_query(&"zz".repeat(32)), Err(other("Invalid hash")));
    assert_eq!(parse_block_query("12x"), Err(other("Invalid height")));
    assert_eq!(parse_block_query(""), Err(other("Invalid height")));
    assert_eq!(parse_block_query("99999999999999999999999"), Err(other("Invalid height")));
    let mut db = Snapshot::new();
    let b = block(vec![sample(1)]);
    db.apply_all(&save_block(12, &b, &[0xab; 32]));
    let mut heights = IdMap::new();
    heights.insert([0xab; 32], 12);
    assert_eq!(find_block(&db, &heights, &BlockQuery::Height(12)).unwrap().txs, b.txs);
    assert_eq!(find_block(&db, &heights, &BlockQuery::Hash([0xab; 32])).unwrap().txs, b.txs);
    assert!(matches!(
        find_block(&db, &heights, &BlockQuery::Hash([1; 32])),
        Err(e) if e == other("Block not found")
    ));
    assert!(find_block(&db, &heights, &BlockQuery::Height(1)).is_err());
}

#[test]
fn transactions_are_looked_for() {
    let mut db = Snapshot::new();
    db.apply_all(&save_block(0, &block(vec![sample(1)]), &[1; 32]));
    db.apply_all(&save_block(1, &block(vec![sample(2), sample(3)]), &[2; 32]));
    let id = sample(1).hash();
    assert!(matches!(find_tx(&db, 1, &id), Ok(TxPlace::Recent(0))));
    assert!(matches!(find_tx(&db, 1, &sample(3).hash()), Ok(TxPlace::Recent(1))));
    assert!(matches!(find_tx(&db, 1, &[7; 32]), Ok(TxPlace::Missing)));
    db.apply(put_op(Cf::TxIndex, &sample(3).hash(), &serialize_position(1, 1)));
    match find_tx(&db, 4, &sample(3).hash()) {
        Ok(TxPlace::Indexed(height, confirmations, t)) => {
            assert_eq!((height, confirmations), (1, 4));
            assert_eq!(t, sample(3));
        }
        _ => panic!("the transaction is in the index"),
    }
    assert!(matches!(find_tx(&db, 0, &sample(3).hash()), Err(e) if e == other("Height out of range")));
    db.apply(put_op(Cf::TxIndex, &id, &serialize_position(1, 2)));
    assert!(matches!(find_tx(&db, 4, &id), Err(e) if e == other("Position out of range")));
    db.apply(put_op(Cf::TxIndex, &id, &[1]));
    assert!(matches!(find_tx(&db, 4, &id), Err(e) if e == other("Deserialize position failed")));
    assert!(matches!(find_tx(&db, 4, &[7; 32]), Err(e) if e == other("Missing hash")));
}

#[test]
fn lists_come_in_pages() {
    assert_eq!(page_bounds(1, 10, 25), Some((0, 10)));
    assert_eq!(page_bounds(3, 10, 25), Some((20, 25)));
    assert_eq!(page_bounds(4, 10, 25), Some((25, 25)));
    assert_eq!(page_bounds(0, 10, 25), None);
    assert_eq!(page_bounds(usize::MAX, 2, 25), None);
    let rows: Vec<Row> = (1..6u8).map(|n| row(HOME, [n; 32], 0, n as u64)).collect();
    let (total, page) = list_address(&rows, HOME, 2, 2).unwrap();
    assert_eq!(total, 5);
    assert_eq!(page.iter().map(|e| e.value).collect::<Vec<u64>>(), vec![3, 4]);
    assert_eq!(list_address(&rows, HOME, 0, 2), Err(other("Invalid page")));
    assert!(list_address(&rows, "x", 1, 2).is_err());
}

#[test]
fn balances_of_addresses_are_exact() {
    let mut rows = vec![row(HOME, [1; 32], 0, 7), row(AWAY, [2; 32], 0, 5), row(HOME, [3; 32], 0, 30)];
    assert_eq!(get_address_balance(&rows, HOME), Ok(37));
    rows.push(row(HOME, [4; 32], 0, u64::MAX));
    assert_eq!(get_address_balance(&rows, HOME), Err(ChainError::ValueOverflow));
    rows[0].1 = vec![1];
    assert_eq!(get_address_balance(&rows, HOME), Err(other("Invalid index value")));
    assert_eq!(get_address_balance(&rows, AWAY), Ok(5));
}

#[test]
fn the_richest_come_first() {
    let mut rows = vec![
        row(HOME, [1; 32], 0, 7),
        row(AWAY, [2; 32], 0, 50),
        row(HOME, [3; 32], 0, 30),
        (b"other".to_vec(), vec![]),
    ];
    let all = rich_list(&rows, 1, 10).unwrap();
    assert_eq!(all.len(), 2);
    assert_eq!((all[0].rank, all[0].address.as_str(), all[0].amount), (1, AWAY, 50));
    assert_eq!((all[1].rank, all[1].address.as_str(), all[1].amount), (2, HOME, 37));
    let second = rich_list(&rows, 2, 1).unwrap();
    assert_eq!(second.len(), 1);
    assert_eq!(second[0].rank, 2);
    assert_eq!(second[0].amount, 37);
    assert_eq!(rich_list(&rows, 0, 1), Err(other("Invalid page")));
    rows[0].1 = vec![1];
    assert_eq!(rich_list(&rows, 1, 1), Err(other("Invalid index value")));
    rows[0].0 = b"addr:x".to_vec();
    assert_eq!(rich_list(&rows, 1, 1), Err(other("Index key too short")));
}

#[test]
fn several_keys_share_a_script() {
    let key = |n: u8| {
        let mut sk = [0u8; 32];
        sk[31] = n;
        PublicKey::from_secret(&sk).unwrap()
    };
    let (address, script) = create_multisig(&vec![key(1), key(2), key(3)], 2);
    let mut expected = vec![0x52];
    for n in 1..4 {
        expected.push(33);
        expected.extend_from_slice(&key(n).serialize());
    }
    expected.extend_from_slice(&[0x53, 0xae]);
    assert_eq!(script, expected);
    assert_eq!(address_to_pubkey_hash(&address), Ok(hash160(&script)));
    let (_, script) = create_multisig(&vec![], 17);
    assert_eq!(script, vec![1, 17, 0, 0xae]);
    let (_, script) = create_multisig(&vec![], 128);
    assert_eq!(script, vec![2, 128, 0, 0, 0xae]);
    let (_, script) = create_multisig(&vec![], 1000);
    assert_eq!(script, vec![2, 0xe8, 3, 0, 0xae]);
    let (_, script) = create_multisig(&vec![], -1);
    assert_eq!(script, vec![0x4f, 0, 0xae]);
    let (_, script) = create_multisig(&vec![], -5);
    assert_eq!(script, vec![1, 0x85, 0, 0xae]);
}

fn coin(value: u64, is_confirmed: bool) -> Utxo {
    Utxo {
        txid: [1; 32],
        vout: 0,
        value,
        confirmations: 1,
        script_pubkey: vec![],
        height: 0,
        chain: 0,
        index: 0,
        is_confirmed,
    }
}

fn found(utxos: Vec<Utxo>) -> WalletScan {
    WalletScan {
        utxos,
        balance: 0,
        history: vec![],
        receive_addresses: vec![HOME.to_string()],
        change_addresses: vec![],
        receive_index: 3,
        change_index: 4,
    }
}

#[test]
fn the_wallet_window_opens() {
    let app = LyrionWalletApp::new(false, None, &[7; 32]);
    assert_eq!(app.state, AppState::CreateWallet);
    assert_eq!(app.fee_rate_str, "10");
    assert_eq!(app.anon_address, "");
    let app = LyrionWalletApp::new(true, Some(&[5; 32]), &[7; 32]);
    assert_eq!(app.state, AppState::SetupPassword);
    assert_eq!(app.anon_spend_key, Some([5; 32]));
    assert_eq!(app.anon_address, pubkey_to_anon_address(&[7; 32]));
    let app = LyrionWalletApp::new(true, Some(&[5; 31]), &[7; 32]);
    assert_eq!(app.anon_spend_key, None);
}

#[test]
fn the_wallet_window_unlocks_and_locks() {
    let seed = [6u8; 64];
    let file = encrypt_wallet("secret", &seed, &[3; 32], &[4; 12]).unwrap();
    let mut app = LyrionWalletApp::new(true, None, &[7; 32]);
    app.temp_password_input = "wrong".to_string();
    assert!(!app.unlock(Some(&file)));
    assert_eq!(app.error, Some("Incorrect password".to_string()));
    assert_eq!(app.temp_password_input, "");
    app.temp_password_input = "secret".to_string();
    assert!(!app.unlock(None));
    app.temp_password_input = "secret".to_string();
    assert!(app.unlock(Some(&file)));
    assert_eq!(app.state, AppState::Main);
    assert_eq!(app.seed, Some(seed));
    assert_eq!(app.save(&[3; 32], &[4; 12]), Some(Ok(file)));
    app.lock();
    assert_eq!(app.state, AppState::SetupPassword);
    assert_eq!(app.password, "");
}

#[test]
fn a_new_wallet_is_confirmed() {
    let mut app = LyrionWalletApp::new(false, None, &[7; 32]);
    assert_eq!(app.save(&[3; 32], &[4; 12]), None);
    app.mnemonic = Some(PHRASE.to_string());
    app.temp_password_input = "a".to_string();
    assert_eq!(app.confirm(), Ok(false));
    app.temp_password_confirm = "a".to_string();
    assert_eq!(app.confirm(), Ok(true));
    assert_eq!(app.state, AppState::Main);
    assert_eq!(app.seed.unwrap()[..4], [0x5e, 0xb0, 0x0b, 0xbd]);
    assert_eq!(app.password, "a");
    let mut bad = LyrionWalletApp::new(false, None, &[7; 32]);
    bad.mnemonic = Some("abandon".to_string());
    bad.temp_password_input = "a".to_string();
    bad.temp_password_confirm = "a".to_string();
    assert_eq!(bad.confirm(), Err(other("Invalid mnemonic")));
    assert_eq!(bad.state, AppState::CreateWallet);
}

#[test]
fn the_wallet_window_shows_what_was_found() {
    let mut app = LyrionWalletApp::new(true, None, &[7; 32]);
    let coins = vec![coin(5, true), coin(7, false), coin(1, true)];
    assert_eq!(sum_with_block(&coins, true), Some(6));
    assert_eq!(sum_with_block(&coins, false), Some(7));
    assert!(app.scanned(found(coins)));
    assert_eq!((app.balance, app.pending_balance), (6, 7));
    app.receive_addresses = vec![];
    assert_eq!(app.shown_address(), "");
    app.receive_addresses = vec!["one".to_string(), "two".to_string()];
    assert_eq!(app.shown_address(), "two");
    assert_eq!((app.current_receive_index, app.current_change_index), (3, 4));
    assert!(!app.scanned(found(vec![coin(u64::MAX, true), coin(1, true)])));
    assert_eq!(app.balance, 6);
    app.load_current_height(Some(&[0, 0, 1, 2]));
    assert_eq!(app.current_height, 258);
    app.load_current_height(None);
    assert_eq!(app.current_height, 258);
    app.next_receive_address();
    assert_eq!(app.current_receive_index, 4);
    app.select(Tab::Send);
    assert_eq!(app.selected_tab, Some(Tab::Send));
    app.failed("no");
    assert_eq!(app.error, Some("no".to_string()));
}

#[test]
fn the_form_makes_an_order() {
    let mut app = LyrionWalletApp::new(true, None, &[7; 32]);
    app.to_address = HOME.to_string();
    app.amount_str = "1x".to_string();
    assert!(app.send_form(true).is_none());
    assert_eq!(app.error, Some("Invalid amount or fees".to_string()));
    app.amount_str = "12".to_string();
    app.current_change_index = 2;
    assert!(app.send_form(false).is_none());
    let order = app.send_form(true).unwrap();
    assert_eq!(order.to, HOME);
    assert_eq!((order.amount, order.fee_rate, order.change_index), (12, 10, 2));
    app.payment_sent(true);
    assert_eq!(app.current_change_index, 3);
    assert_eq!(app.to_address, "");
    assert_eq!(app.amount_str, "");
    app.payment_sent(false);
    assert_eq!(app.current_change_index, 3);
}
