use lyrion::address::{address_to_pubkey_hash, pubkey_to_address};
use lyrion::codec::{serialize_output, serialize_position};
use lyrion::errors::{other, ChainError};
use lyrion::hd::HARDENED;
use lyrion::history::{add_net, build_history, contribute};
use lyrion::index::{
    confirmations, find_entries, find_height, get_block_timestamp, height_from_txid,
    query_addr_index, read_entry, Entry, Row, ENTRY_AT, LOOKUP_AT,
};
use lyrion::keys::{make_addr_key, make_best_height_key, make_outpoint_key};
use lyrion::pay::{gives_change, plan_payment, settle_fee};
use lyrion::scan::{build_history_task, scan_chain, scan_mempool, scan_wallet_task, sum_utxos};
use lyrion::script::p2pkh_script_from_pkh;
use lyrion::secp::PublicKey;
use lyrion::state::save_block;
use lyrion::store::{put_op, Cf, Snapshot};
use lyrion::tx::{Block, BlockHeader, TXOutput, Transaction};
use lyrion::vault::{decrypt_wallet, encrypt_wallet};
use lyrion::wallet::{balance_owned, list_owned, net_owned, Owned, Utxo, Wallet};

const PHRASE: &str = "abandon abandon abandon abandon abandon abandon abandon abandon abandon \
                      abandon abandon about";
const FIRST: &str = "1W2x4jXRPDETTABsvKRe5ZsxexnBpxVqz";
const CHANGE: &str = "12vgdqB7Xk1Q7AbrigUmYkVCMXJqDMUmcZ";
const SCANNED: &str = "15xzpKkQy16AxC122NyKf6xempnFjrMN6A";
const STRANGER: &str = "1BgGZ9tcN4rm9KBzDn7KprQz87SZ26SAMH";

fn unhex(s: &str) -> Vec<u8> {
    hex::decode(s).unwrap()
}

fn seed() -> [u8; 64] {
    let mut s = [0u8; 64];
    s.copy_from_slice(&unhex(
        "5eb00bbddcf069084889a8ab9155568165f5c453ccb85e70811aaed6f6da5fc1\
         9a5ac40b389cd370d086206dec8aa6c43daea6690f20ad3d8d48b2d2ce9e38e4",
    ));
    s
}

fn wallet() -> Wallet {
    Wallet::from_mnemonic(PHRASE, true).unwrap()
}

fn row(address: &str, txid: [u8; 32], vout: u32, value: u64) -> Row {
    let hash = address_to_pubkey_hash(address).unwrap();
    (make_addr_key(&hash, &txid, vout), value.to_be_bytes().to_vec())
}

/// Where a look-up by address reads the transaction and the position.
fn looked_up(r: &Row) -> ([u8; 32], u32) {
    let mut id = [0u8; 32];
    id.copy_from_slice(&r.0[5..37]);
    let mut n = [0u8; 4];
    n.copy_from_slice(&r.0[37..41]);
    (id, u32::from_be_bytes(n))
}

fn output(address: &str, value: u64) -> TXOutput {
    let hash = address_to_pubkey_hash(address).unwrap();
    TXOutput { value, script_pubkey: p2pkh_script_from_pkh(&hash), commitment: None }
}

fn unspent(db: &mut Snapshot, txid: [u8; 32], vout: u32, o: &TXOutput) {
    db.apply(put_op(Cf::Utxo, &make_outpoint_key(false, &txid, vout), &serialize_output(o)));
}

fn placed(db: &mut Snapshot, txid: [u8; 32], height: u64) {
    db.apply(put_op(Cf::TxIndex, &txid, &serialize_position(height, 0)));
}

fn at_height(height: u32) -> Snapshot {
    let mut db = Snapshot::new();
    db.apply(put_op(Cf::Default, &make_best_height_key(), &height.to_be_bytes()));
    db
}

fn utxo(txid: u8, value: u64) -> Utxo {
    Utxo {
        txid: [txid; 32],
        vout: 0,
        value,
        confirmations: 200,
        script_pubkey: output(FIRST, value).script_pubkey,
        height: 1,
        chain: 0,
        index: 0,
        is_confirmed: true,
    }
}

#[test]
fn a_phrase_makes_a_wallet() {
    let w = wallet();
    assert!(w.is_mainnet());
    assert_eq!(w.change_index(), 0);
    assert_eq!(w.get_receive_address(0), Ok(FIRST.to_string()));
    assert_eq!(w.get_receive_address(1), Ok("1EbkBRdvxGUXvvcPkKkDxTcucCJiUpuC3Q".to_string()));
    assert!(w.get_receive_address(HARDENED).is_err());
    let (_, pk) = w.derive(1, 0).unwrap();
    assert_eq!(pubkey_to_address(&pk), CHANGE);
    let same = Wallet::from_seed(seed(), false, 3);
    assert_eq!(same.get_receive_address(0), Ok(FIRST.to_string()));
    assert!(!same.is_mainnet());
    assert_eq!(same.change_index(), 3);
    assert!(matches!(Wallet::from_mnemonic("abandon", true), Err(e) if e == other("Invalid mnemonic")));
}

#[test]
fn secrets_are_found_by_address() {
    let w = wallet();
    let sk = w.get_privkey_for_address(FIRST).unwrap();
    assert_eq!(
        sk.to_vec(),
        unhex("9a0943601f25bae54bb6421afee9a57689d5d86a6178987e3c26e53878fbc2ac")
    );
    let sk = w.get_privkey_for_address(CHANGE).unwrap();
    assert_eq!(pubkey_to_address(&PublicKey::from_secret(&sk).unwrap()), CHANGE);
    assert_eq!(
        w.get_privkey_for_address(STRANGER),
        Err(other("Address not found in the wallet"))
    );
    assert_eq!(w.get_privkey_for_address("x"), Err(other("Invalid address")));
}

#[test]
fn secrets_are_written_for_other_wallets() {
    assert_eq!(
        wallet().dump_privkey(FIRST),
        Ok("L2P8uSYH3Si5aHtnN8NEvXhkL3MzkxYcWsyzVmd8gr42E9TwvL1Z".to_string())
    );
    assert_eq!(
        Wallet::from_seed(seed(), false, 0).dump_privkey(FIRST),
        Ok("cSk8NMY8UWQLjjN3kYBNHrCoxGfQRQeJav8TcC5eBxi2UtZU6Wrg".to_string())
    );
    assert_eq!(
        wallet().dump_privkey(STRANGER),
        Err(other("Address not found in the wallet"))
    );
    assert_eq!(wallet().dump_privkey("x"), Err(other("Invalid address")));
}

#[test]
fn phrases_are_brought_into_their_plain_form() {
    let spaced = PHRASE.replace(' ', "   ");
    let (w, plain) = Wallet::restore(&spaced, true).unwrap();
    assert_eq!(plain, PHRASE);
    assert_eq!(w.get_receive_address(0), Ok(FIRST.to_string()));
    assert!(matches!(Wallet::restore("abandon", true), Err(e) if e == other("Invalid mnemonic")));
}

#[test]
fn index_rows_are_read() {
    let r = row(FIRST, [7; 32], 3, 9);
    assert_eq!(read_entry(&r, ENTRY_AT), Ok(Entry { txid: [7; 32], vout: 3, value: 9 }));
    let (id, n) = looked_up(&r);
    assert_eq!(read_entry(&r, LOOKUP_AT), Ok(Entry { txid: id, vout: n, value: 9 }));
    assert_eq!(read_entry(&(vec![0; 60], vec![0; 8]), ENTRY_AT), Err(other("Index key too short")));
    assert_eq!(
        read_entry(&(r.0.clone(), vec![0; 7]), ENTRY_AT),
        Err(other("Invalid index value"))
    );
    let rows = vec![r, row(STRANGER, [8; 32], 0, 1), row(FIRST, [6; 32], 0, 2)];
    let hash = address_to_pubkey_hash(FIRST).unwrap();
    let (found, fault) = find_entries(&rows, &hash, ENTRY_AT);
    assert_eq!(fault, None);
    assert_eq!(found.len(), 2);
    assert_eq!(found[1].txid, [6; 32]);
    let found = query_addr_index(&rows, &hash).unwrap();
    assert_eq!(found[0].txid, id);
    let mut broken = rows;
    broken[2].1 = vec![];
    assert_eq!(query_addr_index(&broken, &hash), Err(other("Invalid index value")));
    let (found, fault) = find_entries(&broken, &hash, ENTRY_AT);
    assert_eq!(found.len(), 1);
    assert_eq!(fault, Some(other("Invalid index value")));
}

#[test]
fn transactions_have_their_places() {
    let mut db = Snapshot::new();
    assert_eq!(find_height(&db, &[7; 32]), Ok(None));
    assert_eq!(height_from_txid(&db, &[7; 32]), Err(other("Tx not found in index")));
    placed(&mut db, [7; 32], 5);
    assert_eq!(find_height(&db, &[7; 32]), Ok(Some(5)));
    assert_eq!(height_from_txid(&db, &[7; 32]), Ok(5));
    db.apply(put_op(Cf::TxIndex, &[8; 32], &[1]));
    assert_eq!(find_height(&db, &[8; 32]), Err(other("Deserialize position failed")));
    assert_eq!(get_block_timestamp(&db, 5), None);
    let header = BlockHeader {
        version: 1,
        prev_hash: [0; 32],
        merkle_root: [0; 32],
        timestamp: 77,
        bits: 0,
        nonce: 0,
    };
    db.apply_all(&save_block(5, &Block { header, txs: vec![] }, &[1; 32]));
    assert_eq!(get_block_timestamp(&db, 5), Some(77));
    assert_eq!(confirmations(10, 8), 3);
    assert_eq!(confirmations(8, 10), 1);
}

#[test]
fn balances_tell_confirmed_from_pending() {
    let mut db = at_height(10);
    let rows =
        vec![row(FIRST, [1; 32], 0, 100), row(CHANGE, [2; 32], 1, 20), row(FIRST, [3; 32], 0, 3)];
    unspent(&mut db, [1; 32], 0, &output(FIRST, 100));
    unspent(&mut db, [2; 32], 1, &output(CHANGE, 20));
    placed(&mut db, [1; 32], 9);
    placed(&mut db, [2; 32], 10);
    placed(&mut db, [3; 32], 1);
    assert_eq!(wallet().get_balance(&db, &rows), Ok((100, 20)));
    assert_eq!(
        wallet().get_balance(&Snapshot::new(), &rows),
        Err(other("Missing height"))
    );
    let owned = |txid: u8, value: u64| Owned {
        chain: 0,
        index: 0,
        entry: Entry { txid: [txid; 32], vout: 0, value },
    };
    assert_eq!(balance_owned(&db, 10, &vec![owned(1, 5), owned(3, 7)]), Ok((5, 0)));
    assert_eq!(
        balance_owned(&db, 10, &vec![owned(1, u64::MAX), owned(1, 1)]),
        Err(ChainError::ValueOverflow)
    );
}

#[test]
fn unspent_outputs_are_listed() {
    let mut db = at_height(110);
    let rows = vec![row(FIRST, [1; 32], 0, 100), row(CHANGE, [2; 32], 1, 20)];
    unspent(&mut db, [1; 32], 0, &output(FIRST, 100));
    unspent(&mut db, [2; 32], 1, &output(CHANGE, 20));
    placed(&mut db, [1; 32], 11);
    let all = wallet().get_utxos(&db, &rows, false).unwrap();
    assert_eq!(all.len(), 2);
    assert_eq!(all[0].value, 100);
    assert_eq!(all[0].confirmations, 100);
    assert_eq!(all[0].script_pubkey, output(FIRST, 100).script_pubkey);
    assert_eq!((all[0].chain, all[0].index), (0, 0));
    assert_eq!(all[1].confirmations, 0);
    assert_eq!((all[1].chain, all[1].index), (1, 0));
    let spendable = wallet().get_utxos(&db, &rows, true).unwrap();
    assert_eq!(spendable, vec![all[0].clone()]);
    let owned = Owned { chain: 0, index: 0, entry: Entry { txid: [1; 32], vout: 0, value: 100 } };
    assert_eq!(list_owned(&db, 109, &vec![owned], true), Ok(vec![]));
    db.apply(put_op(Cf::Utxo, &make_outpoint_key(false, &[1; 32], 0), &[1]));
    assert_eq!(
        wallet().get_utxos(&db, &rows, false),
        Err(other("Deserialize output failed"))
    );
}

#[test]
fn amounts_are_kept_by_transaction() {
    assert_eq!(contribute(5, false, false), Some(5));
    assert_eq!(contribute(5, true, false), Some(-5));
    assert_eq!(contribute(5, false, true), Some(-5));
    assert_eq!(contribute(5, true, true), Some(5));
    assert_eq!(contribute(1 << 63, true, false), None);
    let mut nets = vec![];
    assert!(add_net(&mut nets, [1; 32], 5));
    assert!(add_net(&mut nets, [2; 32], 7));
    assert!(add_net(&mut nets, [1; 32], -8));
    assert_eq!(nets, vec![([1; 32], -3), ([2; 32], 7)]);
    assert!(add_net(&mut nets, [2; 32], i64::MAX - 7));
    assert!(!add_net(&mut nets, [2; 32], 1));
    let mut db = Snapshot::new();
    unspent(&mut db, [1; 32], 0, &output(FIRST, 5));
    let owned = |txid: u8, chain: u32| Owned {
        chain,
        index: 0,
        entry: Entry { txid: [txid; 32], vout: 0, value: 5 },
    };
    assert_eq!(
        net_owned(&db, &vec![owned(1, 0), owned(2, 0), owned(1, 1)]),
        Ok(vec![([1; 32], 0), ([2; 32], -5)])
    );
}

#[test]
fn the_history_is_latest_first() {
    let mut db = Snapshot::new();
    for n in 1..4u8 {
        placed(&mut db, [n; 32], n as u64);
        let header = BlockHeader {
            version: 1,
            prev_hash: [0; 32],
            merkle_root: [0; 32],
            timestamp: 100 * n as u32,
            bits: 0,
            nonce: 0,
        };
        db.apply_all(&save_block(n as usize, &Block { header, txs: vec![] }, &[n; 32]));
    }
    let nets = vec![([1; 32], 5), ([3; 32], -7), ([2; 32], 0)];
    let all = build_history(&db, 3, &nets, false, 10).unwrap();
    assert_eq!(all.iter().map(|e| e.timestamp).collect::<Vec<u32>>(), vec![300, 200, 100]);
    assert_eq!(all[0].txid, "03".repeat(32));
    assert_eq!(all[0].net_amount, -7);
    assert!(!all[0].is_receive);
    assert_eq!(all[0].confirmations, 1);
    assert!(all[2].is_receive);
    assert_eq!(all[2].confirmations, 3);
    assert_eq!(build_history(&db, 3, &nets, true, 10).unwrap().len(), 2);
    assert_eq!(build_history(&db, 3, &nets, false, 1).unwrap(), vec![all[0].clone()]);
    assert_eq!(
        build_history(&db, 3, &vec![([9; 32], 1)], false, 10),
        Err(other("Tx not found in index"))
    );
}

#[test]
fn the_history_of_a_wallet_goes_by_its_rows() {
    let mut db = at_height(10);
    let r = row(FIRST, [1; 32], 0, 100);
    let (id, n) = looked_up(&r);
    unspent(&mut db, id, n, &output(FIRST, 100));
    placed(&mut db, id, 4);
    let h = wallet().get_history(&db, &vec![r.clone()], 5).unwrap();
    assert_eq!(h.len(), 1);
    assert_eq!(h[0].txid, hex::encode(id));
    assert_eq!(h[0].net_amount, 100);
    assert_eq!(h[0].confirmations, 7);
    assert_eq!(h[0].timestamp, 0);
    let h = build_history_task(&db, &vec![r], &vec![FIRST.to_string()], 10).unwrap();
    assert_eq!(h[0].net_amount, 100);
    assert!(build_history_task(&db, &vec![], &vec!["x".to_string()], 10).is_err());
}

#[test]
fn fees_settle() {
    assert_eq!(settle_fee(140_000, 1, 10), Some(2040));
    assert_eq!(settle_fee(1_700, 1, 10), Some(1700));
    assert_eq!(settle_fee(0, 1, u64::MAX), None);
    let plan = plan_payment(&vec![utxo(1, 50_000), utxo(2, 200_000)], 60_000, 10).unwrap();
    assert_eq!(plan.inputs, vec![utxo(2, 200_000)]);
    assert_eq!(plan.fee, 2040);
    assert_eq!(plan.change, 137_960);
    let plan = plan_payment(&vec![utxo(1, 50_000), utxo(2, 90_000)], 60_000, 10).unwrap();
    assert_eq!(plan.inputs, vec![utxo(2, 90_000), utxo(1, 50_000)]);
    assert_eq!(plan.fee, 3140);
    assert_eq!(plan.change, 140_000 - 60_000 - 3140);
    assert!(matches!(
        plan_payment(&vec![utxo(1, 50_000)], 60_000, 10),
        Err(e) if e == other("Insufficient funds")
    ));
    assert!(matches!(
        plan_payment(&vec![utxo(1, 60_100)], 60_000, 10),
        Err(e) if e == other("Insufficient funds (fees included)")
    ));
    assert!(matches!(
        plan_payment(&vec![utxo(1, u64::MAX), utxo(2, 1)], u64::MAX, 10),
        Err(ChainError::ValueOverflow)
    ));
}

#[test]
fn a_payment_is_signed() {
    let w = wallet();
    let (t, id) = w.pay(&vec![utxo(1, 200_000)], STRANGER, 60_000, 10, None).unwrap();
    assert_eq!(id, t.hash());
    assert_eq!(t.outputs, vec![output(STRANGER, 60_000), output(CHANGE, 137_960)]);
    assert!(gives_change(&t));
    assert_eq!(t.inputs.len(), 1);
    assert_eq!(t.inputs[0].txid, [1; 32]);
    let script = &t.inputs[0].script_sig;
    let (sk, pk) = w.derive(0, 0).unwrap();
    let at = script.len() - 33;
    assert_eq!(script[at..], pk.serialize());
    assert_eq!(script[at - 1], 1);
    let hash = t.sighash(0, &utxo(1, 200_000).script_pubkey, 1);
    let secp = secp256k1::Secp256k1::new();
    let message = secp256k1::Message::from_slice(&hash).unwrap();
    let sig = secp256k1::ecdsa::Signature::from_der(&script[..at - 1]).unwrap();
    let key = secp256k1::SecretKey::from_slice(&sk).unwrap().public_key(&secp);
    assert!(secp.verify_ecdsa(&message, &sig, &key).is_ok());
}

#[test]
fn small_change_goes_where_it_is_asked_to() {
    let w = wallet();
    let coins = vec![utxo(1, 62_000)];
    let (t, _) = w.pay(&coins, STRANGER, 60_000, 10, None).unwrap();
    assert_eq!(t.outputs, vec![output(STRANGER, 60_000)]);
    let (t, _) = w.pay(&coins, STRANGER, 60_000, 10, Some(FIRST)).unwrap();
    assert_eq!(t.outputs.len(), 2);
    assert_eq!(t.outputs[1], output(FIRST, t.outputs[1].value));
    assert!(w.pay(&coins, "x", 60_000, 10, None).is_err());
    assert!(w.pay(&coins, STRANGER, 60_000, 10, Some("x")).is_err());
    let far = Wallet::from_seed(seed(), true, HARDENED);
    assert!(matches!(
        far.pay(&vec![utxo(1, 200_000)], STRANGER, 60_000, 10, None),
        Err(e) if e == other("Invalid child number")
    ));
}

#[test]
fn a_payment_spends_what_the_wallet_holds() {
    let mut db = at_height(200);
    let rows = vec![row(FIRST, [1; 32], 0, 200_000)];
    unspent(&mut db, [1; 32], 0, &output(FIRST, 200_000));
    placed(&mut db, [1; 32], 50);
    let (t, id) = wallet().create_tx(&db, &rows, STRANGER, 60_000, 10, None).unwrap();
    assert_eq!(id, t.hash());
    assert_eq!(t.outputs[0], output(STRANGER, 60_000));
    let young = at_height(60);
    assert!(matches!(
        wallet().create_tx(&young, &rows, STRANGER, 60_000, 10, None),
        Err(e) if e == other("Insufficient funds")
    ));
}

#[test]
fn chains_of_addresses_are_scanned() {
    let mut db = Snapshot::new();
    let r = row(SCANNED, [1; 32], 0, 70);
    let (id, n) = looked_up(&r);
    unspent(&mut db, id, n, &output(SCANNED, 70));
    placed(&mut db, id, 4);
    let s = scan_chain(&seed(), &db, &vec![r.clone()], 0, 3, 10).unwrap();
    assert_eq!(s.balance, 70);
    assert_eq!(s.addresses, vec![SCANNED.to_string()]);
    assert_eq!(s.index, 4);
    assert_eq!(s.utxos.len(), 1);
    assert_eq!(s.utxos[0].confirmations, 7);
    assert_eq!(sum_utxos(&s.utxos), Some(70));
    assert_eq!(sum_utxos(&vec![utxo(1, u64::MAX), utxo(2, 1)]), None);
    let empty = scan_chain(&seed(), &db, &vec![], 1, 3, 10).unwrap();
    assert_eq!(empty.index, 3);
    assert!(empty.utxos.is_empty());
    assert!(scan_chain(&seed(), &db, &vec![], HARDENED, 3, 10).is_err());
    let waiting = Transaction {
        version: 1,
        is_anonymous: false,
        inputs: vec![],
        outputs: vec![output(STRANGER, 4), output(SCANNED, 5)],
        lock_time: 0,
        range_proofs: vec![],
    };
    let found = scan_mempool(&vec![waiting.clone()], &vec!["x".to_string(), SCANNED.to_string()]);
    assert_eq!(found.len(), 1);
    assert_eq!((found[0].txid, found[0].vout, found[0].value), (waiting.hash(), 1, 5));
    assert!(!found[0].is_confirmed);
    assert!(scan_mempool(&vec![waiting.clone()], &vec![FIRST.to_string()]).is_empty());
    let all = scan_wallet_task(&seed(), &db, &vec![r], 10, &vec![waiting]).unwrap();
    assert_eq!(all.balance, 70);
    assert_eq!(all.utxos.len(), 2);
    assert_eq!(all.utxos[1], found[0]);
    assert_eq!(all.receive_addresses, vec![SCANNED.to_string()]);
    assert_eq!(all.receive_index, 21);
    assert_eq!(all.change_index, 20);
    assert_eq!(all.history[0].net_amount, 70);
}

#[test]
fn a_wallet_file_opens_with_its_password() {
    let data = encrypt_wallet("secret", &seed(), &[3; 32], &[4; 12]).unwrap();
    assert_eq!(data.len(), 32 + 12 + 64 + 16);
    assert_eq!(data[..32], [3; 32]);
    assert_eq!(data[32..44], [4; 12]);
    assert_ne!(data[44..108], seed());
    assert_eq!(decrypt_wallet("secret", &data), Ok(seed()));
    assert_eq!(decrypt_wallet("Secret", &data), Err(other("Decryption failed")));
    assert_eq!(decrypt_wallet("secret", &data[..43]), Err(other("Corrupted wallet file")));
    assert_eq!(decrypt_wallet("secret", &data[..100]), Err(other("Decryption failed")));
}
