use lyrion::anon::{batch_accepted, commitments_balance, validate_anonymous_tx, BatchVerdict, RingProof};
use lyrion::codec::{
    deserialize_block, deserialize_header, deserialize_headers, deserialize_output,
    deserialize_position, deserialize_strings, deserialize_tx, deserialize_txs, serialize_block,
    serialize_header, serialize_header_base, serialize_headers, serialize_output,
    serialize_position, serialize_strings, serialize_tx, serialize_txs,
};
use lyrion::errors::{other, ChainError};
use lyrion::hash::{hash160, sha256d};
use lyrion::keys::make_outpoint_key;
use lyrion::points::sum_points;
use lyrion::script::{
    create_coinbase, p2pkh_script, p2pkh_script_from_pkh, validate_script,
    validate_script_with_timeout,
};
use lyrion::secp::PublicKey;
use lyrion::store::{put_op, Cf, Snapshot};
use lyrion::tx::{
    create_prefix_hash, is_zero_id, make_no_id, output_total, Block, BlockHeader, OutputMap,
    TXInput, TXOutput, Transaction,
};
use lyrion::validate::{least_fee, output_family, validate_transaction, TxProofs};

fn unhex(s: &str) -> Vec<u8> {
    hex::decode(s).unwrap()
}

fn sample() -> Transaction {
    Transaction {
        version: 2,
        is_anonymous: false,
        inputs: vec![TXInput {
            txid: [1; 32],
            vout: 3,
            script_sig: vec![0xaa, 0xbb],
            sequence: 0xffff_fffe,
        }],
        outputs: vec![
            TXOutput { value: 5000, script_pubkey: vec![0x76, 0xa9], commitment: None },
            TXOutput { value: 7, script_pubkey: vec![], commitment: Some(vec![1, 2]) },
        ],
        lock_time: 9,
        range_proofs: vec![vec![5]],
    }
}

fn header() -> BlockHeader {
    BlockHeader {
        version: 1,
        prev_hash: [2; 32],
        merkle_root: [3; 32],
        timestamp: 77,
        bits: 0x1d00ffff,
        nonce: 0x0102,
    }
}

fn no_proofs() -> TxProofs {
    TxProofs { rings: vec![], batch: BatchVerdict::Accepted }
}

fn secret(n: u8) -> [u8; 32] {
    let mut sk = [0u8; 32];
    sk[31] = n;
    sk
}

/// A transaction that spends one output with `value` to one of `pays`.
fn spend(value: u64, pays: u64, db: &mut Snapshot) -> Transaction {
    let spent = TXOutput { value, script_pubkey: vec![1], commitment: None };
    db.apply(put_op(Cf::Utxo, &make_outpoint_key(false, &[8; 32], 0), &serialize_output(&spent)));
    Transaction {
        version: 1,
        is_anonymous: false,
        inputs: vec![TXInput { txid: [8; 32], vout: 0, script_sig: vec![], sequence: u32::MAX }],
        outputs: vec![TXOutput { value: pays, script_pubkey: vec![2], commitment: None }],
        lock_time: 0,
        range_proofs: vec![],
    }
}

#[test]
fn transactions_have_their_bytes() {
    let t = sample();
    let bytes = unhex(
        "0200000000010000000000000001010101010101010101010101010101010101010101010101010101\
         01010101030000000200000000000000aabbfeffffff020000000000000088130000000000000200000\
         00000000076a90007000000000000000000000000000000010200000000000000010209000000010000\
         0000000000010000000000000005",
    );
    assert_eq!(serialize_tx(&t), bytes);
    assert_eq!(t.size(), 138);
    assert_eq!(deserialize_tx(&bytes), Some(t));
    assert_eq!(deserialize_tx(&bytes[..137]), None);
    assert_eq!(deserialize_tx(&[]), None);
}

#[test]
fn transactions_have_their_hashes() {
    let t = sample();
    assert_eq!(
        t.hash().to_vec(),
        unhex("e57fa66112e4c6b72e1a3dfaa1df27ee177781bd7b4a179937e56c985c2a4d74")
    );
    assert_eq!(
        t.sighash(0, &[1], 1).to_vec(),
        unhex("c5dd8f44bbce6ca5f668d86c871619d7bc4e47375fb80dec1e2254cb8967da41")
    );
    assert_eq!(
        create_prefix_hash(&t).to_vec(),
        unhex("85cfb09599dfab9e44bb99bd3a51490ec07809a0856966c0068f2ddd1bea72ca")
    );
}

#[test]
fn what_is_signed_leaves_out_scripts() {
    let mut t = sample();
    let hash = t.sighash(0, &[1], 1);
    let prefix = create_prefix_hash(&t);
    t.inputs[0].script_sig = vec![9; 20];
    assert_eq!(t.sighash(0, &[1], 1), hash);
    t.range_proofs = vec![];
    assert_eq!(create_prefix_hash(&t), prefix);
    t.lock_time += 1;
    assert_ne!(t.sighash(0, &[1], 1), hash);
    assert_ne!(create_prefix_hash(&t), prefix);
}

#[test]
fn outputs_read_back() {
    for o in sample().outputs {
        assert_eq!(deserialize_output(&serialize_output(&o)), Some(o));
    }
    assert_eq!(deserialize_output(&[1, 2, 3]), None);
}

#[test]
fn headers_and_blocks_read_back() {
    let h = header();
    let bytes = serialize_header(&h);
    assert_eq!(bytes.len(), 84);
    let mut base = serialize_header_base(&h);
    base.extend_from_slice(&h.nonce.to_le_bytes());
    assert_eq!(base, bytes);
    assert_eq!(h.pow_input(), bytes);
    assert_eq!(serialize_header(&deserialize_header(&bytes).unwrap()), bytes);
    assert!(deserialize_header(&bytes[1..]).is_none());
    let b = Block { header: h, txs: vec![sample(), sample()] };
    let bytes = serialize_block(&b);
    assert_eq!(bytes.len(), 84 + 8 + 2 * 138);
    assert_eq!(b.size(), bytes.len());
    let read = deserialize_block(&bytes).unwrap();
    assert_eq!(read.txs, b.txs);
    assert_eq!(serialize_block(&read), bytes);
    assert!(deserialize_block(&bytes[..100]).is_none());
    let list = serialize_headers(&vec![h, h]);
    assert_eq!(list.len(), 8 + 168);
    assert_eq!(deserialize_headers(&list).unwrap().len(), 2);
    assert!(deserialize_headers(&list[..20]).is_none());
    let txs = serialize_txs(&vec![sample()]);
    assert_eq!(deserialize_txs(&txs), Some(vec![sample()]));
    assert_eq!(deserialize_txs(&txs[..9]), None);
}

#[test]
fn positions_and_strings_read_back() {
    assert_eq!(
        serialize_position(1, 2),
        vec![1, 0, 0, 0, 0, 0, 0, 0, 2, 0, 0, 0, 0, 0, 0, 0]
    );
    assert_eq!(deserialize_position(&serialize_position(u64::MAX, 3)), Some((u64::MAX, 3)));
    assert_eq!(deserialize_position(&[0; 15]), None);
    let texts = vec!["a:1".to_string(), String::new()];
    let bytes = serialize_strings(&texts);
    assert_eq!(bytes.len(), 8 + 8 + 3 + 8);
    assert_eq!(deserialize_strings(&bytes), Some(texts));
    assert_eq!(deserialize_strings(&bytes[..10]), None);
}

#[test]
fn merkle_roots_pair_their_leaves() {
    let t = sample();
    let mut u = sample();
    u.version = 3;
    let (a, b) = (t.hash(), u.hash());
    assert_eq!(Block::compute_merkle_root(&[]), [0u8; 32]);
    assert_eq!(Block::compute_merkle_root(&[t.clone()]), a);
    let pair = sha256d(&[a, b].concat());
    assert_eq!(Block::compute_merkle_root(&[t.clone(), u.clone()]), pair);
    let last = sha256d(&[a, a].concat());
    assert_eq!(
        Block::compute_merkle_root(&[t.clone(), u.clone(), t.clone()]),
        sha256d(&[pair, last].concat())
    );
    assert_eq!(
        Block::compute_merkle_root(&[t.clone(), u.clone(), t.clone()]),
        Block::compute_merkle_root(&[t.clone(), u.clone(), t.clone(), t.clone()])
    );
}

#[test]
fn coinbases_name_their_height() {
    let key = PublicKey::from_secret(&secret(1)).unwrap();
    let t = create_coinbase(258, b"xy", &key);
    assert!(t.is_coinbase());
    assert_eq!(t.inputs[0].script_sig, vec![2, 1, 0, 0, 0, 0, 0, 0, b'x', b'y']);
    assert_eq!(t.inputs[0].vout, u32::MAX);
    assert!(is_zero_id(&t.inputs[0].txid));
    assert_eq!(t.inputs[0].txid, make_no_id());
    assert_eq!(t.outputs[0].value, 0);
    assert_eq!(t.outputs[0].script_pubkey, p2pkh_script(&key));
    assert!(!sample().is_coinbase());
    assert!(!is_zero_id(&[1; 32]));
}

#[test]
fn fees_are_what_is_left() {
    let t = sample();
    let mut known = OutputMap::new();
    assert_eq!(t.fee(&known), 0);
    known.insert([1; 32], 3, TXOutput { value: 6000, script_pubkey: vec![], commitment: None });
    assert_eq!(t.fee(&known), 993);
    assert_eq!(known.get(&[1; 32], 3).unwrap().value, 6000);
    assert!(known.get(&[1; 32], 4).is_none());
    known.insert([1; 32], 3, TXOutput { value: 5006, script_pubkey: vec![], commitment: None });
    assert_eq!(t.fee(&known), 0);
    assert_eq!(output_total(&t.outputs), Some(5007));
    let mut big = t.clone();
    big.outputs[0].value = u64::MAX;
    assert_eq!(output_total(&big.outputs), None);
    assert_eq!(big.fee(&known), 0);
}

#[test]
fn the_least_fee_depends_on_the_size() {
    let mut t = sample();
    assert_eq!(least_fee(&t), Some(1380));
    t.is_anonymous = true;
    assert_eq!(least_fee(&t), Some(2070));
    assert_eq!(output_family(true), Cf::Anonymous);
    assert_eq!(output_family(false), Cf::Utxo);
}

#[test]
fn a_signed_spend_of_a_key_hash_is_valid() {
    let secp = secp256k1::Secp256k1::new();
    let key = PublicKey::from_secret(&secret(9)).unwrap();
    let output =
        TXOutput { value: 1, script_pubkey: p2pkh_script(&key), commitment: None };
    assert_eq!(output.script_pubkey, p2pkh_script_from_pkh(&hash160(&key.serialize())));
    let mut t = sample();
    let hash = t.sighash(0, &output.script_pubkey, 1);
    let sk = secp256k1::SecretKey::from_slice(&secret(9)).unwrap();
    let message = secp256k1::Message::from_slice(&hash).unwrap();
    let mut sig = secp.sign_ecdsa(&message, &sk).serialize_der().to_vec();
    sig.push(1);
    let mut script = vec![sig.len() as u8];
    script.extend_from_slice(&sig);
    script.push(33);
    script.extend_from_slice(&key.serialize());
    t.inputs[0].script_sig = script;
    assert_eq!(validate_script(&t.inputs[0], &output, &t, 0), Ok(()));
    assert_eq!(validate_script_with_timeout(&t.inputs[0], &output, &t, 0, true), Ok(()));
    assert_eq!(
        validate_script_with_timeout(&t.inputs[0], &output, &t, 0, false),
        Err(ChainError::ValidationTimeout)
    );
    t.outputs[0].value += 1;
    assert_eq!(
        validate_script(&t.inputs[0], &output, &t, 0),
        Err(ChainError::InvalidSignature)
    );
    let stranger = TXOutput {
        value: 1,
        script_pubkey: p2pkh_script_from_pkh(&[0; 20]),
        commitment: None,
    };
    assert_eq!(validate_script(&t.inputs[0], &stranger, &t, 0), Err(ChainError::InvalidScript));
}

#[test]
fn malformed_scripts_are_refused() {
    let t = sample();
    let key = PublicKey::from_secret(&secret(9)).unwrap();
    let unknown = TXOutput { value: 1, script_pubkey: vec![0x51], commitment: None };
    assert_eq!(validate_script(&t.inputs[0], &unknown, &t, 0), Err(ChainError::InvalidScript));
    let mut broken = p2pkh_script(&key);
    broken[24] = 0;
    let broken = TXOutput { value: 1, script_pubkey: broken, commitment: None };
    assert_eq!(validate_script(&t.inputs[0], &broken, &t, 0), Err(ChainError::InvalidScript));
    let mut input = t.inputs[0].clone();
    input.script_sig = vec![1, 0, 33];
    input.script_sig.extend_from_slice(&key.serialize());
    let ours = TXOutput { value: 1, script_pubkey: p2pkh_script(&key), commitment: None };
    assert_eq!(validate_script(&input, &ours, &t, 0), Err(other("Invalid DER signature")));
    input.script_sig[0] = 200;
    assert_eq!(validate_script(&input, &ours, &t, 0), Err(ChainError::InvalidScript));
    let mut to_key = vec![0x21];
    to_key.extend_from_slice(&key.serialize());
    to_key[33] = 0xac;
    let to_key = TXOutput { value: 1, script_pubkey: to_key, commitment: None };
    assert_eq!(validate_script(&input, &to_key, &t, 0), Err(other("Invalid P2PK pubkey")));
}

#[test]
fn transactions_are_judged_by_their_amounts() {
    let mut db = Snapshot::new();
    let t = spend(10_000, 8_000, &mut db);
    let size = t.size() as u64;
    assert_eq!(size, 99);
    assert_eq!(validate_transaction(&t, 5, &db, 6, &no_proofs()), Ok(()));
    let t = spend(10_000, 10_000 - 989, &mut db);
    assert_eq!(
        validate_transaction(&t, 5, &db, 6, &no_proofs()),
        Err(ChainError::InsufficientFee)
    );
    let t = spend(10_000, 10_001, &mut db);
    assert_eq!(
        validate_transaction(&t, 5, &db, 6, &no_proofs()),
        Err(ChainError::InvalidTx("Outputs exceed inputs".to_string()))
    );
    let mut t = spend(10_000, u64::MAX, &mut db);
    t.outputs.push(t.outputs[0].clone());
    assert_eq!(
        validate_transaction(&t, 5, &db, 6, &no_proofs()),
        Err(ChainError::ValueOverflow)
    );
}

#[test]
fn transactions_are_judged_by_their_inputs() {
    let mut db = Snapshot::new();
    let mut t = spend(10_000, 8_000, &mut db);
    t.inputs[0].vout = 1;
    assert_eq!(validate_transaction(&t, 5, &db, 6, &no_proofs()), Err(ChainError::MissingUTXO));
    let mut t = spend(10_000, 8_000, &mut db);
    t.inputs.push(t.inputs[0].clone());
    assert_eq!(validate_transaction(&t, 5, &db, 6, &no_proofs()), Err(ChainError::DoubleSpend));
    let mut t = spend(10_000, 8_000, &mut db);
    t.lock_time = 6;
    assert_eq!(validate_transaction(&t, 5, &db, 6, &no_proofs()), Ok(()));
    t.inputs[0].sequence = 0;
    assert_eq!(
        validate_transaction(&t, 5, &db, 6, &no_proofs()),
        Err(ChainError::InvalidLockTime)
    );
    assert_eq!(validate_transaction(&t, 6, &db, 7, &no_proofs()), Ok(()));
    let t = spend(10_000, 8_000, &mut db);
    db.apply(put_op(Cf::Coinbase, &[8; 32], &10u64.to_be_bytes()));
    assert_eq!(
        validate_transaction(&t, 5, &db, 109, &no_proofs()),
        Err(ChainError::CoinbaseImmature)
    );
    assert_eq!(validate_transaction(&t, 5, &db, 110, &no_proofs()), Ok(()));
    db.apply(put_op(Cf::Coinbase, &[8; 32], &[1]));
    assert_eq!(
        validate_transaction(&t, 5, &db, 110, &no_proofs()),
        Err(other("Invalid cb height bytes"))
    );
    let mut db = Snapshot::new();
    let t = spend(10_000, 8_000, &mut db);
    db.apply(put_op(Cf::Utxo, &make_outpoint_key(false, &[8; 32], 0), &[1]));
    assert_eq!(
        validate_transaction(&t, 5, &db, 6, &no_proofs()),
        Err(other("Deserialize utxo failed"))
    );
    let key = PublicKey::from_secret(&secret(1)).unwrap();
    assert_eq!(
        validate_transaction(&create_coinbase(1, &[], &key), 5, &db, 6, &no_proofs()),
        Ok(())
    );
}

#[test]
fn test_validate_anonymous_tx_edge() {
    let tx = Transaction {
        version: 1,
        is_anonymous: true,
        inputs: vec![],
        outputs: vec![],
        lock_time: 0,
        range_proofs: vec![],
    };
    let empty_map = OutputMap::new();
    let db = Snapshot::new();
    for batch in [BatchVerdict::Failed, BatchVerdict::Rejected, BatchVerdict::Accepted] {
        assert!(validate_anonymous_tx(&tx, &empty_map, &db, &vec![], batch).is_err());
    }
}

/// The compressed commitment to an amount without a blinding factor.
fn commitment(amount: u64) -> [u8; 32] {
    let gens = bulletproofs::PedersenGens::default();
    let zero = curve25519_dalek::scalar::Scalar::ZERO;
    gens.commit(curve25519_dalek::scalar::Scalar::from(amount), zero).compress().to_bytes()
}

fn good_ring() -> RingProof {
    RingProof { key_image_valid: true, ring_len: Some(11), verifies: true }
}

/// A transaction that turns one anonymous output of 9 into one of 5.
fn anonymous() -> (Transaction, OutputMap) {
    let proof = bulletproofs::RangeProof::from_bytes(&[0u8; 672]).unwrap();
    let proof_bytes = bincode::serialize(&proof).unwrap();
    let mut script_sig = vec![3u8; 32];
    script_sig.extend_from_slice(&[1, 2, 3]);
    let t = Transaction {
        version: 1,
        is_anonymous: true,
        inputs: vec![TXInput { txid: [4; 32], vout: 0, script_sig, sequence: u32::MAX }],
        outputs: vec![TXOutput {
            value: 5,
            script_pubkey: vec![6; 32],
            commitment: Some(commitment(5).to_vec()),
        }],
        lock_time: 0,
        range_proofs: vec![proof_bytes],
    };
    let mut known = OutputMap::new();
    known.insert(
        [4; 32],
        0,
        TXOutput {
            value: 9,
            script_pubkey: vec![7; 32],
            commitment: Some(commitment(9).to_vec()),
        },
    );
    (t, known)
}

fn judge(t: &Transaction, known: &OutputMap, db: &Snapshot, ring: RingProof) -> Result<(), ChainError> {
    let rings = vec![ring; t.inputs.len()];
    validate_anonymous_tx(t, known, db, &rings, BatchVerdict::Accepted)
}

#[test]
fn a_balanced_anonymous_transaction_is_valid() {
    let (t, known) = anonymous();
    let mut db = Snapshot::new();
    assert_eq!(judge(&t, &known, &db, good_ring()), Ok(()));
    assert_eq!(
        validate_anonymous_tx(&t, &known, &db, &vec![good_ring()], BatchVerdict::Rejected),
        Err(ChainError::InvalidRangeProof)
    );
    db.apply(put_op(Cf::KeyImages, &[3; 32], &[]));
    assert_eq!(judge(&t, &known, &db, good_ring()), Err(ChainError::DoubleSpend));
}

#[test]
fn anonymous_inputs_are_checked() {
    let (t, known) = anonymous();
    let db = Snapshot::new();
    let mut short = t.clone();
    short.inputs[0].script_sig = vec![3; 31];
    assert_eq!(judge(&short, &known, &db, good_ring()), Err(ChainError::InvalidScript));
    let ring = RingProof { key_image_valid: false, ..good_ring() };
    assert_eq!(judge(&t, &known, &db, ring), Err(ChainError::InvalidKeyImage));
    let ring = RingProof { ring_len: None, ..good_ring() };
    assert_eq!(judge(&t, &known, &db, ring), Err(other("Deserialize clsag error")));
    for n in [0, 21] {
        let ring = RingProof { ring_len: Some(n), ..good_ring() };
        assert_eq!(judge(&t, &known, &db, ring), Err(ChainError::InvalidScript));
    }
    let ring = RingProof { ring_len: Some(20), ..good_ring() };
    assert_eq!(judge(&t, &known, &db, ring), Ok(()));
    let ring = RingProof { verifies: false, ..good_ring() };
    assert_eq!(judge(&t, &known, &db, ring), Err(other("Clsag verify error")));
    assert_eq!(judge(&t, &OutputMap::new(), &db, good_ring()), Err(ChainError::MissingUTXO));
    let mut twice = t.clone();
    twice.inputs.push(t.inputs[0].clone());
    assert_eq!(judge(&twice, &known, &db, good_ring()), Err(ChainError::DoubleSpend));
    let mut bare = OutputMap::new();
    bare.insert([4; 32], 0, TXOutput { value: 9, script_pubkey: vec![], commitment: None });
    assert_eq!(judge(&t, &bare, &db, good_ring()), Err(ChainError::InvalidCommitment));
}

#[test]
fn anonymous_amounts_are_checked() {
    let (t, known) = anonymous();
    let db = Snapshot::new();
    let mut more = t.clone();
    more.outputs[0].value = 10;
    assert_eq!(judge(&more, &known, &db, good_ring()), Err(ChainError::ValueOverflow));
    let mut less = t.clone();
    less.outputs[0].value = 4;
    assert_eq!(judge(&less, &known, &db, good_ring()), Err(ChainError::InvalidCommitment));
    let mut proofless = t.clone();
    proofless.range_proofs = vec![vec![1, 2, 3]];
    assert_eq!(judge(&proofless, &known, &db, good_ring()), Err(other("Deserialize proof error")));
    let mut pointless = t.clone();
    pointless.outputs[0].commitment = Some(vec![0xff; 32]);
    assert_eq!(judge(&pointless, &known, &db, good_ring()), Err(ChainError::InvalidCommitment));
    let mut unproved = t.clone();
    unproved.range_proofs = vec![];
    assert_eq!(judge(&unproved, &known, &db, good_ring()), Err(ChainError::InvalidRangeProof));
}

#[test]
fn an_anonymous_transaction_never_covers_its_fee() {
    let (t, known) = anonymous();
    let mut db = Snapshot::new();
    let spent = known.get(&[4; 32], 0).unwrap();
    db.apply(put_op(
        Cf::Anonymous,
        &make_outpoint_key(true, &[4; 32], 0),
        &serialize_output(spent),
    ));
    let proofs = TxProofs { rings: vec![good_ring()], batch: BatchVerdict::Accepted };
    assert_eq!(
        validate_transaction(&t, 5, &db, 6, &proofs),
        Err(ChainError::InvalidTx("Outputs exceed inputs".to_string()))
    );
    db.apply(put_op(Cf::Anonymous, &make_outpoint_key(true, &[4; 32], 0), &[7]));
    assert_eq!(
        validate_transaction(&t, 5, &db, 6, &proofs),
        Err(other("Deserialize anon failed"))
    );
}

#[test]
fn commitments_add_up() {
    assert_eq!(sum_points(&vec![]), commitment(0));
    assert_eq!(sum_points(&vec![commitment(2), commitment(3)]), commitment(5));
    assert!(commitments_balance(&vec![commitment(9)], &vec![commitment(2), commitment(3)], 4));
    assert!(!commitments_balance(&vec![commitment(9)], &vec![commitment(2), commitment(3)], 5));
    assert!(commitments_balance(&vec![], &vec![], 0));
    assert!(!batch_accepted(0, BatchVerdict::Accepted));
    assert!(batch_accepted(1, BatchVerdict::Accepted));
    assert!(!batch_accepted(1, BatchVerdict::Failed));
}
