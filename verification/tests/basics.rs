use lyrion::address::{
    address_to_anon_pubkey, address_to_pubkey_hash, pubkey_hash_to_address, pubkey_to_address,
    pubkey_to_anon_address,
};
use lyrion::bytes::{append_bytes, from_be, from_le, read20, read32, same32, same_bytes, starts_with, to_be, to_le};
use lyrion::errors::{invalid_block, invalid_tx, other, ChainError};
use lyrion::hash::{hash160, hash_ripemd160, sha256d};
use lyrion::hd::{derive_keys, make_path, HARDENED};
use lyrion::keys::{
    make_addr_key, make_addr_prefix, make_best_height_key, make_block_key, make_genesis_key,
    make_header_key, make_height_bytes, make_height_key, make_issued_key, make_journal_key,
    make_outpoint_key, make_set_hash_key, make_supply_key, make_tip_key,
};
use lyrion::params::{subsidy, HALVING_INTERVAL, INITIAL_SUBSIDY, TAIL_SUBSIDY};
use lyrion::secp::PublicKey;

fn secret(n: u8) -> [u8; 32] {
    let mut sk = [0u8; 32];
    sk[31] = n;
    sk
}

fn unhex(s: &str) -> Vec<u8> {
    hex::decode(s).unwrap()
}

fn seed() -> [u8; 64] {
    let mut s = [0u8; 64];
    s.copy_from_slice(&unhex(
        "5eb00bbddcf069084889a8ab9155568165f5c453ccb85e70811aaed6f6da5fc1\
         9a5ac40b389cd370d086206dec8aa6c43daea6690f20ad3d8d48b2d2ce9e38e4",
    ));
    s
}

#[test]
fn hashes_have_their_values() {
    assert_eq!(
        sha256d(b"").to_vec(),
        unhex("5df6e0e2761359d30a8275058e299fcc0381534545f55cf43e41983f5d4c9456")
    );
    assert_eq!(
        sha256d(b"abc").to_vec(),
        unhex("4f8b42c22dd3729b519ba6f68d2da7cc5b2d606d05daed5ad5128cc03e6c6358")
    );
    assert_eq!(hash160(b"").to_vec(), unhex("b472a266d0bd89c13706a4132ccfb16f7c3b9fcb"));
    assert_eq!(hash_ripemd160(b"").to_vec(), unhex("9c1185a5c5e9fc54612808977ee8f548b2258d31"));
}

#[test]
fn numbers_are_written_in_both_orders() {
    assert_eq!(to_le(0x0102, 4), vec![2, 1, 0, 0]);
    assert_eq!(to_be(0x0102, 4), vec![0, 0, 1, 2]);
    assert_eq!(to_be(0x1_0000_0001, 4), vec![0, 0, 0, 1]);
    assert_eq!(from_le(&[2, 1, 0, 0]), 0x0102);
    assert_eq!(from_be(&[0, 0, 1, 2]), 0x0102);
    assert_eq!(from_be(&[]), 0);
    assert_eq!(from_le(&to_le(u128::MAX, 16)), u128::MAX);
}

#[test]
fn bytes_are_compared_and_copied() {
    assert!(same_bytes(&[1, 2], &[1, 2]));
    assert!(!same_bytes(&[1, 2], &[1, 2, 3]));
    assert!(!same_bytes(&[1, 2], &[1, 3]));
    assert!(same32(&[5; 32], &[5; 32]));
    assert!(!same32(&[5; 32], &secret(5)));
    assert!(starts_with(b"addr:x", b"addr:"));
    assert!(!starts_with(b"add", b"addr:"));
    let mut v = vec![1];
    append_bytes(&mut v, &[2, 3]);
    assert_eq!(v, vec![1, 2, 3]);
    let long: Vec<u8> = (0..40).collect();
    assert_eq!(read32(&long, 3).to_vec(), long[3..35].to_vec());
    assert_eq!(read20(&long, 20).to_vec(), long[20..40].to_vec());
}

#[test]
fn errors_carry_their_words() {
    assert_eq!(invalid_block("Invalid bits"), ChainError::InvalidBlock("Invalid bits".to_string()));
    assert_eq!(invalid_tx("x"), ChainError::InvalidTx("x".to_string()));
    assert_eq!(other(""), ChainError::Other(String::new()));
    assert_eq!(ChainError::MissingUTXO.message(), "Missing UTXO");
    assert_eq!(ChainError::SupplyMismatch.message(), "Supply validation failed");
    assert_eq!(invalid_block("Invalid bits").message(), "Invalid block: Invalid bits");
    assert_eq!(invalid_tx("x").message(), "Invalid transaction: x");
    assert_eq!(
        ChainError::FilePermissionError("Wrong owner".to_string()).message(),
        "File permission error: Wrong owner"
    );
    assert_eq!(other("x").message(), "x");
}

#[test]
fn records_have_their_keys() {
    let id = [7u8; 32];
    let mut outpoint = b"u:".to_vec();
    outpoint.extend_from_slice(&id);
    outpoint.extend_from_slice(&[0, 0, 1, 0]);
    assert_eq!(make_outpoint_key(false, &id, 256), outpoint);
    outpoint[0] = b'a';
    assert_eq!(make_outpoint_key(true, &id, 256), outpoint);
    assert_ne!(make_outpoint_key(true, &id, 256), make_outpoint_key(true, &id, 257));
    assert_eq!(make_height_key(3), b"h:\0\0\0\0\0\0\0\x03".to_vec());
    assert_ne!(make_height_key(3), make_height_key(4));
    assert_eq!(make_header_key(3), b"hdr:\0\0\0\0\0\0\0\x03".to_vec());
    assert_eq!(make_block_key(&id)[..2], b"b:"[..]);
    assert_eq!(make_block_key(&id)[2..], id[..]);
    let mut addr = b"addr:".to_vec();
    addr.extend_from_slice(&[9u8; 20]);
    assert_eq!(make_addr_prefix(&[9; 20]), addr);
    addr.extend_from_slice(&id);
    addr.extend_from_slice(&[0, 0, 0, 2]);
    assert_eq!(make_addr_key(&[9; 20], &id, 2), addr);
    assert_eq!(make_journal_key(b"one"), b"reorg:pending:one".to_vec());
    assert_eq!(make_tip_key(), b"tip".to_vec());
    assert_eq!(make_best_height_key(), b"height".to_vec());
    assert_eq!(make_genesis_key(), b"genesis_hash".to_vec());
    assert_eq!(make_set_hash_key(), b"utxo_set_hash".to_vec());
    assert_eq!(make_supply_key(), b"total_supply".to_vec());
    assert_eq!(make_issued_key(), b"state:total_supply".to_vec());
    assert_eq!(make_height_bytes(258), vec![0, 0, 0, 0, 0, 0, 1, 2]);
}

#[test]
fn the_subsidy_halves() {
    assert_eq!(subsidy(0), INITIAL_SUBSIDY);
    assert_eq!(subsidy(HALVING_INTERVAL - 1), 10_000_000_000);
    assert_eq!(subsidy(HALVING_INTERVAL), 5_000_000_000);
    assert_eq!(subsidy(2 * HALVING_INTERVAL), 2_500_000_000);
    assert_eq!(subsidy(33 * HALVING_INTERVAL), 1);
    assert_eq!(subsidy(34 * HALVING_INTERVAL), 0);
    assert_eq!(subsidy(64 * HALVING_INTERVAL), TAIL_SUBSIDY);
}

#[test]
fn public_keys_are_read() {
    let key = PublicKey::from_secret(&secret(1)).unwrap();
    let bytes = unhex("0279be667ef9dcbbac55a06295ce870b07029bfcdb2dce28d959f2815b16f81798");
    assert_eq!(key.serialize().to_vec(), bytes);
    assert_eq!(PublicKey::from_slice(&bytes), Some(key));
    assert_eq!(PublicKey::from_slice(&bytes[1..]), None);
    assert_eq!(PublicKey::from_slice(&[2u8; 5]), None);
    assert_eq!(
        PublicKey::from_text("0279be667ef9dcbbac55a06295ce870b07029bfcdb2dce28d959f2815b16f81798"),
        Some(key)
    );
    assert_eq!(PublicKey::from_text("0279be"), None);
    assert_eq!(PublicKey::from_secret(&[0u8; 32]), None);
}

#[test]
fn addresses_read_back() {
    let key = PublicKey::from_secret(&secret(1)).unwrap();
    let address = pubkey_to_address(&key);
    assert_eq!(address, "1BgGZ9tcN4rm9KBzDn7KprQz87SZ26SAMH");
    let hash = address_to_pubkey_hash(&address).unwrap();
    assert_eq!(hash.to_vec(), unhex("751e76e8199196d454941c45d1b3a323f1433bd6"));
    assert_eq!(pubkey_hash_to_address(&hash), address);
}

#[test]
fn anonymous_addresses_read_back() {
    let address = pubkey_to_anon_address(&[7; 32]);
    assert_eq!(address, "2zqgdLU9hpajqS5W1CWkRLoqCoUnLSt3YGNCaig6LGBbv2usqs");
    assert_eq!(address_to_anon_pubkey(&address), Ok([7; 32]));
}

#[test]
fn addresses_of_the_wrong_kind_are_refused() {
    let plain = "1BgGZ9tcN4rm9KBzDn7KprQz87SZ26SAMH";
    let anonymous = pubkey_to_anon_address(&[7; 32]);
    assert_eq!(address_to_anon_pubkey(plain), Err(other("Not a valid anonymous address")));
    assert_eq!(address_to_pubkey_hash(&anonymous), Err(other("Invalid payload length")));
    assert_eq!(
        address_to_pubkey_hash("1BgGZ9tcN4rm9KBzDn7KprQz87SZ26SAMJ"),
        Err(other("Invalid address"))
    );
    assert_eq!(address_to_anon_pubkey("0OIl"), Err(other("Invalid address")));
}

#[test]
fn keys_come_from_the_seed() {
    assert_eq!(
        make_path(0, 1),
        vec![HARDENED + 44, HARDENED + 1987, HARDENED, 0, 1]
    );
    let (sk, pk) = derive_keys(&seed(), 0, 0).unwrap();
    assert_eq!(
        sk.to_vec(),
        unhex("9a0943601f25bae54bb6421afee9a57689d5d86a6178987e3c26e53878fbc2ac")
    );
    assert_eq!(pubkey_to_address(&pk), "1W2x4jXRPDETTABsvKRe5ZsxexnBpxVqz");
    let (sk, pk) = derive_keys(&seed(), HARDENED + 1, 0).unwrap();
    assert_eq!(
        sk.to_vec(),
        unhex("f1113dd452badb59e26563308f75651f05ef0b8563e9acd9fb5d58eaa4bdb38b")
    );
    assert_eq!(pubkey_to_address(&pk), "1HRLstGtmy2jLav1JNSMQzNAjMaAvJqusr");
}
