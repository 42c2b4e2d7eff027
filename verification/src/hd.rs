//! The keys of a wallet: a seed from a phrase, and secret keys from the seed,
//! by the `bip39` and `bitcoin` crates.
use crate::errors::{other, ChainError, Fault};
use crate::secp;
use crate::secp::PublicKey;
use bip39::{Language, Mnemonic};
use bitcoin::bip32::{ChildNumber, ExtendedPrivKey};
use bitcoin::Network;
use vstd::prelude::*;

verus! {

/// The mark of a hardened step of a path.
pub const HARDENED: u32 = 0x8000_0000;

/// The purpose of the wallet's paths.
pub const PURPOSE: u32 = 0x8000_002c;

/// The coin of the wallet's paths.
pub const COIN: u32 = 0x8000_07c3;

/// The account of the wallet's paths.
pub const ACCOUNT: u32 = 0x8000_0000;

/// The seed that a phrase of English words stands for.
pub uninterp spec fn phrase_seed(phrase: Seq<char>) -> Option<Seq<u8>>;

/// A phrase of English words in its plain form.
pub uninterp spec fn phrase_text(phrase: Seq<char>) -> Option<Seq<char>>;

/// A secret key in the import format of wallets.
pub uninterp spec fn wif_text(secret: Seq<u8>, mainnet: bool) -> Seq<char>;

/// The secret key that a seed has at a path.
pub uninterp spec fn secret_at(seed: Seq<u8>, path: Seq<u32>) -> Option<Seq<u8>>;

/// `bip39::Mnemonic::parse_in` for English words, and
/// `bip39::Mnemonic::to_seed` without a passphrase of what it gives: whether
/// and which seed the phrase stands for depends on the phrase alone.
#[verifier::external_body]
pub(crate) fn seed_from_phrase(phrase: &str) -> (r: Option<[u8; 64]>)
    ensures
        secp::opt_array(r) == phrase_seed(phrase@),
{
    match Mnemonic::parse_in(Language::English, phrase) {
        Ok(m) => Some(m.to_seed("")),
        Err(_) => None,
    }
}

/// What an optional text holds.
pub open spec fn opt_text(o: Option<String>) -> Option<Seq<char>> {
    match o {
        Some(t) => Some(t@),
        None => None,
    }
}

/// `bip39::Mnemonic::parse_in` for English words, and the text of what it
/// gives, its words with single spaces between them: whether and which text
/// comes out depends on the phrase alone. It does where the phrase stands for a
/// seed, and stands for the same one.
#[verifier::external_body]
pub(crate) fn plain_phrase(phrase: &str) -> (r: Option<String>)
    ensures
        opt_text(r) == phrase_text(phrase@),
        r is Some == phrase_seed(phrase@) is Some,
        r is Some ==> phrase_seed(r->0@) == phrase_seed(phrase@),
{
    match Mnemonic::parse_in(Language::English, phrase) {
        Ok(m) => Some(m.to_string()),
        Err(_) => None,
    }
}

/// `bitcoin::PrivateKey::to_wif` of a secret key, which is taken to have a
/// compressed public key: the text depends on the key and the network alone.
#[verifier::external_body]
pub(crate) fn write_wif(secret: &[u8; 32], mainnet: bool) -> (r: String)
    requires
        secp::public_of(secret@) is Some,
    ensures
        r@ == wif_text(secret@, mainnet),
{
    let network = if mainnet { Network::Bitcoin } else { Network::Testnet };
    bitcoin::PrivateKey::from_slice(secret, network).expect("a secret key").to_wif()
}

/// `bitcoin::bip32::ExtendedPrivKey::new_master` of a seed, and
/// `bitcoin::bip32::ExtendedPrivKey::derive_priv` along a path of what it
/// gives: whether and which secret key comes out depends on the seed and the
/// path alone. The network is only written down beside the key.
#[verifier::external_body]
pub(crate) fn derive_secret(seed: &[u8; 64], path: &Vec<u32>) -> (r: Option<[u8; 32]>)
    requires
        path@.len() <= 255,
    ensures
        secp::opt_array(r) == secret_at(seed@, path@),
{
    let steps: Vec<ChildNumber> = path.iter().map(|n| ChildNumber::from(*n)).collect();
    let secp = bitcoin::secp256k1::Secp256k1::signing_only();
    let master = ExtendedPrivKey::new_master(Network::Bitcoin, seed).ok()?;
    let key = master.derive_priv(&secp, &steps).ok()?;
    Some(key.private_key.secret_bytes())
}

/// The path of a key: the account, a chain and an index.
pub open spec fn key_path(chain: u32, index: u32) -> Seq<u32> {
    seq![PURPOSE, COIN, ACCOUNT, chain, index]
}

/// The path of a key.
pub fn make_path(chain: u32, index: u32) -> (r: Vec<u32>)
    ensures
        r@ == key_path(chain, index),
{
    let mut path: Vec<u32> = Vec::new();
    path.push(PURPOSE);
    path.push(COIN);
    path.push(ACCOUNT);
    path.push(chain);
    path.push(index);
    assert(path@ =~= key_path(chain, index));
    path
}

/// The secret key and the public key that a seed has on a chain at an index.
pub open spec fn keys_at(seed: Seq<u8>, chain: u32, index: u32) -> Result<(Seq<u8>, Seq<u8>), Fault> {
    match secret_at(seed, key_path(chain, index)) {
        None => Err(Fault::Other("Key derivation failed"@)),
        Some(sk) => match secp::public_of(sk) {
            None => Err(Fault::Other("Invalid secret key"@)),
            Some(pk) => Ok((sk, pk)),
        },
    }
}

/// What a result with keys says.
pub open spec fn keys_verdict(r: Result<([u8; 32], PublicKey), ChainError>) -> Result<
    (Seq<u8>, Seq<u8>),
    Fault,
> {
    match r {
        Ok((sk, pk)) => Ok((sk@, pk@)),
        Err(e) => Err(e@),
    }
}

/// The secret key and the public key that a seed has on a chain at an index.
pub fn derive_keys(seed: &[u8; 64], chain: u32, index: u32) -> (r: Result<
    ([u8; 32], PublicKey),
    ChainError,
>)
    ensures
        keys_verdict(r) == keys_at(seed@, chain, index),
{
    let path = make_path(chain, index);
    match derive_secret(seed, &path) {
        None => Err(other("Key derivation failed")),
        Some(sk) => match PublicKey::from_secret(&sk) {
            None => Err(other("Invalid secret key")),
            Some(pk) => Ok((sk, pk)),
        },
    }
}

} // verus!
