//! The seed of a wallet under a password, by the `argon2` and
//! `chacha20poly1305` crates.
use crate::bytes::{append_bytes, copy_bytes, read32};
use crate::errors::{other, ChainError, Fault};
use crate::secp;
use crate::tx;
use argon2::{Algorithm, Argon2, Params, Version};
use chacha20poly1305::aead::Aead;
use chacha20poly1305::{ChaCha20Poly1305, KeyInit, Nonce};
use vstd::prelude::*;

verus! {

/// The least size of a wallet file: the salt and the nonce.
pub const MIN_VAULT_SIZE: usize = 44;

/// The key that a password and a salt give.
pub uninterp spec fn password_key(password: Seq<u8>, salt: Seq<u8>) -> Option<Seq<u8>>;

/// Bytes sealed under a key and a nonce.
pub uninterp spec fn sealed(key: Seq<u8>, nonce: Seq<u8>, content: Seq<u8>) -> Option<Seq<u8>>;

/// The bytes that were sealed under a key and a nonce.
pub uninterp spec fn unsealed(key: Seq<u8>, nonce: Seq<u8>, data: Seq<u8>) -> Option<Seq<u8>>;

/// `argon2::Argon2::hash_password_into` with Argon2id, version 19 and the
/// default parameters, for a key of 32 bytes: whether and which key comes out
/// depends on the password and the salt alone.
#[verifier::external_body]
pub(crate) fn stretch_password(password: &[u8], salt: &[u8]) -> (r: Option<[u8; 32]>)
    ensures
        secp::opt_array(r) == password_key(password@, salt@),
{
    let mut key = [0u8; 32];
    let argon = Argon2::new(Algorithm::Argon2id, Version::V0x13, Params::default());
    match argon.hash_password_into(password, salt, &mut key) {
        Ok(()) => Some(key),
        Err(_) => None,
    }
}

/// `chacha20poly1305::ChaCha20Poly1305::encrypt`: what comes out depends on the
/// key, the nonce and the bytes alone, and `decrypt` under the same key and
/// nonce gives the bytes back.
#[verifier::external_body]
pub(crate) fn seal(key: &[u8; 32], nonce: &[u8; 12], content: &[u8]) -> (r: Option<Vec<u8>>)
    ensures
        tx::opt_view(r) == sealed(key@, nonce@, content@),
        r is Some ==> unsealed(key@, nonce@, r->0@) == Some(content@),
{
    ChaCha20Poly1305::new(key.into()).encrypt(Nonce::from_slice(nonce), content).ok()
}

/// `chacha20poly1305::ChaCha20Poly1305::decrypt`: whether and which bytes come
/// out depends on the key, the nonce and the sealed bytes alone.
#[verifier::external_body]
pub(crate) fn unseal(key: &[u8; 32], nonce: &[u8; 12], data: &[u8]) -> (r: Option<Vec<u8>>)
    ensures
        tx::opt_view(r) == unsealed(key@, nonce@, data@),
{
    ChaCha20Poly1305::new(key.into()).decrypt(Nonce::from_slice(nonce), data).ok()
}

/// The file that keeps a seed under a password: the salt, the nonce, and the
/// sealed seed.
pub open spec fn vault_of(
    password: Seq<char>,
    seed: Seq<u8>,
    salt: Seq<u8>,
    nonce: Seq<u8>,
) -> Result<Seq<u8>, Fault> {
    match password_key(vstd::utf8::encode_utf8(password), salt) {
        None => Err(Fault::Other("Password hashing failed"@)),
        Some(key) => match sealed(key, nonce, seed) {
            None => Err(Fault::Other("Encryption failed"@)),
            Some(data) => Ok(salt + nonce + data),
        },
    }
}

/// The seed that a file keeps under a password.
pub open spec fn vault_seed(password: Seq<char>, data: Seq<u8>) -> Result<Seq<u8>, Fault> {
    if data.len() < MIN_VAULT_SIZE {
        Err(Fault::Other("Corrupted wallet file"@))
    } else {
        match password_key(vstd::utf8::encode_utf8(password), data.take(32)) {
            None => Err(Fault::Other("Password hashing failed"@)),
            Some(key) => match unsealed(key, data.subrange(32, 44), data.skip(44)) {
                None => Err(Fault::Other("Decryption failed"@)),
                Some(seed) => if seed.len() == 64 {
                    Ok(seed)
                } else {
                    Err(Fault::Other("Invalid seed length"@))
                },
            },
        }
    }
}

/// Keeps a seed under a password, with a salt and a nonce that nobody else
/// has. The password opens the file again.
pub fn encrypt_wallet(password: &str, seed: &[u8; 64], salt: &[u8; 32], nonce: &[u8; 12]) -> (r:
    Result<Vec<u8>, ChainError>)
    ensures
        (match r {
            Ok(v) => Ok::<Seq<u8>, Fault>(v@),
            Err(e) => Err(e@),
        }) == vault_of(password@, seed@, salt@, nonce@),
        r is Ok ==> vault_seed(password@, r->Ok_0@) == Ok::<Seq<u8>, Fault>(seed@),
{
    match stretch_password(password.as_bytes(), salt.as_slice()) {
        None => Err(other("Password hashing failed")),
        Some(key) => match seal(&key, nonce, seed.as_slice()) {
            None => Err(other("Encryption failed")),
            Some(data) => {
                let mut out = copy_bytes(salt.as_slice());
                append_bytes(&mut out, nonce.as_slice());
                append_bytes(&mut out, data.as_slice());
                proof {
                    assert(out@.take(32) =~= salt@);
                    assert(out@.subrange(32, 44) =~= nonce@);
                    assert(out@.skip(44) =~= data@);
                }
                Ok(out)
            },
        },
    }
}

/// Twelve bytes of a slice.
fn read12(s: &[u8], at: usize) -> (r: [u8; 12])
    requires
        at + 12 <= s@.len(),
    ensures
        r@ == s@.subrange(at as int, at + 12),
{
    let n = s.len();
    assert(at + 12 <= n);
    let mut r: [u8; 12] = [0; 12];
    let mut i: usize = 0;
    while i < 12
        invariant
            i <= 12,
            at + 12 <= s@.len(),
            at + 12 <= usize::MAX,
            forall|j: int| 0 <= j < i ==> #[trigger] r@[j] == s@[at + j],
        decreases 12 - i,
    {
        r[i] = s[at + i];
        i += 1;
    }
    assert(r@ =~= s@.subrange(at as int, at + 12));
    r
}

/// The bytes of a seed.
fn read_seed(s: &[u8]) -> (r: [u8; 64])
    requires
        s@.len() == 64,
    ensures
        r@ == s@,
{
    let mut r: [u8; 64] = [0; 64];
    let mut i: usize = 0;
    while i < 64
        invariant
            i <= 64,
            s@.len() == 64,
            forall|j: int| 0 <= j < i ==> #[trigger] r@[j] == s@[j],
        decreases 64 - i,
    {
        r[i] = s[i];
        i += 1;
    }
    assert(r@ =~= s@);
    r
}

/// The seed that a file keeps under a password.
pub fn decrypt_wallet(password: &str, data: &[u8]) -> (r: Result<[u8; 64], ChainError>)
    ensures
        (match r {
            Ok(s) => Ok::<Seq<u8>, Fault>(s@),
            Err(e) => Err(e@),
        }) == vault_seed(password@, data@),
{
    if data.len() < MIN_VAULT_SIZE {
        return Err(other("Corrupted wallet file"));
    }
    let salt = read32(data, 0);
    assert(salt@ =~= data@.take(32));
    let nonce = read12(data, 32);
    let body = vstd::slice::slice_subrange(data, 44, data.len());
    assert(body@ =~= data@.skip(44));
    match stretch_password(password.as_bytes(), salt.as_slice()) {
        None => Err(other("Password hashing failed")),
        Some(key) => match unseal(&key, &nonce, body) {
            None => Err(other("Decryption failed")),
            Some(seed) => {
                if seed.len() != 64 {
                    return Err(other("Invalid seed length"));
                }
                Ok(read_seed(seed.as_slice()))
            },
        },
    }
}

} // verus!
