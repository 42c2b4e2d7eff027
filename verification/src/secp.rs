//! Public keys and signatures on the curve secp256k1, from the `secp256k1`
//! crate.
use crate::text;
use secp256k1::ecdsa::Signature;
use secp256k1::{Message, Secp256k1, SecretKey};
use vstd::prelude::*;

verus! {

/// The compressed form of the public key that bytes encode.
pub uninterp spec fn pubkey_of(data: Seq<u8>) -> Option<Seq<u8>>;

/// The compressed public key that a text writes in hexadecimal, in its form of
/// 33 bytes or of 65; `None` where it writes none.
pub open spec fn pubkey_of_text(text: Seq<char>) -> Option<Seq<u8>> {
    match text::hex_bytes(text) {
        Some(b) => if b.len() == 33 || b.len() == 65 {
            pubkey_of(b)
        } else {
            None
        },
        None => None,
    }
}

/// The 64 bytes of the signature that bytes encode in DER.
pub uninterp spec fn der_signature(data: Seq<u8>) -> Option<Seq<u8>>;

/// Whether a signature of 64 bytes signs a message of 32 bytes under a
/// compressed public key.
pub uninterp spec fn signature_holds(msg: Seq<u8>, signature: Seq<u8>, pubkey: Seq<u8>) -> bool;

/// The compressed public key of a secret key; `None` where the bytes are no
/// secret key.
pub uninterp spec fn public_of(secret: Seq<u8>) -> Option<Seq<u8>>;

/// The signature of a message under a secret key, in DER; `None` where the
/// bytes are no secret key.
pub uninterp spec fn signature_of(msg: Seq<u8>, secret: Seq<u8>) -> Option<Seq<u8>>;

/// Whether a signature in DER signs a message under the public key of a secret
/// key.
pub open spec fn signs(msg: Seq<u8>, der: Seq<u8>, secret: Seq<u8>) -> bool {
    &&& der_signature(der) is Some
    &&& public_of(secret) is Some
    &&& signature_holds(msg, der_signature(der)->0, public_of(secret)->0)
}

/// What an optional array holds.
pub open spec fn opt_array<const N: usize>(o: Option<[u8; N]>) -> Option<Seq<u8>> {
    match o {
        Some(a) => Some(a@),
        None => None,
    }
}

/// `secp256k1::PublicKey::from_slice`, with the key it gives in compressed
/// form: whether and which key the bytes encode depends on the bytes alone.
#[verifier::external_body]
pub(crate) fn parse_pubkey(data: &[u8]) -> (r: Option<[u8; 33]>)
    ensures
        opt_array(r) == pubkey_of(data@),
{
    match secp256k1::PublicKey::from_slice(data) {
        Ok(key) => Some(key.serialize()),
        Err(_) => None,
    }
}

/// `str::parse` to a `secp256k1::PublicKey`, with the key it gives in
/// compressed form: the key of the 33 or 65 bytes that the text writes in
/// hexadecimal, digits of either case.
#[verifier::external_body]
pub(crate) fn parse_pubkey_text(text: &str) -> (r: Option<[u8; 33]>)
    ensures
        opt_array(r) == pubkey_of_text(text@),
{
    match text.parse::<secp256k1::PublicKey>() {
        Ok(key) => Some(key.serialize()),
        Err(_) => None,
    }
}

/// `secp256k1::ecdsa::Signature::from_der`, with the signature it gives in its
/// form of 64 bytes: whether and which signature the bytes encode depends on
/// the bytes alone.
#[verifier::external_body]
pub(crate) fn parse_der(data: &[u8]) -> (r: Option<[u8; 64]>)
    ensures
        opt_array(r) == der_signature(data@),
{
    match Signature::from_der(data) {
        Ok(signature) => Some(signature.serialize_compact()),
        Err(_) => None,
    }
}

/// `secp256k1::Secp256k1::verify_ecdsa` on the message, the signature and the
/// key that the bytes stand for: the answer depends on the bytes alone, and is
/// no where they stand for no signature or key.
#[verifier::external_body]
pub(crate) fn verify_ecdsa(msg: &[u8; 32], signature: &[u8; 64], pubkey: &[u8; 33]) -> (r: bool)
    ensures
        r == signature_holds(msg@, signature@, pubkey@),
{
    let message = Message::from_slice(msg);
    let signature = Signature::from_compact(signature);
    let key = secp256k1::PublicKey::from_slice(pubkey);
    match (message, signature, key) {
        (Ok(m), Ok(s), Ok(k)) => Secp256k1::verification_only().verify_ecdsa(&m, &s, &k).is_ok(),
        _ => false,
    }
}

/// `secp256k1::PublicKey::from_secret_key`, with the key it gives in
/// compressed form; `None` where `secp256k1::SecretKey::from_slice` refuses
/// the bytes.
#[verifier::external_body]
pub(crate) fn derive_public(secret: &[u8; 32]) -> (r: Option<[u8; 33]>)
    ensures
        opt_array(r) == public_of(secret@),
{
    match SecretKey::from_slice(secret) {
        Ok(key) => Some(key.public_key(&Secp256k1::signing_only()).serialize()),
        Err(_) => None,
    }
}

/// `secp256k1::Secp256k1::sign_ecdsa`, with the signature it gives in DER: the
/// nonce comes from the message and the key, so the signature depends on these
/// alone. `None` where `secp256k1::SecretKey::from_slice` refuses the bytes.
/// A signature is read back from its DER form, and
/// `secp256k1::Secp256k1::verify_ecdsa` takes it under the secret key's public
/// key.
#[verifier::external_body]
pub(crate) fn sign_ecdsa(msg: &[u8; 32], secret: &[u8; 32]) -> (r: Option<Vec<u8>>)
    ensures
        crate::tx::opt_view(r) == signature_of(msg@, secret@),
        r is Some ==> signs(msg@, r->0@, secret@),
{
    match (Message::from_slice(msg), SecretKey::from_slice(secret)) {
        (Ok(m), Ok(k)) => {
            Some(Secp256k1::signing_only().sign_ecdsa(&m, &k).serialize_der().to_vec())
        },
        _ => None,
    }
}

/// A public key, in compressed form.
#[derive(Debug, Clone, Copy, PartialEq, Eq)]
pub struct PublicKey {
    bytes: [u8; 33],
}

impl View for PublicKey {
    type V = Seq<u8>;

    closed spec fn view(&self) -> Seq<u8> {
        self.bytes@
    }
}

impl PublicKey {
    /// The public key that bytes encode, in compressed or in full form.
    pub fn from_slice(data: &[u8]) -> (r: Option<Self>)
        ensures
            match r {
                Some(k) => pubkey_of(data@) == Some(k@),
                None => pubkey_of(data@) is None,
            },
    {
        match parse_pubkey(data) {
            Some(bytes) => Some(PublicKey { bytes }),
            None => None,
        }
    }

    /// The public key that a text writes in hexadecimal.
    pub fn from_text(text: &str) -> (r: Option<Self>)
        ensures
            match r {
                Some(k) => pubkey_of_text(text@) == Some(k@),
                None => pubkey_of_text(text@) is None,
            },
    {
        match parse_pubkey_text(text) {
            Some(bytes) => Some(PublicKey { bytes }),
            None => None,
        }
    }

    /// The public key of a secret key.
    pub fn from_secret(secret: &[u8; 32]) -> (r: Option<Self>)
        ensures
            match r {
                Some(k) => public_of(secret@) == Some(k@),
                None => public_of(secret@) is None,
            },
    {
        match derive_public(secret) {
            Some(bytes) => Some(PublicKey { bytes }),
            None => None,
        }
    }

    /// The compressed form.
    pub fn serialize(&self) -> (r: [u8; 33])
        ensures
            r@ == self@,
    {
        self.bytes
    }
}

} // verus!
