//! The key of a node: how it is kept in a file, and signing with it, by the
//! `ed25519-dalek` crate.
use crate::bytes;
use crate::bytes::read32;
use crate::errors::{ChainError, Fault};
use ed25519_dalek::{Keypair, Signature, Signer, Verifier};
use vstd::prelude::*;

verus! {

/// The largest size of a secret file.
pub const MAX_SECRET_SIZE: i64 = 4096;

/// The permissions of a secret file that others than its owner must not have.
pub const SHARED_PERMISSIONS: u32 = 0o077;

/// What is wrong with a secret file, given its owner, the user, its mode and
/// its size.
pub open spec fn secret_file_verdict(owner: u32, user: u32, mode: u32, size: i64) -> Result<
    (),
    Fault,
> {
    if owner != user {
        Err(Fault::FilePermissionError("Wrong owner"@))
    } else if mode & SHARED_PERMISSIONS != 0 {
        Err(Fault::FilePermissionError("Permissions too broad"@))
    } else if size > MAX_SECRET_SIZE {
        Err(Fault::FilePermissionError("Key file too large"@))
    } else {
        Ok(())
    }
}

/// Whether a secret file may be read: it is the user's own, nobody else may
/// use it, and it is not too large.
pub fn check_secret_file(owner: u32, user: u32, mode: u32, size: i64) -> (r: Result<
    (),
    ChainError,
>)
    ensures
        crate::errors::verdict(r) == secret_file_verdict(owner, user, mode, size),
{
    if owner != user {
        return Err(ChainError::FilePermissionError("Wrong owner".to_string()));
    }
    if mode & SHARED_PERMISSIONS != 0 {
        return Err(ChainError::FilePermissionError("Permissions too broad".to_string()));
    }
    if size > MAX_SECRET_SIZE {
        return Err(ChainError::FilePermissionError("Key file too large".to_string()));
    }
    Ok(())
}

/// The public key of a secret key.
pub uninterp spec fn node_public_of(secret: Seq<u8>) -> Seq<u8>;

/// The signature of a message under a secret key.
pub uninterp spec fn node_signature_of(secret: Seq<u8>, msg: Seq<u8>) -> Seq<u8>;

/// Whether bytes are a public key.
pub uninterp spec fn is_node_key(public: Seq<u8>) -> bool;

/// Whether a signature signs a message under a public key.
pub uninterp spec fn node_signature_holds(public: Seq<u8>, msg: Seq<u8>, signature: Seq<u8>) -> bool;

/// `ed25519_dalek::PublicKey::from` of a secret key: the key depends on the
/// secret alone, and `ed25519_dalek::PublicKey::from_bytes` takes its bytes.
/// Every 32 bytes are a secret key.
#[verifier::external_body]
pub(crate) fn node_public(secret: &[u8; 32]) -> (r: [u8; 32])
    ensures
        r@ == node_public_of(secret@),
        is_node_key(r@),
{
    let key = ed25519_dalek::SecretKey::from_bytes(secret).expect("a secret key of 32 bytes");
    ed25519_dalek::PublicKey::from(&key).to_bytes()
}

/// `ed25519_dalek::Keypair::sign`: the signature depends on the secret and the
/// message alone, its last byte is below 32, and
/// `ed25519_dalek::PublicKey::verify` takes it under the secret's public key.
#[verifier::external_body]
pub(crate) fn node_sign(secret: &[u8; 32], msg: &[u8]) -> (r: [u8; 64])
    ensures
        r@ == node_signature_of(secret@, msg@),
        r@[63] < 32,
        node_signature_holds(node_public_of(secret@), msg@, r@),
{
    let secret = ed25519_dalek::SecretKey::from_bytes(secret).expect("a secret key of 32 bytes");
    let public = ed25519_dalek::PublicKey::from(&secret);
    Keypair { secret, public }.sign(msg).to_bytes()
}

/// `ed25519_dalek::PublicKey::from_bytes`: whether 32 bytes are a public key
/// depends on the bytes alone.
#[verifier::external_body]
pub(crate) fn check_node_key(public: &[u8; 32]) -> (r: bool)
    ensures
        r == is_node_key(public@),
{
    ed25519_dalek::PublicKey::from_bytes(public).is_ok()
}

/// `ed25519_dalek::Signature::from_bytes` takes 64 bytes whose last one is
/// below 32.
#[verifier::external_body]
pub(crate) fn check_node_signature(signature: &[u8; 64]) -> (r: bool)
    ensures
        r == (signature@[63] < 32),
{
    Signature::from_bytes(signature).is_ok()
}

/// `ed25519_dalek::PublicKey::verify` on the key and the signature that the
/// bytes stand for: the answer depends on the bytes and the message alone, and
/// is no where the bytes stand for no key or signature.
#[verifier::external_body]
pub(crate) fn verify_node_signature(public: &[u8; 32], msg: &[u8], signature: &[u8; 64]) -> (r:
    bool)
    ensures
        r == node_signature_holds(public@, msg@, signature@),
{
    match (ed25519_dalek::PublicKey::from_bytes(public), Signature::from_bytes(signature)) {
        (Ok(k), Ok(s)) => k.verify(msg, &s).is_ok(),
        _ => false,
    }
}

/// The keys of a node.
pub struct NodeKeypair {
    secret: [u8; 32],
    public: [u8; 32],
}

impl NodeKeypair {
    /// Whether the public key is that of the secret one.
    pub closed spec fn wf(&self) -> bool {
        &&& self.public@ == node_public_of(self.secret@)
        &&& is_node_key(self.public@)
    }

    /// The secret key.
    pub closed spec fn secret(&self) -> Seq<u8> {
        self.secret@
    }

    /// The public key is that of the secret one, and is one.
    pub proof fn lemma_wf(&self)
        requires
            self.wf(),
        ensures
            is_node_key(node_public_of(self.secret())),
    {
    }

    /// The keys that go with a secret key.
    pub fn from_secret(secret: [u8; 32]) -> (r: Self)
        ensures
            r.wf(),
            r.secret() == secret@,
    {
        let public = node_public(&secret);
        NodeKeypair { secret, public }
    }

    /// The public key.
    pub fn public(&self) -> (r: [u8; 32])
        requires
            self.wf(),
        ensures
            r@ == node_public_of(self.secret()),
    {
        self.public
    }

    /// The signature of a message.
    pub fn sign(&self, msg: &[u8]) -> (r: [u8; 64])
        ensures
            r@ == node_signature_of(self.secret(), msg@),
            r@[63] < 32,
            node_signature_holds(node_public_of(self.secret()), msg@, r@),
    {
        node_sign(&self.secret, msg)
    }
}

/// The keys that go with the bytes of a secret file: there must be 32 of them.
pub fn load_keypair(data: &[u8]) -> (r: Result<NodeKeypair, ChainError>)
    ensures
        match r {
            Ok(k) => data@.len() == 32 && k.wf() && k.secret() == data@,
            Err(e) => data@.len() != 32 && e@ == Fault::InvalidEncryptionKey,
        },
{
    if data.len() != 32 {
        return Err(ChainError::InvalidEncryptionKey);
    }
    let secret = read32(data, 0);
    assert(secret@ =~= data@);
    Ok(NodeKeypair::from_secret(secret))
}

} // verus!
