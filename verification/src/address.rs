//! Addresses: versions and keys written in Base58Check by the `base58check`
//! crate.
use crate::bytes;
use crate::bytes::read20;
use crate::errors::{other, ChainError, Fault};
use crate::hash;
use crate::hash::hash160;
use crate::secp::PublicKey;
use base58check::{FromBase58Check, ToBase58Check};
use vstd::prelude::*;
use vstd::string::StrSliceExecFns;

verus! {

/// The version of an address that names the hash of a public key.
pub const PUBKEY_HASH_VERSION: u8 = 0;

/// The version of an address that names an anonymous key.
pub const ANON_VERSION: u8 = 1;

/// The longest text that is read as an address.
pub const MAX_ADDRESS_LEN: usize = 132;

/// A version and a payload, written in Base58Check.
pub uninterp spec fn address_text(version: u8, payload: Seq<u8>) -> Seq<char>;

/// The version and the payload that a text writes in Base58Check.
pub uninterp spec fn address_parts(text: Seq<char>) -> Option<(u8, Seq<u8>)>;

/// What an optional version with its payload says.
pub open spec fn parts_view(o: Option<(u8, Vec<u8>)>) -> Option<(u8, Seq<u8>)> {
    match o {
        Some((v, p)) => Some((v, p@)),
        None => None,
    }
}

/// `base58check::ToBase58Check::to_base58check`, for payloads of a length that
/// the crate is made for: the text depends on the version and the payload
/// alone, has at most 138 characters for each hundred bytes and one more, and
/// is read back as the same version and payload.
#[verifier::external_body]
pub(crate) fn write_address(version: u8, payload: &[u8]) -> (r: String)
    requires
        payload@.len() <= 90,
    ensures
        r@ == address_text(version, payload@),
        r@.len() <= (payload@.len() + 5) * 138 / 100 + 1,
        address_parts(r@) == Some((version, payload@)),
{
    payload.to_base58check(version)
}

/// `base58check::FromBase58Check::from_base58check`, for texts that are short
/// enough for what they write to fit into the crate's buffer: whether and which
/// version and payload the text writes depends on the text alone.
#[verifier::external_body]
pub(crate) fn read_address(text: &str) -> (r: Option<(u8, Vec<u8>)>)
    requires
        text@.len() <= 132,
    ensures
        parts_view(r) == address_parts(text@),
{
    text.from_base58check().ok()
}

/// The address of a public key's hash.
pub fn pubkey_hash_to_address(pubkey_hash: &[u8; 20]) -> (r: String)
    ensures
        r@ == address_text(PUBKEY_HASH_VERSION, pubkey_hash@),
        address_hash(r@) == Ok::<Seq<u8>, Fault>(pubkey_hash@),
{
    write_address(PUBKEY_HASH_VERSION, pubkey_hash.as_slice())
}

/// The address of a public key: that of its hash.
pub fn pubkey_to_address(pubkey: &PublicKey) -> (r: String)
    ensures
        r@ == address_text(PUBKEY_HASH_VERSION, hash::hash160_of(pubkey@)),
        address_hash(r@) == Ok::<Seq<u8>, Fault>(hash::hash160_of(pubkey@)),
{
    let key = pubkey.serialize();
    let h = hash160(key.as_slice());
    pubkey_hash_to_address(&h)
}

/// The hash that an address names. The version is not looked at.
pub open spec fn address_hash(text: Seq<char>) -> Result<Seq<u8>, Fault> {
    if text.len() > MAX_ADDRESS_LEN {
        Err(Fault::Other("Invalid payload length"@))
    } else {
        match address_parts(text) {
            None => Err(Fault::Other("Invalid address"@)),
            Some((_, p)) => if p.len() == 20 {
                Ok(p)
            } else {
                Err(Fault::Other("Invalid payload length"@))
            },
        }
    }
}

/// What a result with a hash says.
pub open spec fn hash_verdict(r: Result<[u8; 20], ChainError>) -> Result<Seq<u8>, Fault> {
    match r {
        Ok(h) => Ok(h@),
        Err(e) => Err(e@),
    }
}

/// The hash that an address names.
pub fn address_to_pubkey_hash(address: &str) -> (r: Result<[u8; 20], ChainError>)
    ensures
        hash_verdict(r) == address_hash(address@),
{
    if address.unicode_len() > MAX_ADDRESS_LEN {
        return Err(other("Invalid payload length"));
    }
    match read_address(address) {
        None => Err(other("Invalid address")),
        Some((_, payload)) => {
            if payload.len() == 20 {
                let h = read20(payload.as_slice(), 0);
                assert(h@ =~= payload@);
                Ok(h)
            } else {
                Err(other("Invalid payload length"))
            }
        },
    }
}

/// The address of an anonymous public key.
pub fn pubkey_to_anon_address(pubkey: &[u8; 32]) -> (r: String)
    ensures
        r@ == address_text(ANON_VERSION, pubkey@),
        anon_key(r@) == Ok::<Seq<u8>, Fault>(pubkey@),
{
    write_address(ANON_VERSION, pubkey.as_slice())
}

/// The bytes of the anonymous key that an address names.
pub open spec fn anon_key(text: Seq<char>) -> Result<Seq<u8>, Fault> {
    if text.len() > MAX_ADDRESS_LEN {
        Err(Fault::Other("Not a valid anonymous address"@))
    } else {
        match address_parts(text) {
            None => Err(Fault::Other("Invalid address"@)),
            Some((v, p)) => if v != ANON_VERSION || p.len() != 32 {
                Err(Fault::Other("Not a valid anonymous address"@))
            } else {
                Ok(p)
            },
        }
    }
}

/// The bytes of the anonymous key that an address names. Whether they are a
/// key is for the reader of the key to say.
pub fn address_to_anon_pubkey(addr: &str) -> (r: Result<[u8; 32], ChainError>)
    ensures
        (match r {
            Ok(k) => Ok::<Seq<u8>, Fault>(k@),
            Err(e) => Err(e@),
        }) == anon_key(addr@),
{
    if addr.unicode_len() > MAX_ADDRESS_LEN {
        return Err(other("Not a valid anonymous address"));
    }
    match read_address(addr) {
        None => Err(other("Invalid address")),
        Some((version, payload)) => {
            if version != ANON_VERSION || payload.len() != 32 {
                Err(other("Not a valid anonymous address"))
            } else {
                let k = bytes::read32(payload.as_slice(), 0);
                assert(k@ =~= payload@);
                Ok(k)
            }
        },
    }
}

} // verus!
