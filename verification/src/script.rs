//! The scripts that lock outputs, and what unlocks them.
use crate::bytes::{append_bytes, copy_bytes, same_bytes, to_le};
use crate::errors;
use crate::errors::{other, ChainError, Fault};
use crate::hash;
use crate::hash::hash160;
use crate::secp;
use crate::secp::{parse_der, parse_pubkey, verify_ecdsa, PublicKey};
use crate::tx;
use crate::tx::{make_no_id, TXInput, TXOutput, Transaction};
use vstd::prelude::*;

verus! {

/// The script that pays to the hash of a public key.
pub open spec fn p2pkh_of(pubkey_hash: Seq<u8>) -> Seq<u8> {
    seq![0x76u8, 0xa9, 0x14] + pubkey_hash + seq![0x88u8, 0xac]
}

/// Whether a script pays to the hash of a public key.
pub open spec fn is_p2pkh(script: Seq<u8>) -> bool {
    &&& script.len() == 25
    &&& script[0] == 0x76
    &&& script[1] == 0xa9
    &&& script[2] == 0x14
    &&& script[23] == 0x88
    &&& script[24] == 0xac
}

/// Whether a script pays to a public key itself.
pub open spec fn is_p2pk(script: Seq<u8>) -> bool {
    &&& script.len() == 34
    &&& script[0] == 0x21
    &&& script[33] == 0xac
}

/// Whether a signature unlocks an output. The last byte of `sig` says what the
/// signature covers, the rest is the signature in DER.
pub open spec fn signature_verdict(
    t: tx::TxView,
    idx: int,
    script: Seq<u8>,
    sig: Seq<u8>,
    pubkey: Option<Seq<u8>>,
    bad_key: Seq<char>,
) -> Result<(), Fault> {
    let msg = tx::sighash_of(t, idx, script, sig.last() as u32);
    match secp::der_signature(sig.drop_last()) {
        None => Err(Fault::Other("Invalid DER signature"@)),
        Some(s) => match pubkey {
            None => Err(Fault::Other(bad_key)),
            Some(k) => if secp::signature_holds(msg, s, k) {
                Ok(())
            } else {
                Err(Fault::InvalidSignature)
            },
        },
    }
}

/// Where the signature of an unlocking script ends: the script begins with the
/// length of the signature.
pub open spec fn sig_end(s: Seq<u8>) -> int {
    1 + s[0] as int
}

/// Where the public key of an unlocking script ends: it follows the signature,
/// behind its own length.
pub open spec fn key_end(s: Seq<u8>) -> int {
    sig_end(s) + 1 + s[sig_end(s)] as int
}

/// Whether an unlocking script is long enough to be taken apart: it has the
/// length bytes of the signature and of the public key, if not what they
/// announce.
pub open spec fn has_lengths(s: Seq<u8>) -> bool {
    s.len() > 0 && sig_end(s) != s.len()
}

/// Whether what is unlocked by signature and public key goes as far as to
/// check the signature.
pub open spec fn reaches_signature(s: Seq<u8>, script: Seq<u8>) -> bool {
    &&& sig_end(s) <= s.len()
    &&& key_end(s) <= s.len()
    &&& hash::hash160_of(s.subrange(sig_end(s) + 1, key_end(s))) == script.subrange(3, 23)
    &&& s[0] != 0
}

/// Whether `s` unlocks a script that pays to the hash of a public key: it has
/// to hold the key and a signature under it.
pub open spec fn p2pkh_verdict(t: tx::TxView, idx: int, s: Seq<u8>, script: Seq<u8>) -> Result<
    (),
    Fault,
> {
    if reaches_signature(s, script) {
        signature_verdict(
            t,
            idx,
            script,
            s.subrange(1, sig_end(s)),
            secp::pubkey_of(s.subrange(sig_end(s) + 1, key_end(s))),
            "Invalid public key"@,
        )
    } else {
        Err(Fault::InvalidScript)
    }
}

/// Whether `s` unlocks a script that pays to a public key: it has to be a
/// signature under the key, whose bytes are the 32 that follow the script's
/// first.
pub open spec fn p2pk_verdict(t: tx::TxView, idx: int, s: Seq<u8>, script: Seq<u8>) -> Result<
    (),
    Fault,
> {
    match secp::pubkey_of(script.subrange(1, 33)) {
        None => Err(Fault::Other("Invalid P2PK pubkey"@)),
        Some(k) => if s.len() == 0 {
            Err(Fault::InvalidScript)
        } else {
            signature_verdict(t, idx, script, s, Some(k), "Invalid P2PK pubkey"@)
        },
    }
}

/// Whether an input of a transaction unlocks an output.
pub open spec fn script_verdict(
    t: tx::TxView,
    idx: int,
    input: tx::InputView,
    output: tx::OutputView,
) -> Result<(), Fault> {
    if is_p2pkh(output.script_pubkey) {
        p2pkh_verdict(t, idx, input.script_sig, output.script_pubkey)
    } else if is_p2pk(output.script_pubkey) {
        p2pk_verdict(t, idx, input.script_sig, output.script_pubkey)
    } else {
        Err(Fault::InvalidScript)
    }
}

/// Whether an input can be checked: its script is long enough to be taken
/// apart, and where a signature is checked the input is one of the
/// transaction's.
pub open spec fn script_checkable(
    t: tx::TxView,
    idx: int,
    input: tx::InputView,
    output: tx::OutputView,
) -> bool {
    let s = input.script_sig;
    let script = output.script_pubkey;
    &&& is_p2pkh(script) ==> has_lengths(s) && (reaches_signature(s, script) ==> idx
        < t.inputs.len())
    &&& is_p2pk(script) && secp::pubkey_of(script.subrange(1, 33)) is Some && s.len() > 0 ==> idx
        < t.inputs.len()
}

fn check_signature(
    tx: &Transaction,
    input_idx: usize,
    script: &[u8],
    sig: &[u8],
    pubkey: Option<[u8; 33]>,
    bad_key: &str,
) -> (r: Result<(), ChainError>)
    requires
        sig@.len() > 0,
        input_idx < tx.inputs@.len(),
    ensures
        errors::verdict(r) == signature_verdict(
            tx@,
            input_idx as int,
            script@,
            sig@,
            secp::opt_array(pubkey),
            bad_key@,
        ),
{
    let sighash_type: u32 = sig[sig.len() - 1] as u32;
    let der = &sig[0..sig.len() - 1];
    assert(der@ =~= sig@.drop_last());
    let msg = tx.sighash(input_idx, script, sighash_type);
    match parse_der(der) {
        None => Err(other("Invalid DER signature")),
        Some(s) => match pubkey {
            None => Err(other(bad_key)),
            Some(k) => if verify_ecdsa(&msg, &s, &k) {
                Ok(())
            } else {
                Err(ChainError::InvalidSignature)
            },
        },
    }
}

fn check_p2pkh(tx: &Transaction, input_idx: usize, s: &[u8], script: &[u8]) -> (r: Result<
    (),
    ChainError,
>)
    requires
        is_p2pkh(script@),
        has_lengths(s@),
        reaches_signature(s@, script@) ==> input_idx < tx.inputs@.len(),
    ensures
        errors::verdict(r) == p2pkh_verdict(tx@, input_idx as int, s@, script@),
{
    let len: usize = s.len();
    let sig_len: usize = s[0] as usize;
    if sig_len >= len {
        return Err(ChainError::InvalidScript);
    }
    let pubkey_len: usize = s[1 + sig_len] as usize;
    if pubkey_len > len - (2 + sig_len) {
        return Err(ChainError::InvalidScript);
    }
    let sig = &s[1..1 + sig_len];
    let pubkey = &s[2 + sig_len..2 + sig_len + pubkey_len];
    let pubkey_hash = hash160(pubkey);
    if !same_bytes(pubkey_hash.as_slice(), &script[3..23]) {
        return Err(ChainError::InvalidScript);
    }
    if sig.len() == 0 {
        return Err(ChainError::InvalidScript);
    }
    check_signature(tx, input_idx, script, sig, parse_pubkey(pubkey), "Invalid public key")
}

/// Whether an input of a transaction unlocks an output.
pub fn validate_script(
    input: &TXInput,
    output: &TXOutput,
    tx: &Transaction,
    input_idx: usize,
) -> (r: Result<(), ChainError>)
    requires
        script_checkable(tx@, input_idx as int, input@, output@),
    ensures
        errors::verdict(r) == script_verdict(tx@, input_idx as int, input@, output@),
{
    let script = output.script_pubkey.as_slice();
    let s = input.script_sig.as_slice();
    if script.len() == 25 {
        if script[0] != 0x76 || script[1] != 0xa9 || script[2] != 0x14 || script[23] != 0x88
            || script[24] != 0xac {
            return Err(ChainError::InvalidScript);
        }
        check_p2pkh(tx, input_idx, s, script)
    } else if script.len() == 34 && script[0] == 0x21 && script[33] == 0xac {
        match parse_pubkey(&script[1..33]) {
            None => Err(other("Invalid P2PK pubkey")),
            Some(k) => {
                if s.len() == 0 {
                    return Err(ChainError::InvalidScript);
                }
                check_signature(tx, input_idx, script, s, Some(k), "Invalid P2PK pubkey")
            },
        }
    } else {
        Err(ChainError::InvalidScript)
    }
}

/// Whether an input unlocks the output that it spends, and whether that was
/// found out in time.
pub fn validate_script_with_timeout(
    input: &TXInput,
    output: &TXOutput,
    tx: &Transaction,
    input_idx: usize,
    in_time: bool,
) -> (r: Result<(), ChainError>)
    requires
        script_checkable(tx@, input_idx as int, input@, output@),
    ensures
        errors::verdict(r) == if in_time {
            script_verdict(tx@, input_idx as int, input@, output@)
        } else {
            Err(Fault::ValidationTimeout)
        },
{
    if !in_time {
        return Err(ChainError::ValidationTimeout);
    }
    validate_script(input, output, tx, input_idx)
}

/// The script that pays to the hash of a public key.
pub fn p2pkh_script_from_pkh(pubkey_hash: &[u8; 20]) -> (r: Vec<u8>)
    ensures
        r@ == p2pkh_of(pubkey_hash@),
{
    let mut script: Vec<u8> = vec![0x76, 0xa9, 0x14];
    append_bytes(&mut script, pubkey_hash.as_slice());
    append_bytes(&mut script, &[0x88, 0xac]);
    assert(script@ =~= p2pkh_of(pubkey_hash@));
    script
}

/// The script that pays to a public key's hash.
pub fn p2pkh_script(pubkey: &PublicKey) -> (r: Vec<u8>)
    ensures
        r@ == p2pkh_of(hash::hash160_of(pubkey@)),
{
    p2pkh_script_from_pkh(&hash160(pubkey.serialize().as_slice()))
}

/// The script that pays to a hash of 20 bytes is recognized, and holds the
/// hash.
pub proof fn law_p2pkh_recognized(pubkey_hash: Seq<u8>)
    requires
        pubkey_hash.len() == 20,
    ensures
        is_p2pkh(p2pkh_of(pubkey_hash)),
        p2pkh_of(pubkey_hash).subrange(3, 23) == pubkey_hash,
{
    assert(p2pkh_of(pubkey_hash).subrange(3, 23) =~= pubkey_hash);
}

/// A key and a signature unlock the script that pays to the key's hash, and
/// nothing but a signature that holds does: with the two pushed one after the
/// other, each behind its length, the verdict is that on the signature.
pub proof fn law_p2pkh_spends(
    t: tx::TxView,
    idx: int,
    sig: Seq<u8>,
    pubkey: Seq<u8>,
    input: tx::InputView,
    output: tx::OutputView,
)
    requires
        0 < sig.len() <= 255,
        pubkey.len() <= 255,
        hash::hash160_of(pubkey).len() == 20,
        input.script_sig == seq![sig.len() as u8] + sig + seq![pubkey.len() as u8] + pubkey,
        output.script_pubkey == p2pkh_of(hash::hash160_of(pubkey)),
    ensures
        has_lengths(input.script_sig),
        script_verdict(t, idx, input, output) == signature_verdict(
            t,
            idx,
            output.script_pubkey,
            sig,
            secp::pubkey_of(pubkey),
            "Invalid public key"@,
        ),
{
    let s = input.script_sig;
    law_p2pkh_recognized(hash::hash160_of(pubkey));
    assert(s[0] == sig.len() as u8);
    let n = sig.len() as int;
    assert(s[1 + n] == pubkey.len() as u8);
    assert(s.subrange(1, 1 + n) =~= sig);
    assert(s.subrange(2 + n, 2 + n + pubkey.len()) =~= pubkey);
}

/// What an output that is locked in no known way is answered: no input unlocks
/// it.
pub proof fn law_unknown_script_refused(
    t: tx::TxView,
    idx: int,
    input: tx::InputView,
    output: tx::OutputView,
)
    requires
        output.script_pubkey.len() != 25,
        output.script_pubkey.len() != 34,
    ensures
        script_verdict(t, idx, input, output) == Err::<(), Fault>(Fault::InvalidScript),
{
}

/// The transaction that makes the money of a block.
pub open spec fn coinbase_of(height: usize, extra: Seq<u8>, script: Seq<u8>) -> tx::TxView {
    tx::TxView {
        version: 1,
        is_anonymous: false,
        inputs: seq![
            tx::InputView {
                txid: tx::no_id(),
                vout: u32::MAX,
                script_sig: crate::bytes::le_bytes(height as nat, 8) + extra,
                sequence: u32::MAX,
            },
        ],
        outputs: seq![tx::OutputView { value: 0, script_pubkey: script, commitment: None }],
        lock_time: 0,
        range_proofs: Seq::empty(),
    }
}

/// The transaction that makes the money of the block at `height`, with the
/// amount still to be filled in: it names the height, then `extra`, and pays to
/// the public key's hash.
pub fn create_coinbase(height: usize, extra: &[u8], pubkey: &PublicKey) -> (r: Transaction)
    ensures
        r@ == coinbase_of(height, extra@, p2pkh_of(hash::hash160_of(pubkey@))),
{
    let mut script_sig = to_le(height as u128, 8);
    append_bytes(&mut script_sig, extra);
    make_coinbase(script_sig, 0, p2pkh_script(pubkey))
}

/// A transaction that makes money.
pub(crate) fn make_coinbase(script_sig: Vec<u8>, value: u64, script_pubkey: Vec<u8>) -> (r:
    Transaction)
    ensures
        r@ == (tx::TxView {
            version: 1,
            is_anonymous: false,
            inputs: seq![
                tx::InputView {
                    txid: tx::no_id(),
                    vout: u32::MAX,
                    script_sig: script_sig@,
                    sequence: u32::MAX,
                },
            ],
            outputs: seq![
                tx::OutputView { value, script_pubkey: script_pubkey@, commitment: None },
            ],
            lock_time: 0,
            range_proofs: Seq::empty(),
        }),
{
    let mut inputs: Vec<TXInput> = Vec::new();
    inputs.push(TXInput { txid: make_no_id(), vout: u32::MAX, script_sig, sequence: u32::MAX });
    let mut outputs: Vec<TXOutput> = Vec::new();
    outputs.push(TXOutput { value, script_pubkey, commitment: None });
    let r = Transaction {
        version: 1,
        is_anonymous: false,
        inputs,
        outputs,
        lock_time: 0,
        range_proofs: Vec::new(),
    };
    assert(r@.inputs =~= seq![
        tx::InputView {
            txid: tx::no_id(),
            vout: u32::MAX,
            script_sig: script_sig@,
            sequence: u32::MAX,
        },
    ]);
    assert(r@.outputs =~= seq![
        tx::OutputView { value, script_pubkey: script_pubkey@, commitment: None },
    ]);
    assert(r@.range_proofs =~= Seq::<Seq<u8>>::empty());
    r
}

/// A coinbase is one, whatever it names and pays.
pub proof fn law_coinbase_is_coinbase(height: usize, extra: Seq<u8>, script: Seq<u8>)
    ensures
        tx::coinbase(coinbase_of(height, extra, script)),
{
    tx::lemma_no_id();
}

/// An output that pays to the hash of a public key is unlocked by a signature
/// and that key alone: where the verdict is that it is unlocked, the script of
/// the input begins with the length of the signature, the signature, the length
/// of the key and the key; the key has the hash that the output names; and the
/// signature, without its last byte, the type, holds under the key for what it
/// covers.
pub proof fn law_unlocked_by_owner(
    t: tx::TxView,
    idx: int,
    input: tx::InputView,
    output: tx::OutputView,
) -> (r: (Seq<u8>, Seq<u8>))
    requires
        output.script_pubkey.len() == 25,
        input.script_sig.len() > 0,
        script_verdict(t, idx, input, output) is Ok,
    ensures
        ({
            let script = output.script_pubkey;
            let (sig, key) = r;
            let der = secp::der_signature(sig.drop_last());
            &&& script == seq![0x76u8, 0xa9, 0x14] + script.subrange(3, 23) + seq![0x88u8, 0xac]
            &&& 0 < sig.len() <= 255 && key.len() <= 255
            &&& (seq![sig.len() as u8] + sig + seq![key.len() as u8] + key).is_prefix_of(
                input.script_sig,
            )
            &&& hash::hash160_of(key) == script.subrange(3, 23)
            &&& secp::pubkey_of(key) is Some
            &&& der is Some
            &&& secp::signature_holds(
                tx::sighash_of(t, idx, script, sig.last() as u32),
                der->0,
                secp::pubkey_of(key)->0,
            )
        }),
{
    let s = input.script_sig;
    let script = output.script_pubkey;
    let sig = s.subrange(1, sig_end(s));
    let key = s.subrange(sig_end(s) + 1, key_end(s));
    assert(script =~= seq![0x76u8, 0xa9, 0x14] + script.subrange(3, 23) + seq![0x88u8, 0xac]);
    let all = seq![sig.len() as u8] + sig + seq![key.len() as u8] + key;
    assert(all =~= s.take(all.len() as int));
    (sig, key)
}

/// An output of 34 bytes that pays to a public key is unlocked by a signature
/// under that key, which stands between its first and its last byte but one,
/// and by nothing else.
pub proof fn law_key_unlocks(
    t: tx::TxView,
    idx: int,
    input: tx::InputView,
    output: tx::OutputView,
)
    requires
        output.script_pubkey.len() == 34,
    ensures
        ({
            let script = output.script_pubkey;
            let sig = input.script_sig;
            let der = secp::der_signature(sig.drop_last());
            let key = secp::pubkey_of(script.subrange(1, 33));
            script_verdict(t, idx, input, output) is Ok <==> {
                &&& script[0] == 0x21 && script[33] == 0xac
                &&& sig.len() > 0
                &&& der is Some
                &&& key is Some
                &&& secp::signature_holds(
                    tx::sighash_of(t, idx, script, sig.last() as u32),
                    der->0,
                    key->0,
                )
            }
        }),
{
}

/// A signature is good exactly where it can be read, the key is one, and it
/// holds under the key for what it covers.
pub proof fn law_good_signature(
    t: tx::TxView,
    idx: int,
    script: Seq<u8>,
    der: Seq<u8>,
    ty: u8,
    pubkey: Option<Seq<u8>>,
    bad_key: Seq<char>,
)
    ensures
        signature_verdict(t, idx, script, der.push(ty), pubkey, bad_key) is Ok <==> {
            &&& secp::der_signature(der) is Some
            &&& pubkey is Some
            &&& secp::signature_holds(
                tx::sighash_of(t, idx, script, ty as u32),
                secp::der_signature(der)->0,
                pubkey->0,
            )
        },
{
    assert(der.push(ty).drop_last() =~= der);
}

/// A coinbase names nothing and tells its height: its only input names
/// thirty-two zeros and the last position, and its script begins with the
/// height in eight bytes, the least significant first; its only output pays
/// nothing yet, to the script.
pub proof fn law_coinbase_tells_height(height: usize, extra: Seq<u8>, script: Seq<u8>)
    ensures
        ({
            let t = coinbase_of(height, extra, script);
            &&& t.inputs.len() == 1 && t.outputs.len() == 1
            &&& t.inputs[0].txid@ == Seq::new(32, |i: int| 0u8)
            &&& t.inputs[0].vout == 0xffff_ffff && t.inputs[0].sequence == 0xffff_ffff
            &&& t.inputs[0].script_sig.len() == 8 + extra.len()
            &&& crate::bytes::le_value(t.inputs[0].script_sig.take(8)) == height
            &&& t.inputs[0].script_sig.skip(8) == extra
            &&& t.outputs[0].value == 0 && t.outputs[0].script_pubkey == script
        }),
{
    tx::lemma_no_id();
    let head = crate::bytes::le_bytes(height as nat, 8);
    let s = head + extra;
    crate::bytes::lemma_le_bytes_len(height as nat, 8);
    crate::bytes::lemma_pow256_values();
    crate::bytes::lemma_le_read_write(height as nat, 8);
    assert(s.take(8) =~= head);
    assert(s.skip(8) =~= extra);
}

} // verus!
