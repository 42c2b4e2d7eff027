//! Requests to a node over HTTP: who may ask, and what is answered.
use crate::address;
use crate::address::address_to_pubkey_hash;
use crate::bytes;
use crate::bytes::{append_bytes, copy_bytes, from_be, starts_with, to_be};
use crate::codec;
use crate::codec::{deserialize_tx, deserialize_txs, serialize_block, serialize_txs};
use crate::errors::{other, ChainError, Fault};
use crate::index;
use crate::index::Row;
use crate::keys::make_addr_prefix;
use crate::mempool;
use crate::mempool::{Admission, Mempool};
use crate::state;
use crate::state::ChainState;
use crate::store::Snapshot;
use crate::text;
use crate::text::{decode_hex, number_text, parse_number, trim_prefix};
use crate::tx::Transaction;
use jsonwebtoken::{decode, encode, DecodingKey, EncodingKey, Header, Validation};
use std::collections::HashMap;
use vstd::prelude::*;

verus! {

broadcast use vstd::std_specs::btree::group_btree_axioms;

/// How long a renewed token is good for, in seconds.
pub const TOKEN_SECS: u64 = 3600;

/// The number that comes before what is answered in bytes.
pub const FORMAT: u32 = 1;

/// All is well.
pub const OK: u16 = 200;

/// The request cannot be answered as it is.
pub const BAD_REQUEST: u16 = 400;

/// Whoever asks may not.
pub const UNAUTHORIZED: u16 = 401;

/// What is asked for is not there.
pub const NOT_FOUND: u16 = 404;

// ---------------------------------------------------------------------------
// Tokens
// ---------------------------------------------------------------------------

/// What a token says: names and values.
pub type Claims = Vec<(String, String)>;

/// What a list of names and values says.
pub open spec fn claims_view(v: Seq<(String, String)>) -> Seq<(Seq<char>, Seq<char>)> {
    v.map_values(|c: (String, String)| (c.0@, c.1@))
}

/// The names with their values; of several values of a name, the last.
pub open spec fn claims_map(s: Seq<(Seq<char>, Seq<char>)>) -> Map<Seq<char>, Seq<char>>
    decreases s.len(),
{
    if s.len() == 0 {
        Map::empty()
    } else {
        claims_map(s.drop_last()).insert(s.last().0, s.last().1)
    }
}

/// The names and values that a token carries, where it is signed with a
/// secret.
pub uninterp spec fn token_claims(token: Seq<char>, secret: Seq<char>) -> Option<
    Map<Seq<char>, Seq<char>>,
>;

/// `jsonwebtoken::decode` with the default validation, to names and values. The
/// default validation asks for a numeric `exp`, and the names and values for
/// text in every claim: no token passes both, so nothing ever comes out.
#[verifier::external_body]
pub(crate) fn decode_claims(token: &str, secret: &str) -> (r: Option<Claims>)
    ensures
        r is None,
{
    let key = DecodingKey::from_secret(secret.as_bytes());
    let data = decode::<HashMap<String, String>>(token, &key, &Validation::default()).ok()?;
    Some(data.claims.into_iter().collect())
}

/// `jsonwebtoken::encode` with the default header, which asks for a secret to
/// sign with: there is a token, and it carries the names and values, signed with
/// the secret. In which order it carries them rests on the process, so the token
/// itself is not named.
#[verifier::external_body]
pub(crate) fn encode_claims(claims: Claims, secret: &str) -> (r: Option<String>)
    ensures
        r is Some,
        token_claims(r->0@, secret@) == Some(claims_map(claims_view(claims@))),
{
    let key = EncodingKey::from_secret(secret.as_bytes());
    let claims: HashMap<String, String> = claims.into_iter().collect();
    encode(&Header::default(), &claims, &key).ok()
}

/// Until when a token is good, by what it says; 0 where it does not say.
pub open spec fn expiry_of(claims: Seq<(Seq<char>, Seq<char>)>) -> u64
    decreases claims.len(),
{
    if claims.len() == 0 {
        0
    } else if claims[0].0 == "exp"@ {
        match text::number_of(claims[0].1) {
            Some(n) => n,
            None => 0,
        }
    } else {
        expiry_of(claims.skip(1))
    }
}

/// Whether a token is still good at a time in seconds, by what it says.
pub fn is_current(claims: &Claims, now: u64) -> (r: bool)
    ensures
        r == (expiry_of(claims_view(claims@)) > now),
{
    let ghost all = claims_view(claims@);
    let mut i: usize = 0;
    assert(all.skip(0) =~= all);
    while i < claims.len()
        invariant
            i <= claims@.len(),
            all == claims_view(claims@),
            expiry_of(all) == expiry_of(all.skip(i as int)),
        decreases claims@.len() - i,
    {
        proof {
            assert(all.skip(i as int)[0] == all[i as int]);
            assert(all.skip(i as int).skip(1) =~= all.skip(i + 1));
        }
        if claims[i].0 == "exp".to_string() {
            return match parse_number(claims[i].1.as_str()) {
                Some(n) => n > now,
                None => false,
            };
        }
        i += 1;
    }
    false
}

/// What a token says after it is renewed: the time until when it is good comes
/// last, and once.
pub open spec fn renewed(claims: Seq<(Seq<char>, Seq<char>)>, until: u64) -> Seq<
    (Seq<char>, Seq<char>),
> {
    claims.filter(|c: (Seq<char>, Seq<char>)| c.0 != "exp"@).push(
        ("exp"@, text::decimal_text(until as nat)),
    )
}

/// What a token says after it is renewed.
pub fn renew(claims: &Claims, until: u64) -> (r: Claims)
    ensures
        claims_view(r@) == renewed(claims_view(claims@), until),
{
    let ghost all = claims_view(claims@);
    let ghost keep = |c: (Seq<char>, Seq<char>)| c.0 != "exp"@;
    let mut out: Claims = Vec::new();
    let mut i: usize = 0;
    proof {
        reveal(Seq::filter);
        assert(all.take(0) =~= Seq::<(Seq<char>, Seq<char>)>::empty());
        assert(claims_view(out@) =~= Seq::<(Seq<char>, Seq<char>)>::empty());
    }
    while i < claims.len()
        invariant
            i <= claims@.len(),
            all == claims_view(claims@),
            keep == (|c: (Seq<char>, Seq<char>)| c.0 != "exp"@),
            claims_view(out@) == all.take(i as int).filter(keep),
        decreases claims@.len() - i,
    {
        proof {
            reveal(Seq::filter);
            assert(all.take(i + 1).drop_last() =~= all.take(i as int));
            assert(all.take(i + 1).last() == (claims@[i as int].0@, claims@[i as int].1@));
        }
        let ghost before = claims_view(out@);
        if claims[i].0 != "exp".to_string() {
            let c = (claims[i].0.clone(), claims[i].1.clone());
            out.push(c);
            assert(claims_view(out@) =~= before.push((c.0@, c.1@)));
        }
        i += 1;
    }
    assert(all.take(all.len() as int) =~= all);
    let ghost before = claims_view(out@);
    let last = ("exp".to_string(), number_text(until));
    out.push(last);
    assert(claims_view(out@) =~= before.push((last.0@, last.1@)));
    out
}

/// A token that is renewed until a time is good until then.
pub proof fn law_renewed_is_current(claims: Seq<(Seq<char>, Seq<char>)>, until: u64)
    ensures
        expiry_of(renewed(claims, until)) == until,
{
    let keep = |c: (Seq<char>, Seq<char>)| c.0 != "exp"@;
    let s = claims.filter(keep);
    lemma_expiry_last(s, ("exp"@, text::decimal_text(until as nat)), claims);
    text::law_number_reads_back(until);
}

proof fn lemma_expiry_last(
    s: Seq<(Seq<char>, Seq<char>)>,
    last: (Seq<char>, Seq<char>),
    claims: Seq<(Seq<char>, Seq<char>)>,
)
    requires
        s == claims.filter(|c: (Seq<char>, Seq<char>)| c.0 != "exp"@),
        last.0 == "exp"@,
    ensures
        expiry_of(s.push(last)) == match text::number_of(last.1) {
            Some(n) => n,
            None => 0,
        },
{
    let keep = |c: (Seq<char>, Seq<char>)| c.0 != "exp"@;
    assert forall|i: int| 0 <= i < s.len() implies (#[trigger] s[i]).0 != "exp"@ by {
        claims.lemma_filter_contains_rev(keep, s[i]);
    }
    lemma_expiry_skips(s, last, 0);
    assert(s.push(last).skip(0) =~= s.push(last));
}

proof fn lemma_expiry_skips(s: Seq<(Seq<char>, Seq<char>)>, last: (Seq<char>, Seq<char>), n: int)
    requires
        0 <= n <= s.len(),
        forall|i: int| 0 <= i < s.len() ==> (#[trigger] s[i]).0 != "exp"@,
        last.0 == "exp"@,
    ensures
        expiry_of(s.push(last).skip(n)) == match text::number_of(last.1) {
            Some(m) => m,
            None => 0,
        },
    decreases s.len() - n,
{
    let t = s.push(last).skip(n);
    if n < s.len() {
        lemma_expiry_skips(s, last, n + 1);
        assert(t[0] == s[n]);
        assert(t.skip(1) =~= s.push(last).skip(n + 1));
    } else {
        assert(t[0] == last);
    }
}

proof fn lemma_without_expiry(s: Seq<(Seq<char>, Seq<char>)>, v: Seq<char>)
    ensures
        claims_map(s.filter(|c: (Seq<char>, Seq<char>)| c.0 != "exp"@)).insert("exp"@, v)
            == claims_map(s).insert("exp"@, v),
    decreases s.len(),
{
    let keep = |c: (Seq<char>, Seq<char>)| c.0 != "exp"@;
    reveal(Seq::filter);
    if s.len() > 0 {
        lemma_without_expiry(s.drop_last(), v);
        let f = s.drop_last().filter(keep);
        if keep(s.last()) {
            assert(s.filter(keep) == f.push(s.last()));
            assert(f.push(s.last()).drop_last() =~= f);
            assert(claims_map(s.filter(keep)).insert("exp"@, v) =~= claims_map(f).insert(
                "exp"@,
                v,
            ).insert(s.last().0, s.last().1));
            assert(claims_map(s).insert("exp"@, v) =~= claims_map(s.drop_last()).insert(
                "exp"@,
                v,
            ).insert(s.last().0, s.last().1));
        } else {
            assert(s.filter(keep) == f);
            assert(claims_map(s).insert("exp"@, v) =~= claims_map(s.drop_last()).insert(
                "exp"@,
                v,
            ));
        }
    }
}

/// What a renewed token carries: the same, but for the time until when it is
/// good.
pub proof fn law_renewed_keeps_the_rest(s: Seq<(Seq<char>, Seq<char>)>, until: u64)
    ensures
        claims_map(renewed(s, until)) == claims_map(s).insert(
            "exp"@,
            text::decimal_text(until as nat),
        ),
{
    let v = text::decimal_text(until as nat);
    let f = s.filter(|c: (Seq<char>, Seq<char>)| c.0 != "exp"@);
    lemma_without_expiry(s, v);
    assert(renewed(s, until) == f.push(("exp"@, v)));
    assert(f.push(("exp"@, v)).drop_last() =~= f);
}

/// Whether a token is still good, given what came out of it.
pub fn judge_claims(decoded: &Option<Claims>, now: u64) -> (r: Result<bool, ChainError>)
    ensures
        match decoded {
            None => r is Err && r->Err_0@ == Fault::Other("Invalid JWT"@),
            Some(c) => r == Ok::<bool, ChainError>(expiry_of(claims_view(c@)) > now),
        },
{
    match decoded {
        None => Err(other("Invalid JWT")),
        Some(claims) => Ok(is_current(claims, now)),
    }
}

/// Whether a token is still good at a time in seconds. None can be read, so each
/// is refused; [`judge_claims`] says what follows from what comes out.
pub fn validate_jwt(token: &str, secret: &str, now: u64) -> (r: Result<bool, ChainError>)
    ensures
        r is Err && r->Err_0@ == Fault::Other("Invalid JWT"@),
{
    judge_claims(&decode_claims(token, secret), now)
}

/// What a token is to carry after it is renewed, given what came out of it.
pub fn renew_claims(decoded: &Option<Claims>, now: u64) -> (r: Result<Claims, ChainError>)
    requires
        decoded is Some ==> now + TOKEN_SECS <= u64::MAX,
    ensures
        match decoded {
            None => r is Err && r->Err_0@ == Fault::Other("Invalid JWT"@),
            Some(c) => r is Ok && claims_view(r->Ok_0@) == renewed(
                claims_view(c@),
                (now + TOKEN_SECS) as u64,
            ),
        },
{
    match decoded {
        None => Err(other("Invalid JWT")),
        Some(claims) => Ok(renew(claims, now + TOKEN_SECS)),
    }
}

/// The renewed token, given what writing it came to.
pub fn renewed_token(encoded: Option<String>) -> (r: Result<String, ChainError>)
    ensures
        match encoded {
            None => r is Err && r->Err_0@ == Fault::Other("Refresh failed"@),
            Some(t) => r == Ok::<String, ChainError>(t),
        },
{
    match encoded {
        None => Err(other("Refresh failed")),
        Some(t) => Ok(t),
    }
}

/// A token that carries names and values, signed with the secret.
pub fn sign_token(claims: Claims, secret: &str) -> (r: Result<String, ChainError>)
    ensures
        r is Ok,
        token_claims(r->Ok_0@, secret@) == Some(claims_map(claims_view(claims@))),
{
    renewed_token(encode_claims(claims, secret))
}

/// A token in place of another. None can be read, so each is refused;
/// [`renew_claims`] and [`sign_token`] say what follows from what comes out.
pub fn refresh_jwt(token: &str, secret: &str, now: u64) -> (r: Result<String, ChainError>)
    ensures
        r is Err && r->Err_0@ == Fault::Other("Invalid JWT"@),
{
    let decoded = decode_claims(token, secret);
    match renew_claims(&decoded, now) {
        Err(e) => Err(e),
        Ok(claims) => sign_token(claims, secret),
    }
}

/// The token that a header brings.
pub fn bearer_token(header: &str) -> (r: String)
    ensures
        r@ == text::without_prefix(header@, "Bearer "@),
{
    trim_prefix(header, "Bearer ")
}

/// Whether whoever asks may, given whether there is a header and what came out
/// of the token that it brings: that it came out is enough, whether it is still
/// good or not.
pub fn admits(has_header: bool, decoded: &Option<Claims>, now: u64) -> (r: bool)
    ensures
        r == (has_header && decoded is Some),
{
    has_header && judge_claims(decoded, now).is_ok()
}

/// Whether whoever asks may. No token can be read, so nobody may; [`admits`] says
/// what follows from what comes out of one.
pub fn is_authorized(header: Option<&str>, secret: &str, now: u64) -> (r: bool)
    ensures
        !r,
{
    match header {
        None => admits(false, &None, now),
        Some(h) => {
            let token = bearer_token(h);
            let decoded = decode_claims(token.as_str(), secret);
            admits(true, &decoded, now)
        },
    }
}

// ---------------------------------------------------------------------------
// Answers
// ---------------------------------------------------------------------------

/// An answer.
#[derive(Debug, PartialEq, Eq)]
pub struct Response {
    /// Whether all is well, or what is not.
    pub status: u16,
    /// What is answered.
    pub body: Vec<u8>,
}

/// What a [`Response`] says.
pub struct ResponseView {
    pub status: u16,
    pub body: Seq<u8>,
}

impl View for Response {
    type V = ResponseView;

    open spec fn view(&self) -> ResponseView {
        ResponseView { status: self.status, body: self.body@ }
    }
}

/// An answer in words.
pub open spec fn says(status: u16, words: Seq<char>) -> ResponseView {
    ResponseView { status, body: vstd::utf8::encode_utf8(words) }
}

/// An answer in words.
pub fn say(status: u16, words: &str) -> (r: Response)
    ensures
        r@ == says(status, words@),
{
    Response { status, body: copy_bytes(words.as_bytes()) }
}

/// What is answered to whoever may not ask.
pub open spec fn refusal() -> ResponseView {
    says(UNAUTHORIZED, "Invalid or missing JWT"@)
}

/// What is answered to whoever may not ask.
pub fn unauthorized() -> (r: Response)
    ensures
        r@ == refusal(),
{
    say(UNAUTHORIZED, "Invalid or missing JWT")
}

/// The height of the best block.
pub fn height_reply(best_height: usize) -> (r: Response)
    ensures
        r@ == says(OK, text::decimal_text(best_height as nat)),
{
    let t = number_text(best_height as u64);
    say(OK, t.as_str())
}

/// The balance of the first `n` rows: those that hold no amount are passed
/// over, and so is an amount that would leave the range of amounts.
pub open spec fn lenient_balance(rows: Seq<(Seq<u8>, Seq<u8>)>, n: nat) -> nat
    decreases n,
{
    if n == 0 {
        0
    } else {
        let before = lenient_balance(rows, (n - 1) as nat);
        let value = rows[n - 1].1;
        if value.len() == 8 && before + bytes::be_value(value) <= u64::MAX {
            before + bytes::be_value(value)
        } else {
            before
        }
    }
}

/// What is answered when the balance of an address is asked for.
pub open spec fn balance_answer(rows: Seq<(Seq<u8>, Seq<u8>)>, address: Seq<char>) -> ResponseView {
    match address::address_hash(address) {
        Err(_) => says(BAD_REQUEST, "Invalid address"@),
        Ok(pkh) => {
            let own = index::rows_at(rows, index::prefix_of(pkh));
            says(OK, text::decimal_text(lenient_balance(own, own.len())))
        },
    }
}

/// The balance of an address.
pub fn balance_reply(rows: &Vec<Row>, address: &str) -> (r: Response)
    ensures
        r@ == balance_answer(index::rows_view(rows@), address@),
{
    let pkh = match address_to_pubkey_hash(address) {
        Ok(h) => h,
        Err(_) => {
            return say(BAD_REQUEST, "Invalid address");
        },
    };
    let prefix = make_addr_prefix(&pkh);
    let ghost all = index::rows_view(rows@);
    let mut balance: u64 = 0;
    let mut i: usize = 0;
    proof {
        reveal(Seq::filter);
        assert(all.take(0) =~= Seq::<(Seq<u8>, Seq<u8>)>::empty());
    }
    while i < rows.len()
        invariant
            i <= rows@.len(),
            all == index::rows_view(rows@),
            prefix@ == index::prefix_of(pkh@),
            balance == lenient_balance(
                index::rows_at(all.take(i as int), prefix@),
                index::rows_at(all.take(i as int), prefix@).len(),
            ),
        decreases rows@.len() - i,
    {
        let ghost before = index::rows_at(all.take(i as int), prefix@);
        let ghost after = index::rows_at(all.take(i + 1), prefix@);
        proof {
            reveal(Seq::filter);
            assert(all.take(i + 1).drop_last() =~= all.take(i as int));
            assert(all.take(i + 1).last() == index::row_view(rows@[i as int]));
        }
        if starts_with(rows[i].0.as_slice(), prefix.as_slice()) {
            proof {
                assert(after == before.push(index::row_view(rows@[i as int])));
                lemma_lenient_prefix(before, after, before.len());
            }
            let value = rows[i].1.as_slice();
            if value.len() == 8 {
                proof {
                    bytes::lemma_be_write_read(value@);
                    bytes::lemma_pow256_values();
                }
                let amount: u64 = from_be(value) as u64;
                if amount <= u64::MAX - balance {
                    balance = balance + amount;
                }
            }
        }
        i += 1;
    }
    assert(all.take(all.len() as int) =~= all);
    let t = number_text(balance);
    say(OK, t.as_str())
}

proof fn lemma_lenient_prefix(
    a: Seq<(Seq<u8>, Seq<u8>)>,
    b: Seq<(Seq<u8>, Seq<u8>)>,
    n: nat,
)
    requires
        n <= a.len() <= b.len(),
        forall|i: int| 0 <= i < a.len() ==> a[i] == b[i],
    ensures
        lenient_balance(a, n) == lenient_balance(b, n),
    decreases n,
{
    if n > 0 {
        lemma_lenient_prefix(a, b, (n - 1) as nat);
    }
}

/// What is answered in bytes: the number of the format, the most significant
/// byte first, and the bytes.
pub open spec fn formatted(data: Seq<u8>) -> ResponseView {
    ResponseView { status: OK, body: bytes::be_bytes(FORMAT as nat, 4) + data }
}

/// What is answered when the best block is asked for.
pub open spec fn block_answer(s: state::StateView, best_height: usize) -> ResponseView {
    if s.blocks.dom().contains(best_height) {
        formatted(codec::enc_block(s.blocks[best_height]))
    } else {
        says(NOT_FOUND, "No block at tip"@)
    }
}

/// The best block.
pub fn block_reply(state: &ChainState, best_height: usize) -> (r: Response)
    ensures
        r@ == block_answer(state@, best_height),
{
    match state.blocks.get(&best_height) {
        Some(b) => {
            let mut body = to_be(FORMAT as u128, 4);
            let data = serialize_block(b);
            append_bytes(&mut body, data.as_slice());
            Response { status: OK, body }
        },
        None => say(NOT_FOUND, "No block at tip"),
    }
}

/// Whether an answer brings the transactions of the pool, in whatever order.
pub open spec fn lists_answer(p: mempool::PoolView, r: ResponseView) -> bool {
    exists|txs: Seq<crate::tx::TxView>|
        #[trigger] mempool::lists_pool(p, txs) && r == formatted(codec::enc_txs(txs))
}

/// The transactions of the pool, in no order that is known.
pub fn mempool_reply(pool: &Mempool) -> (r: Response)
    ensures
        lists_answer(pool@, r@),
{
    let txs = pool.transactions();
    let mut body = to_be(FORMAT as u128, 4);
    let data = serialize_txs(&txs);
    append_bytes(&mut body, data.as_slice());
    assert(mempool::lists_pool(pool@, txs@.map_values(|t: Transaction| t@)));
    Response { status: OK, body }
}

/// The transactions that an answer in bytes brings; none where it cannot be
/// read.
pub open spec fn answered_txs(body: Seq<u8>) -> Seq<crate::tx::TxView> {
    if body.len() < 4 {
        Seq::empty()
    } else {
        match codec::read_txs(body.skip(4)) {
            Some(s) => s,
            None => Seq::empty(),
        }
    }
}

/// The transactions that an answer in bytes brings; none where it cannot be
/// read.
pub fn read_mempool_reply(body: &[u8]) -> (r: Vec<Transaction>)
    ensures
        r@.map_values(|t: Transaction| t@) == answered_txs(body@),
{
    let n = body.len();
    if n >= 4 {
        let data = vstd::slice::slice_subrange(body, 4, n);
        assert(data@ =~= body@.skip(4));
        if let Some(v) = deserialize_txs(data) {
            return v;
        }
    }
    let none: Vec<Transaction> = Vec::new();
    assert(none@.map_values(|t: Transaction| t@) =~= Seq::empty());
    none
}

/// The transactions of the pool are those that whoever asks for them reads.
pub proof fn law_mempool_reply_reads_back(txs: Seq<crate::tx::TxView>)
    requires
        codec::enc_txs(txs).len() < bytes::pow256(8),
    ensures
        answered_txs(formatted(codec::enc_txs(txs)).body) == txs,
{
    bytes::lemma_be_bytes_len(FORMAT as nat, 4);
    let data = codec::enc_txs(txs);
    let body = formatted(data).body;
    assert(body.skip(4) =~= data);
    assert(data.is_prefix_of(data));
    codec::law_read_txs(txs, data);
}

/// What is answered to the outcome of an offer; nothing where the pool is
/// stuck.
pub open spec fn offer_answer(out: Result<Admission, Fault>) -> Option<ResponseView> {
    match out {
        Ok(a) => if a == Admission::Added {
            Some(says(OK, "TX sent"@))
        } else if a == Admission::Stuck {
            None
        } else {
            Some(says(BAD_REQUEST, "Invalid TX"@))
        },
        Err(_) => Some(says(BAD_REQUEST, "Invalid TX"@)),
    }
}

/// Whether an answer and a pool are what offering a transaction comes to.
pub open spec fn answered_offer(
    p: mempool::PoolView,
    db: crate::store::Db,
    t: crate::tx::TxView,
    now_ms: u128,
    r: Option<ResponseView>,
    q: mempool::PoolView,
) -> bool {
    exists|out: Result<Admission, Fault>|
        #[trigger] mempool::offered(p, db, t, now_ms, out, q) && r == offer_answer(out)
}

/// Whether an answer and a pool are what offering a transaction in hexadecimal
/// comes to; there is no answer where the pool is stuck.
pub open spec fn sent(
    p: mempool::PoolView,
    db: crate::store::Db,
    raw_hex: Seq<char>,
    now_ms: u128,
    r: Option<ResponseView>,
    q: mempool::PoolView,
) -> bool {
    match text::hex_bytes(raw_hex) {
        None => r == Some(says(BAD_REQUEST, "Invalid hex"@)) && q == p,
        Some(raw) => match codec::read_tx(raw) {
            None => r == Some(says(BAD_REQUEST, "Invalid TX"@)) && q == p,
            Some(t) => answered_offer(p, db, t, now_ms, r, q),
        },
    }
}

/// What an optional answer says.
pub open spec fn response_opt(o: Option<Response>) -> Option<ResponseView> {
    match o {
        Some(r) => Some(r@),
        None => None,
    }
}

/// Offers a transaction in hexadecimal to the pool; no answer where the pool
/// is stuck.
pub fn send_tx_reply(pool: &mut Mempool, db: &Snapshot, raw_hex: &str, now_ms: u128) -> (r: Option<
    Response,
>)
    requires
        old(pool).wf(),
    ensures
        final(pool).wf(),
        sent(old(pool)@, db@, raw_hex@, now_ms, response_opt(r), final(pool)@),
{
    let raw = match decode_hex(raw_hex) {
        Some(b) => b,
        None => {
            return Some(say(BAD_REQUEST, "Invalid hex"));
        },
    };
    let t = match deserialize_tx(raw.as_slice()) {
        Some(t) => t,
        None => {
            return Some(say(BAD_REQUEST, "Invalid TX"));
        },
    };
    let ghost offer = t@;
    let out = pool.insert(t, db, now_ms);
    let ghost o = mempool::outcome(out);
    let reply = match out {
        Ok(Admission::Added) => Some(say(OK, "TX sent")),
        Ok(Admission::Stuck) => None,
        Ok(Admission::Known) => Some(say(BAD_REQUEST, "Invalid TX")),
        Err(_) => Some(say(BAD_REQUEST, "Invalid TX")),
    };
    assert(response_opt(reply) == offer_answer(o));
    assert(mempool::offered(old(pool)@, db@, offer, now_ms, o, pool@));
    assert(answered_offer(old(pool)@, db@, offer, now_ms, response_opt(reply), pool@));
    reply
}

// ---------------------------------------------------------------------------
// Requests
// ---------------------------------------------------------------------------

/// What is asked for.
pub enum Request {
    /// The height of the best block.
    Height,
    /// The balance of an address.
    Balance(String),
    /// The best block.
    Block,
    /// The transactions of the pool.
    Mempool,
    /// That a transaction in hexadecimal be taken into the pool.
    SendTx(String),
}

/// What a [`Request`] says.
pub enum RequestView {
    Height,
    Balance(Seq<char>),
    Block,
    Mempool,
    SendTx(Seq<char>),
}

impl View for Request {
    type V = RequestView;

    open spec fn view(&self) -> RequestView {
        match self {
            Request::Height => RequestView::Height,
            Request::Balance(a) => RequestView::Balance(a@),
            Request::Block => RequestView::Block,
            Request::Mempool => RequestView::Mempool,
            Request::SendTx(t) => RequestView::SendTx(t@),
        }
    }
}

/// What requests are answered from: what is kept of the chain, the height of
/// the best block, what is stored, and the rows of the index.
pub struct Source<'a> {
    /// What is kept of the chain.
    pub state: &'a ChainState,
    /// The height of the best block.
    pub best_height: usize,
    /// What is stored.
    pub db: &'a Snapshot,
    /// The rows of the index.
    pub rows: &'a Vec<Row>,
}

/// Whether an answer and a pool are what a request comes to, for someone who
/// may ask or may not; there is no answer where the pool is stuck.
pub open spec fn answered(
    req: RequestView,
    may_ask: bool,
    p: mempool::PoolView,
    from: Source<'_>,
    now_ms: u128,
    r: Option<ResponseView>,
    q: mempool::PoolView,
) -> bool {
    if !may_ask {
        r == Some(refusal()) && q == p
    } else {
        match req {
            RequestView::Height => q == p && r == Some(
                says(OK, text::decimal_text(from.best_height as nat)),
            ),
            RequestView::Balance(a) => q == p && r == Some(
                balance_answer(index::rows_view(from.rows@), a),
            ),
            RequestView::Block => q == p && r == Some(
                block_answer(from.state@, from.best_height),
            ),
            RequestView::Mempool => q == p && r is Some && lists_answer(p, r->0),
            RequestView::SendTx(t) => sent(p, from.db@, t, now_ms, r, q),
        }
    }
}

/// Answers a request of someone who may ask or may not; no answer where the
/// pool is stuck.
pub fn answer(req: &Request, may_ask: bool, pool: &mut Mempool, from: &Source<'_>, now_ms: u128)
    -> (r: Option<Response>)
    requires
        old(pool).wf(),
    ensures
        final(pool).wf(),
        answered(req@, may_ask, old(pool)@, *from, now_ms, response_opt(r), final(pool)@),
{
    if !may_ask {
        return Some(unauthorized());
    }
    match req {
        Request::Height => Some(height_reply(from.best_height)),
        Request::Balance(a) => Some(balance_reply(from.rows, a.as_str())),
        Request::Block => Some(block_reply(from.state, from.best_height)),
        Request::Mempool => Some(mempool_reply(pool)),
        Request::SendTx(t) => send_tx_reply(pool, from.db, t.as_str(), now_ms),
    }
}

/// Answers a request with a header, the time being given in milliseconds.
/// Nobody may ask, so each is refused and nothing changes; [`answer`] says what
/// follows for someone who may.
pub fn serve(
    req: &Request,
    header: Option<&str>,
    secret: &str,
    pool: &mut Mempool,
    from: &Source<'_>,
    now_ms: u128,
) -> (r: Option<Response>)
    requires
        old(pool).wf(),
    ensures
        final(pool).wf(),
        final(pool)@ == old(pool)@,
        response_opt(r) == Some(refusal()),
{
    let secs: u64 = ((now_ms / 1000) % 0x1_0000_0000_0000_0000) as u64;
    let may_ask = is_authorized(header, secret, secs);
    answer(req, may_ask, pool, from, now_ms)
}

/// Whoever may not ask is refused, whatever they ask for, and nothing changes.
pub proof fn law_strangers_are_refused(
    req: RequestView,
    p: mempool::PoolView,
    from: Source<'_>,
    now_ms: u128,
    r: Option<ResponseView>,
    q: mempool::PoolView,
)
    requires
        answered(req, false, p, from, now_ms, r, q),
    ensures
        r == Some(refusal()),
        q == p,
{
}

/// Only sending a transaction changes the pool.
pub proof fn law_asking_changes_nothing(
    req: RequestView,
    may_ask: bool,
    p: mempool::PoolView,
    from: Source<'_>,
    now_ms: u128,
    r: Option<ResponseView>,
    q: mempool::PoolView,
)
    requires
        answered(req, may_ask, p, from, now_ms, r, q),
        !(req is SendTx),
    ensures
        q == p,
        r is Some,
{
}

} // verus!
