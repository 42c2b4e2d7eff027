//! Bytes and numbers written as text, by the `hex` and `base64` crates and by
//! the standard library.
use base64::engine::general_purpose::STANDARD;
use base64::Engine;
use vstd::prelude::*;

verus! {

/// The value of a hexadecimal digit of either case; `None` for any other
/// character.
pub open spec fn hex_digit(c: char) -> Option<nat> {
    if '0' <= c <= '9' {
        Some((c as nat - '0' as nat) as nat)
    } else if 'a' <= c <= 'f' {
        Some((c as nat - 'a' as nat + 10) as nat)
    } else if 'A' <= c <= 'F' {
        Some((c as nat - 'A' as nat + 10) as nat)
    } else {
        None
    }
}

/// The bytes that a text writes in hexadecimal, two digits for each byte, the
/// higher digit first; `None` where the number of digits is odd or where a
/// character is no digit.
pub open spec fn hex_bytes(text: Seq<char>) -> Option<Seq<u8>> {
    if text.len() % 2 == 0 && forall|i: int|
        0 <= i < text.len() ==> hex_digit(#[trigger] text[i]) is Some {
        Some(
            Seq::new(
                text.len() / 2,
                |i: int|
                    (16 * hex_digit(text[2 * i])->0 + hex_digit(text[2 * i + 1])->0) as u8,
            ),
        )
    } else {
        None
    }
}

/// `hex::decode` reads two digits of either case for each byte, and refuses an
/// odd number of digits and any other character.
#[verifier::external_body]
pub(crate) fn decode_hex(text: &str) -> (r: Option<Vec<u8>>)
    ensures
        crate::tx::opt_view(r) == hex_bytes(text@),
{
    hex::decode(text).ok()
}

/// The digit of a value below sixteen.
pub open spec fn hex_char(v: u8) -> char {
    if v < 10 {
        ('0' as u8 + v) as char
    } else {
        ('a' as u8 + (v - 10)) as char
    }
}

/// Bytes written in hexadecimal, two digits for each byte, the higher digit
/// first, letters in lower case.
pub open spec fn hex_text(data: Seq<u8>) -> Seq<char> {
    Seq::new(
        2 * data.len(),
        |i: int|
            hex_char(
                if i % 2 == 0 {
                    data[i / 2] / 16
                } else {
                    data[i / 2] % 16
                },
            ),
    )
}

/// `hex::encode` writes two digits for each byte, letters in lower case.
#[verifier::external_body]
pub(crate) fn encode_hex(data: &[u8]) -> (r: String)
    ensures
        r@ == hex_text(data@),
{
    hex::encode(data)
}

/// The bytes that a text writes in base 64.
pub uninterp spec fn base64_bytes(text: Seq<char>) -> Option<Seq<u8>>;

/// Bytes written in base 64.
pub uninterp spec fn base64_text(data: Seq<u8>) -> Seq<char>;

/// `base64::Engine::decode` with the standard alphabet and padding: whether
/// and which bytes the text writes depends on the text alone.
#[verifier::external_body]
pub(crate) fn decode_base64(text: &str) -> (r: Option<Vec<u8>>)
    ensures
        crate::tx::opt_view(r) == base64_bytes(text@),
{
    STANDARD.decode(text).ok()
}

/// `base64::Engine::encode` with the standard alphabet and padding: the text
/// depends on the bytes alone, and has four characters for each three bytes,
/// the last ones rounded up.
#[verifier::external_body]
pub(crate) fn encode_base64(data: &[u8]) -> (r: String)
    ensures
        r@ == base64_text(data@),
        r@.len() == (data@.len() + 2) / 3 * 4,
{
    STANDARD.encode(data)
}

/// Whether a text is made of decimal digits.
pub open spec fn all_digits(text: Seq<char>) -> bool {
    forall|i: int| 0 <= i < text.len() ==> '0' <= #[trigger] text[i] <= '9'
}

/// The value of decimal digits, the first one counting most.
pub open spec fn decimal_value(digits: Seq<char>) -> nat
    decreases digits.len(),
{
    if digits.len() == 0 {
        0
    } else {
        (10 * decimal_value(digits.drop_last()) + (digits.last() as nat - '0' as nat)) as nat
    }
}

/// The number that a text writes: digits, at least one, after a plus sign that
/// may be missing, and no more than 64 bits hold.
pub open spec fn number_of(text: Seq<char>) -> Option<u64> {
    let digits = if text.len() > 0 && text[0] == '+' {
        text.skip(1)
    } else {
        text
    };
    if digits.len() > 0 && all_digits(digits) && decimal_value(digits) <= u64::MAX {
        Some(decimal_value(digits) as u64)
    } else {
        None
    }
}

/// `str::parse` to a `u64` reads decimal digits after a plus sign that may be
/// missing, and refuses any other character, a text without digits and a
/// number of more than 64 bits.
#[verifier::external_body]
pub(crate) fn parse_number(text: &str) -> (r: Option<u64>)
    ensures
        r == number_of(text@),
{
    text.parse::<u64>().ok()
}

/// A number in decimal digits, without zeros before it.
pub open spec fn decimal_text(n: nat) -> Seq<char>
    decreases n,
{
    if n < 10 {
        seq![('0' as u8 + n) as char]
    } else {
        decimal_text(n / 10).push(('0' as u8 + n % 10) as char)
    }
}

/// `ToString::to_string` of a `u64` writes decimal digits, without a sign and
/// without zeros before the number.
#[verifier::external_body]
pub(crate) fn number_text(n: u64) -> (r: String)
    ensures
        r@ == decimal_text(n as nat),
{
    n.to_string()
}

/// A text without a prefix, however often it stands there.
pub open spec fn without_prefix(text: Seq<char>, prefix: Seq<char>) -> Seq<char>
    decreases text.len(),
{
    if prefix.len() > 0 && prefix.is_prefix_of(text) {
        without_prefix(text.skip(prefix.len() as int), prefix)
    } else {
        text
    }
}

/// `str::trim_start_matches` takes a prefix away as often as it stands there.
#[verifier::external_body]
pub(crate) fn trim_prefix(text: &str, prefix: &str) -> (r: String)
    ensures
        r@ == without_prefix(text@, prefix@),
{
    text.trim_start_matches(prefix).to_string()
}

/// A number that was written is the one that is read.
pub proof fn law_number_reads_back(n: u64)
    ensures
        number_of(decimal_text(n as nat)) == Some(n),
{
    lemma_decimal(n as nat);
}

proof fn lemma_decimal(n: nat)
    ensures
        decimal_text(n).len() > 0,
        all_digits(decimal_text(n)),
        decimal_text(n)[0] != '+',
        decimal_value(decimal_text(n)) == n,
    decreases n,
{
    let t = decimal_text(n);
    assert(t.last() as nat == '0' as nat + n % 10);
    if n < 10 {
        assert(n % 10 == n);
        assert(decimal_value(t.drop_last()) == 0);
        assert(t.drop_last() =~= Seq::<char>::empty());
    } else {
        lemma_decimal(n / 10);
        assert(t.drop_last() =~= decimal_text(n / 10));
        assert forall|i: int| 0 <= i < t.len() implies '0' <= #[trigger] t[i] <= '9' by {
            if i < t.len() - 1 {
                assert(t[i] == decimal_text(n / 10)[i]);
            }
        }
        assert(t[0] == decimal_text(n / 10)[0]);
        assert(decimal_value(t) == 10 * (n / 10) + n % 10);
    }
}

/// Bytes that were written in hexadecimal are those that are read.
pub proof fn law_hex_reads_back(data: Seq<u8>)
    ensures
        hex_bytes(hex_text(data)) == Some(data),
{
    let t = hex_text(data);
    assert forall|i: int| 0 <= i < t.len() implies hex_digit(#[trigger] t[i]) == Some(
        (if i % 2 == 0 {
            data[i / 2] / 16
        } else {
            data[i / 2] % 16
        }) as nat,
    ) by {
        lemma_hex_digit(data[i / 2] / 16);
        lemma_hex_digit(data[i / 2] % 16);
    }
    let b = hex_bytes(t)->0;
    assert forall|i: int| 0 <= i < data.len() implies b[i] == #[trigger] data[i] by {
        assert(hex_digit(t[2 * i]) == Some((data[i] / 16) as nat));
        assert(hex_digit(t[2 * i + 1]) == Some((data[i] % 16) as nat));
    }
    assert(b =~= data);
}

proof fn lemma_hex_digit(v: u8)
    requires
        v < 16,
    ensures
        hex_digit(hex_char(v)) == Some(v as nat),
{
}

} // verus!
