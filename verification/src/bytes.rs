//! Fixed-width integers as byte strings, and small helpers on byte strings.
use vstd::prelude::*;

verus! {

/// `256^n`.
pub open spec fn pow256(n: nat) -> nat
    decreases n,
{
    if n == 0 {
        1
    } else {
        256 * pow256((n - 1) as nat)
    }
}

/// The `n` low bytes of `x`, least significant first.
pub open spec fn le_bytes(x: nat, n: nat) -> Seq<u8>
    decreases n,
{
    if n == 0 {
        Seq::empty()
    } else {
        seq![(x % 256) as u8] + le_bytes(x / 256, (n - 1) as nat)
    }
}

/// The `n` low bytes of `x`, most significant first.
pub open spec fn be_bytes(x: nat, n: nat) -> Seq<u8>
    decreases n,
{
    if n == 0 {
        Seq::empty()
    } else {
        be_bytes(x / 256, (n - 1) as nat).push((x % 256) as u8)
    }
}

/// The number that `s` writes with its least significant byte first.
pub open spec fn le_value(s: Seq<u8>) -> nat
    decreases s.len(),
{
    if s.len() == 0 {
        0
    } else {
        s[0] as nat + 256 * le_value(s.skip(1))
    }
}

/// The number that `s` writes with its most significant byte first.
pub open spec fn be_value(s: Seq<u8>) -> nat
    decreases s.len(),
{
    if s.len() == 0 {
        0
    } else {
        256 * be_value(s.drop_last()) + s.last() as nat
    }
}

pub proof fn lemma_pow256_pos(n: nat)
    ensures
        pow256(n) > 0,
    decreases n,
{
    if n > 0 {
        lemma_pow256_pos((n - 1) as nat);
    }
}

pub proof fn lemma_pow256_add(a: nat, b: nat)
    ensures
        pow256(a + b) == pow256(a) * pow256(b),
    decreases a,
{
    if a == 0 {
        assert(pow256(0) == 1);
    } else {
        lemma_pow256_add((a - 1) as nat, b);
        let p = pow256((a - 1) as nat);
        let q = pow256(b);
        assert(pow256(a + b) == 256 * pow256((a - 1 + b) as nat));
        assert(256 * (p * q) == (256 * p) * q) by (nonlinear_arith);
    }
}

pub proof fn lemma_pow256_mono(a: nat, b: nat)
    requires
        a <= b,
    ensures
        pow256(a) <= pow256(b),
    decreases b,
{
    if a < b {
        lemma_pow256_mono(a, (b - 1) as nat);
        lemma_pow256_pos((b - 1) as nat);
    }
}

/// The widths of the machine integers.
pub proof fn lemma_pow256_values()
    ensures
        pow256(0) == 1,
        pow256(1) == 0x100,
        pow256(2) == 0x1_0000,
        pow256(3) == 0x100_0000,
        pow256(4) == 0x1_0000_0000,
        pow256(8) == 0x1_0000_0000_0000_0000,
        pow256(16) == 0x1_0000_0000_0000_0000_0000_0000_0000_0000,
{
    reveal_with_fuel(pow256, 17);
}

pub proof fn lemma_le_bytes_len(x: nat, n: nat)
    ensures
        le_bytes(x, n).len() == n,
    decreases n,
{
    if n > 0 {
        lemma_le_bytes_len(x / 256, (n - 1) as nat);
    }
}

pub proof fn lemma_be_bytes_len(x: nat, n: nat)
    ensures
        be_bytes(x, n).len() == n,
    decreases n,
{
    if n > 0 {
        lemma_be_bytes_len(x / 256, (n - 1) as nat);
    }
}

/// Reading a little-endian number gives back the number that was written, as
/// long as it fits the width.
pub proof fn lemma_le_read_write(x: nat, n: nat)
    requires
        x < pow256(n),
    ensures
        le_value(le_bytes(x, n)) == x,
    decreases n,
{
    if n > 0 {
        assert(x / 256 < pow256((n - 1) as nat));
        lemma_le_read_write(x / 256, (n - 1) as nat);
        lemma_le_bytes_len(x / 256, (n - 1) as nat);
        assert(le_bytes(x, n).skip(1) =~= le_bytes(x / 256, (n - 1) as nat));
    }
}

/// Reading a big-endian number gives back the number that was written, as
/// long as it fits the width.
pub proof fn lemma_be_read_write(x: nat, n: nat)
    requires
        x < pow256(n),
    ensures
        be_value(be_bytes(x, n)) == x,
    decreases n,
{
    if n > 0 {
        assert(x / 256 < pow256((n - 1) as nat));
        lemma_be_read_write(x / 256, (n - 1) as nat);
        assert(be_bytes(x, n).drop_last() =~= be_bytes(x / 256, (n - 1) as nat));
    }
}

/// A little-endian number is below `256^len`, and writing it again gives the
/// same bytes.
pub proof fn lemma_le_write_read(s: Seq<u8>)
    ensures
        le_value(s) < pow256(s.len()),
        le_bytes(le_value(s), s.len()) == s,
    decreases s.len(),
{
    if s.len() > 0 {
        lemma_le_write_read(s.skip(1));
        assert(le_value(s) / 256 == le_value(s.skip(1)));
        assert(le_value(s) % 256 == s[0]);
        assert(le_bytes(le_value(s), s.len()) =~= s);
    }
}

/// A big-endian number is below `256^len`, and writing it again gives the
/// same bytes.
pub proof fn lemma_be_write_read(s: Seq<u8>)
    ensures
        be_value(s) < pow256(s.len()),
        be_bytes(be_value(s), s.len()) == s,
    decreases s.len(),
{
    if s.len() > 0 {
        lemma_be_write_read(s.drop_last());
        assert(be_value(s) / 256 == be_value(s.drop_last()));
        assert(be_value(s) % 256 == s.last());
        assert(be_bytes(be_value(s), s.len()) =~= s);
    }
}

/// Two numbers that fit the width have different big-endian bytes.
pub proof fn lemma_be_injective(x: nat, y: nat, n: nat)
    requires
        x < pow256(n),
        y < pow256(n),
        be_bytes(x, n) == be_bytes(y, n),
    ensures
        x == y,
{
    lemma_be_read_write(x, n);
    lemma_be_read_write(y, n);
}

/// The `n` low bytes of `x`, least significant first.
pub fn to_le(x: u128, n: usize) -> (r: Vec<u8>)
    requires
        n <= 16,
    ensures
        r@ == le_bytes(x as nat, n as nat),
{
    let mut out: Vec<u8> = Vec::new();
    let mut rest: u128 = x;
    let mut i: usize = 0;
    while i < n
        invariant
            i <= n,
            out@ + le_bytes(rest as nat, (n - i) as nat) == le_bytes(x as nat, n as nat),
        decreases n - i,
    {
        let ghost tail = le_bytes(rest as nat / 256, (n - i - 1) as nat);
        let ghost before = out@;
        let low: u8 = (rest % 256) as u8;
        out.push(low);
        rest = rest / 256;
        i += 1;
        assert(before + (seq![low] + tail) =~= out@ + tail);
    }
    assert(out@ + Seq::<u8>::empty() =~= out@);
    out
}

/// The `n` low bytes of `x`, most significant first.
pub fn to_be(x: u128, n: usize) -> (r: Vec<u8>)
    requires
        n <= 16,
    ensures
        r@ == be_bytes(x as nat, n as nat),
    decreases n,
{
    if n == 0 {
        Vec::new()
    } else {
        let mut out = to_be(x / 256, n - 1);
        out.push((x % 256) as u8);
        out
    }
}

/// The number that `s` writes with its least significant byte first.
pub fn from_le(s: &[u8]) -> (r: u128)
    requires
        s@.len() <= 16,
    ensures
        r == le_value(s@),
{
    let mut acc: u128 = 0;
    let mut i: usize = s.len();
    proof {
        lemma_pow256_values();
        assert(s@.skip(s@.len() as int).len() == 0);
    }
    while i > 0
        invariant
            i <= s@.len() <= 16,
            acc == le_value(s@.skip(i as int)),
        decreases i,
    {
        proof {
            lemma_pow256_values();
            lemma_le_write_read(s@.skip(i as int));
            lemma_le_write_read(s@.skip(i - 1));
            lemma_pow256_mono((s@.len() - i + 1) as nat, 16);
            assert(s@.skip(i - 1).skip(1) =~= s@.skip(i as int));
        }
        i -= 1;
        acc = s[i] as u128 + 256 * acc;
    }
    assert(s@.skip(0) =~= s@);
    acc
}

/// The number that `s` writes with its most significant byte first.
pub fn from_be(s: &[u8]) -> (r: u128)
    requires
        s@.len() <= 16,
    ensures
        r == be_value(s@),
{
    let mut acc: u128 = 0;
    let mut i: usize = 0;
    while i < s.len()
        invariant
            i <= s@.len() <= 16,
            acc == be_value(s@.take(i as int)),
        decreases s@.len() - i,
    {
        proof {
            lemma_pow256_values();
            lemma_be_write_read(s@.take(i + 1));
            lemma_pow256_mono((i + 1) as nat, 16);
            assert(s@.take(i + 1).drop_last() =~= s@.take(i as int));
        }
        acc = 256 * acc + s[i] as u128;
        i += 1;
    }
    assert(s@.take(s@.len() as int) =~= s@);
    acc
}

/// Whether two byte strings are equal.
pub fn same_bytes(a: &[u8], b: &[u8]) -> (r: bool)
    ensures
        r == (a@ == b@),
{
    if a.len() != b.len() {
        return false;
    }
    let mut i: usize = 0;
    while i < a.len()
        invariant
            a@.len() == b@.len(),
            i <= a@.len(),
            forall|j: int| 0 <= j < i ==> a@[j] == b@[j],
        decreases a@.len() - i,
    {
        if a[i] != b[i] {
            return false;
        }
        i += 1;
    }
    assert(a@ =~= b@);
    true
}

/// Whether two 32-byte identifiers are equal.
pub fn same32(a: &[u8; 32], b: &[u8; 32]) -> (r: bool)
    ensures
        r == (*a == *b),
{
    let mut i: usize = 0;
    while i < 32
        invariant
            i <= 32,
            forall|j: int| 0 <= j < i ==> a@[j] == b@[j],
        decreases 32 - i,
    {
        if a[i] != b[i] {
            return false;
        }
        i += 1;
    }
    assert(*a =~= *b);
    true
}

/// Identifiers with the same bytes are the same identifier.
pub proof fn lemma_id_ext(a: [u8; 32], b: [u8; 32])
    ensures
        a@ == b@ <==> a == b,
{
    if a@ == b@ {
        assert forall|i: int| 0 <= i < 32 implies a[i] == b[i] by {
            assert(a@[i] == b@[i]);
        }
        assert(a =~= b);
    }
}

/// The identifier with given bytes.
pub open spec fn as_id(s: Seq<u8>) -> [u8; 32] {
    choose|a: [u8; 32]| a@ == s
}

/// The identifier with the bytes of an identifier is that one.
pub proof fn lemma_as_id(a: [u8; 32])
    ensures
        as_id(a@) == a,
{
    lemma_id_ext(as_id(a@), a);
}

/// Whether `s` begins with `prefix`.
pub fn starts_with(s: &[u8], prefix: &[u8]) -> (r: bool)
    ensures
        r == prefix@.is_prefix_of(s@),
{
    if prefix.len() > s.len() {
        return false;
    }
    let mut i: usize = 0;
    while i < prefix.len()
        invariant
            prefix@.len() <= s@.len(),
            i <= prefix@.len(),
            forall|j: int| 0 <= j < i ==> prefix@[j] == s@[j],
        decreases prefix@.len() - i,
    {
        if prefix[i] != s[i] {
            assert(prefix@[i as int] != s@.subrange(0, prefix@.len() as int)[i as int]);
            return false;
        }
        i += 1;
    }
    assert(prefix@ =~= s@.subrange(0, prefix@.len() as int));
    true
}

/// A copy of a byte string.
pub fn copy_bytes(s: &[u8]) -> (r: Vec<u8>)
    ensures
        r@ == s@,
{
    let mut out: Vec<u8> = Vec::new();
    out.extend_from_slice(s);
    assert(out@ =~= s@);
    out
}

/// Appends `s` to `v`.
pub fn append_bytes(v: &mut Vec<u8>, s: &[u8])
    ensures
        final(v)@ == old(v)@ + s@,
{
    v.extend_from_slice(s);
    assert(v@ =~= old(v)@ + s@);
}

/// The 32 bytes of `s` from `at` on.
pub fn read32(s: &[u8], at: usize) -> (r: [u8; 32])
    requires
        at + 32 <= s@.len(),
    ensures
        r@ == s@.subrange(at as int, at + 32),
{
    let mut out: [u8; 32] = [0u8; 32];
    let len: usize = s.len();
    let mut i: usize = 0;
    while i < 32
        invariant
            i <= 32,
            at + 32 <= len,
            len == s@.len(),
            forall|j: int| 0 <= j < i ==> out@[j] == s@[at + j],
        decreases 32 - i,
    {
        out[i] = s[at + i];
        i += 1;
    }
    assert(out@ =~= s@.subrange(at as int, at + 32));
    out
}

/// The 20 bytes of `s` from `at` on.
pub fn read20(s: &[u8], at: usize) -> (r: [u8; 20])
    requires
        at + 20 <= s@.len(),
    ensures
        r@ == s@.subrange(at as int, at + 20),
{
    let mut out: [u8; 20] = [0u8; 20];
    let len: usize = s.len();
    let mut i: usize = 0;
    while i < 20
        invariant
            i <= 20,
            at + 20 <= len,
            len == s@.len(),
            forall|j: int| 0 <= j < i ==> out@[j] == s@[at + j],
        decreases 20 - i,
    {
        out[i] = s[at + i];
        i += 1;
    }
    assert(out@ =~= s@.subrange(at as int, at + 20));
    out
}

} // verus!
