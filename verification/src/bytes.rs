//! Byte strings and fixed-width integers.

use vstd::prelude::*;

verus! {

/// `v` in two's complement.
pub open spec fn signed_8(v: u8) -> i8 {
    if v < 0x80 {
        v as i8
    } else {
        (v - 0x100) as i8
    }
}

/// `v` in two's complement.
pub open spec fn signed_16(v: u16) -> i16 {
    if v < 0x8000 {
        v as i16
    } else {
        (v - 0x1_0000) as i16
    }
}

/// `v` in two's complement.
pub open spec fn signed_32(v: u32) -> i32 {
    if v < 0x8000_0000 {
        v as i32
    } else {
        (v - 0x1_0000_0000) as i32
    }
}

/// `v` in two's complement.
pub open spec fn signed_64(v: u64) -> i64 {
    if v < 0x8000_0000_0000_0000 {
        v as i64
    } else {
        (v - 0x1_0000_0000_0000_0000) as i64
    }
}

/// `v` modulo 2^32.
pub open spec fn low_32(v: int) -> u32 {
    (v % 0x1_0000_0000) as u32
}

/// `v` modulo 2^32, in two's complement.
pub open spec fn wrapped_i32(v: int) -> i32 {
    signed_32(low_32(v))
}

pub fn to_signed_8(v: u8) -> (r: i8)
    ensures
        r == signed_8(v),
{
    if v < 0x80 {
        v as i8
    } else {
        (v as i16 - 0x100) as i8
    }
}

pub fn to_signed_16(v: u16) -> (r: i16)
    ensures
        r == signed_16(v),
{
    if v < 0x8000 {
        v as i16
    } else {
        (v as i32 - 0x1_0000) as i16
    }
}

pub fn to_signed_32(v: u32) -> (r: i32)
    ensures
        r == signed_32(v),
{
    if v < 0x8000_0000 {
        v as i32
    } else {
        (v as i64 - 0x1_0000_0000) as i32
    }
}

pub fn to_signed_64(v: u64) -> (r: i64)
    ensures
        r == signed_64(v),
{
    if v < 0x8000_0000_0000_0000 {
        v as i64
    } else {
        (v as i128 - 0x1_0000_0000_0000_0000) as i64
    }
}

/// The low 32 bits of an unsigned number.
pub fn low_u32(v: u64) -> (r: u32)
    ensures
        r == low_32(v as int),
{
    (v % 0x1_0000_0000) as u32
}

/// The low 32 bits of a signed number.
pub fn low_u32_signed(v: i64) -> (r: u32)
    ensures
        r == low_32(v as int),
{
    if v >= 0 {
        (v as u64 % 0x1_0000_0000) as u32
    } else {
        let w: u64 = (v as i128 + 0x1_0000_0000_0000_0000) as u64;
        (w % 0x1_0000_0000) as u32
    }
}

/// An index as a 32-bit token id, wrapping beyond 32 bits.
pub fn wrap_to_i32(v: usize) -> (r: i32)
    ensures
        r == wrapped_i32(v as int),
        v <= i32::MAX ==> r == v,
{
    to_signed_32(low_u32(v as u64))
}

/// Append the bytes of `s`.
pub fn append_bytes(out: &mut Vec<u8>, s: &[u8])
    ensures
        final(out)@ == old(out)@ + s@,
{
    out.extend_from_slice(s);
    assert(out@ =~= old(out)@ + s@);
}

/// `prefix` stands at `pos` in `s`.
pub open spec fn is_at(s: Seq<u8>, pos: int, prefix: Seq<u8>) -> bool {
    pos + prefix.len() <= s.len() && s.subrange(pos, pos + prefix.len()) == prefix
}

/// Whether `prefix` stands at `pos` in `s`.
pub fn stands_at(s: &[u8], pos: usize, prefix: &[u8]) -> (r: bool)
    requires
        pos <= s.len(),
    ensures
        r == is_at(s@, pos as int, prefix@),
{
    if prefix.len() > s.len() - pos {
        return false;
    }
    let mut i: usize = 0;
    while i < prefix.len()
        invariant
            i <= prefix.len() <= s.len() - pos,
            forall|j: int| 0 <= j < i ==> s@[pos + j] == prefix@[j],
        decreases prefix.len() - i,
    {
        if s[pos + i] != prefix[i] {
            assert(s@.subrange(pos as int, pos + prefix@.len())[i as int] != prefix@[i as int]);
            return false;
        }
        i = i + 1;
    }
    assert(s@.subrange(pos as int, pos + prefix@.len()) =~= prefix@);
    true
}

/// Whether two byte strings are equal.
pub fn bytes_eq(a: &[u8], b: &[u8]) -> (r: bool)
    ensures
        r == (a@ == b@),
{
    if a.len() != b.len() {
        return false;
    }
    let r: bool = stands_at(a, 0, b);
    assert(a@.subrange(0, b@.len() as int) =~= a@);
    r
}

/// 256 to the power of `n`.
pub open spec fn pow256(n: nat) -> nat
    decreases n,
{
    if n == 0 {
        1
    } else {
        256 * pow256((n - 1) as nat)
    }
}

/// The number whose little-endian bytes are `s`.
pub open spec fn le_value(s: Seq<u8>) -> nat
    decreases s.len(),
{
    if s.len() == 0 {
        0
    } else {
        s[0] as nat + 256 * le_value(s.drop_first())
    }
}

/// The low `n` bytes of `v`, in little-endian order.
pub open spec fn le_bytes(v: nat, n: nat) -> Seq<u8>
    decreases n,
{
    if n == 0 {
        seq![]
    } else {
        seq![(v % 256) as u8] + le_bytes(v / 256, (n - 1) as nat)
    }
}

/// The powers of 256 that bound the fixed widths.
pub proof fn lemma_pow256()
    ensures
        pow256(0) == 1,
        pow256(1) == 0x100,
        pow256(2) == 0x1_0000,
        pow256(4) == 0x1_0000_0000,
        pow256(8) == 0x1_0000_0000_0000_0000,
{
    reveal_with_fuel(pow256, 9);
}

pub proof fn lemma_pow256_monotonic(a: nat, b: nat)
    requires
        a <= b,
    ensures
        0 < pow256(a) <= pow256(b),
    decreases b,
{
    if a < b {
        lemma_pow256_monotonic(a, (b - 1) as nat);
    } else if a > 0 {
        lemma_pow256_monotonic((a - 1) as nat, (b - 1) as nat);
    }
}

/// A number of `n` bytes is below 256 to the power of `n`.
pub proof fn lemma_le_value_bound(s: Seq<u8>)
    ensures
        le_value(s) < pow256(s.len()),
    decreases s.len(),
{
    if s.len() > 0 {
        lemma_le_value_bound(s.drop_first());
    }
}

pub proof fn lemma_le_bytes_len(v: nat, n: nat)
    ensures
        le_bytes(v, n).len() == n,
    decreases n,
{
    if n > 0 {
        lemma_le_bytes_len(v / 256, (n - 1) as nat);
    }
}

/// Reading the little-endian bytes of a number gives the number back.
pub proof fn lemma_le_round_trip(v: nat, n: nat)
    requires
        v < pow256(n),
    ensures
        le_value(le_bytes(v, n)) == v,
    decreases n,
{
    if n > 0 {
        let m = (n - 1) as nat;
        lemma_le_round_trip(v / 256, m);
        assert(le_bytes(v, n).drop_first() =~= le_bytes(v / 256, m));
    }
}

/// The number whose little-endian bytes are `s`.
pub fn le_u64(s: &[u8]) -> (v: u64)
    requires
        s.len() <= 8,
    ensures
        v == le_value(s@),
        v < pow256(s@.len()),
{
    let mut v: u64 = 0;
    let mut i: usize = s.len();
    assert(s@.skip(i as int) =~= Seq::<u8>::empty());
    while i > 0
        invariant
            i <= s.len() <= 8,
            v == le_value(s@.skip(i as int)),
        decreases i,
    {
        i = i - 1;
        let ghost rest = s@.skip(i + 1);
        proof {
            lemma_le_value_bound(rest);
            lemma_pow256_monotonic(rest.len(), 7);
            reveal_with_fuel(pow256, 8);
            assert(s@.skip(i as int).drop_first() =~= rest);
        }
        v = v * 256 + s[i] as u64;
    }
    proof {
        lemma_le_value_bound(s@);
        assert(s@.skip(0) =~= s@);
    }
    v
}

/// Append the low `n` bytes of `v`, in little-endian order.
pub fn put_le(out: &mut Vec<u8>, v: u64, n: usize)
    ensures
        final(out)@ == old(out)@ + le_bytes(v as nat, n as nat),
    decreases n,
{
    if n > 0 {
        out.push((v % 256) as u8);
        put_le(out, v / 256, n - 1);
    }
    assert(out@ =~= old(out)@ + le_bytes(v as nat, n as nat));
}

/// A number that fits in 32 bits with a sign stays as it is, and any number keeps
/// what it is modulo 2^32.
pub proof fn lemma_wrapped(v: int)
    ensures
        i32::MIN <= v <= i32::MAX ==> wrapped_i32(v) == v,
        (wrapped_i32(v) - v) % 0x1_0000_0000 == 0,
        (low_32(v) - v) % 0x1_0000_0000 == 0,
{
}

/// Two's complement: the same bits, as a number with a sign.
pub proof fn lemma_signed(a: u8, b: u16, c: u32, d: u64)
    ensures
        (signed_8(a) - a) % 0x100 == 0,
        signed_8(a) < 0 <==> a >= 0x80,
        (signed_16(b) - b) % 0x1_0000 == 0,
        signed_16(b) < 0 <==> b >= 0x8000,
        (signed_32(c) - c) % 0x1_0000_0000 == 0,
        signed_32(c) < 0 <==> c >= 0x8000_0000,
        (signed_64(d) - d) % 0x1_0000_0000_0000_0000 == 0,
        signed_64(d) < 0 <==> d >= 0x8000_0000_0000_0000,
{
}

/// Little-endian: the first byte counts once, and what follows 256 times.
pub proof fn lemma_le_first(s: Seq<u8>, b: u8)
    ensures
        le_value(Seq::<u8>::empty()) == 0,
        le_value(seq![b] + s) == b + 256 * le_value(s),
{
    assert((seq![b] + s).drop_first() =~= s);
}

} // verus!
