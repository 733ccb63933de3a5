//! GPT-2 byte to code point mapping.
//!
//! Byte-level BPE maps every input byte to a printable Unicode code point
//! before merging, so that the merge alphabet is plain UTF-8 and no byte loses
//! its identity.

use vstd::prelude::*;
use vstd::utf8::{
    decode_utf8, encode_scalar, encode_utf8, is_scalar, valid_utf8,
};

verus! {

/// Number of bytes that a UTF-8 sequence starting with `c` announces; bytes
/// that start no sequence count for themselves alone.
pub open spec fn utf8_width(c: u8) -> int {
    if 0xc0 <= c <= 0xdf {
        2
    } else if 0xe0 <= c <= 0xef {
        3
    } else if 0xf0 <= c <= 0xf7 {
        4
    } else {
        1
    }
}

/// The UTF-8 bit layout of `cp`, in the shortest form that holds it.
pub open spec fn utf8_of(cp: u32) -> Seq<u8> {
    if cp <= 0x7f {
        seq![cp as u8]
    } else if cp <= 0x7ff {
        seq![0xc0 | (cp >> 6) as u8, 0x80 | (cp & 0x3f) as u8]
    } else if cp <= 0xffff {
        seq![0xe0 | (cp >> 12) as u8, 0x80 | ((cp >> 6) & 0x3f) as u8, 0x80 | (cp & 0x3f) as u8]
    } else {
        seq![
            0xf0 | (cp >> 18) as u8,
            0x80 | ((cp >> 12) & 0x3f) as u8,
            0x80 | ((cp >> 6) & 0x3f) as u8,
            0x80 | (cp & 0x3f) as u8,
        ]
    }
}

/// A byte that stands for itself: printable Latin-1 without the space, the
/// no-break space and the soft hyphen.
pub open spec fn is_plain(b: u8) -> bool {
    33 <= b <= 126 || 161 <= b <= 172 || b >= 174
}

/// The code point that stands for byte `b`. The bytes that do not stand for
/// themselves take the code points from 256 on, in byte order.
pub open spec fn codepoint_of(b: u8) -> u32 {
    if is_plain(b) {
        b as u32
    } else if b <= 32 {
        (256 + b) as u32
    } else if b <= 160 {
        (256 + 33 + (b - 127)) as u32
    } else {
        323
    }
}

/// The byte-encoded symbol of `b`: its code point in UTF-8.
pub open spec fn symbol_of(b: u8) -> Seq<u8> {
    utf8_of(codepoint_of(b))
}

/// The byte-encoded form of `bytes`: the symbols of its bytes, in order.
pub open spec fn encoded(bytes: Seq<u8>) -> Seq<u8>
    decreases bytes.len(),
{
    if bytes.len() == 0 {
        seq![]
    } else {
        encoded(bytes.drop_last()) + symbol_of(bytes.last())
    }
}

/// The characters that stand for `bytes`.
pub open spec fn mapped_chars(bytes: Seq<u8>) -> Seq<char> {
    bytes.map_values(|b: u8| codepoint_of(b) as char)
}

/// Number of bytes that a UTF-8 sequence starting with `c` announces.
pub fn utf8_len_from_first_byte(c: u8) -> (n: usize)
    ensures
        n == utf8_width(c),
{
    assert((c & 0xe0 == 0xc0 <==> 0xc0 <= c <= 0xdf) && (c & 0xf0 == 0xe0 <==> 0xe0 <= c <= 0xef)
        && (c & 0xf8 == 0xf0 <==> 0xf0 <= c <= 0xf7)) by (bit_vector);
    if c < 0x80 {
        1
    } else if c & 0xe0 == 0xc0 {
        2
    } else if c & 0xf0 == 0xe0 {
        3
    } else if c & 0xf8 == 0xf0 {
        4
    } else {
        1
    }
}

/// Append the UTF-8 encoding of `cp` to `out`.
pub fn utf8_put(out: &mut Vec<u8>, cp: u32)
    ensures
        final(out)@ == old(out)@ + utf8_of(cp),
        is_scalar(cp) ==> final(out)@ == old(out)@ + encode_scalar(cp),
{
    proof {
        if is_scalar(cp) {
            lemma_utf8_of_scalar(cp);
        }
    }
    assert((cp <= 0x7ff ==> (cp >> 6) <= 0xff) && (cp <= 0xffff ==> (cp >> 12) <= 0xff) && ((cp
        >> 12) & 0x3f) <= 0xff && ((cp >> 6) & 0x3f) <= 0xff && (cp & 0x3f) <= 0xff)
        by (bit_vector);
    if cp <= 0x7f {
        out.push(cp as u8);
    } else if cp <= 0x7ff {
        out.push(0xc0 | (cp >> 6) as u8);
        out.push(0x80 | (cp & 0x3f) as u8);
    } else if cp <= 0xffff {
        out.push(0xe0 | (cp >> 12) as u8);
        out.push(0x80 | ((cp >> 6) & 0x3f) as u8);
        out.push(0x80 | (cp & 0x3f) as u8);
    } else {
        out.push(0xf0 | #[verifier::truncate] ((cp >> 18) as u8));
        out.push(0x80 | ((cp >> 12) & 0x3f) as u8);
        out.push(0x80 | ((cp >> 6) & 0x3f) as u8);
        out.push(0x80 | (cp & 0x3f) as u8);
    }
    assert(out@ =~= old(out)@ + utf8_of(cp));
}

/// On Unicode scalar values the layout is UTF-8.
pub proof fn lemma_utf8_of_scalar(cp: u32)
    requires
        is_scalar(cp),
    ensures
        utf8_of(cp) == encode_scalar(cp),
{
    assert((cp <= 0x7f ==> cp as u8 == (cp & 0x7f) as u8) && (cp <= 0x7ff ==> 0xc0 | (cp >> 6) as u8
        == 0xc0 | ((cp >> 6) & 0x1f) as u8) && (cp <= 0xffff ==> 0xe0 | (cp >> 12) as u8 == 0xe0 | ((
    cp >> 12) & 0x0f) as u8) && (cp <= 0x1fffff ==> 0xf0 | (cp >> 18) as u8 == 0xf0 | ((cp >> 18)
        & 0x07) as u8)) by (bit_vector);
    assert(utf8_of(cp) =~= encode_scalar(cp));
}

/// The code point that stands for byte `b`: printable bytes stand for
/// themselves, the others are shifted to 256 and above.
pub fn byte_to_codepoint(b: u8) -> (cp: u32)
    ensures
        cp == codepoint_of(b),
{
    if (33 <= b && b <= 126) || (161 <= b && b <= 172) || b >= 174 {
        return b as u32;
    }
    let mut n: u32 = 0;
    let mut x: u32 = 0;
    while x < 256
        invariant
            x <= 256,
            !is_plain(b),
            b as u32 >= x,
            n == if x <= 33 {
                x
            } else if x <= 127 {
                33
            } else if x <= 161 {
                (33 + (x - 127)) as u32
            } else {
                67
            },
        decreases 256 - x,
    {
        let xb: u8 = x as u8;
        if !((33 <= xb && xb <= 126) || (161 <= xb && xb <= 172) || xb >= 174) {
            if xb == b {
                return 256 + n;
            }
            n = n + 1;
        }
        x = x + 1;
    }
    b as u32
}

/// Encode `bytes` with the GPT-2 byte mapping.
pub fn byte_encode(bytes: &[u8]) -> (out: Vec<u8>)
    ensures
        out@ == encoded(bytes@),
{
    let mut out: Vec<u8> = Vec::new();
    let mut i: usize = 0;
    while i < bytes.len()
        invariant
            i <= bytes.len(),
            out@ == encoded(bytes@.take(i as int)),
        decreases bytes.len() - i,
    {
        utf8_put(&mut out, byte_to_codepoint(bytes[i]));
        i = i + 1;
        assert(bytes@.take(i as int).drop_last() =~= bytes@.take(i - 1));
    }
    assert(bytes@.take(i as int) =~= bytes@);
    out
}

/// Inverse of `byte_to_codepoint`, as a table over the code points below 320.
/// The remapped bytes 158, 159, 160 and 173, whose code points are 320 to 323, lie
/// outside the table.
pub fn codepoint_to_byte_table() -> (t: [Option<u8>; 320])
    ensures
        forall|cp: int|
            0 <= cp < 320 ==> match #[trigger] t@[cp] {
                Some(b) => codepoint_of(b) == cp,
                None => forall|b: u8| codepoint_of(b) != cp,
            },
{
    let mut t: [Option<u8>; 320] = [None;320];
    let mut b: u32 = 0;
    while b < 256
        invariant
            b <= 256,
            forall|cp: int|
                0 <= cp < 320 ==> match #[trigger] t@[cp] {
                    Some(v) => codepoint_of(v) == cp && v < b,
                    None => forall|v: u8| v < b ==> codepoint_of(v) != cp,
                },
        decreases 256 - b,
    {
        let cp: usize = byte_to_codepoint(b as u8) as usize;
        if cp < 320 {
            t[cp] = Some(b as u8);
        }
        b = b + 1;
    }
    t
}

/// Different bytes have different code points, so the mapping loses nothing.
pub proof fn lemma_codepoint_injective(a: u8, b: u8)
    ensures
        codepoint_of(a) == codepoint_of(b) ==> a == b,
{
}

/// Every byte's code point is below 324, and the remapped ones start at 256.
pub proof fn lemma_codepoint_range(b: u8)
    ensures
        codepoint_of(b) < 324,
        is_plain(b) <==> codepoint_of(b) < 256,
        is_scalar(codepoint_of(b)),
{
}

/// A symbol announces its own length: it is one or two bytes long.
pub proof fn lemma_symbol_width(b: u8)
    ensures
        symbol_of(b).len() == utf8_width(symbol_of(b)[0]),
        1 <= symbol_of(b).len() <= 2,
{
    let cp = codepoint_of(b);
    assert(0x80 <= cp && cp <= 0x7ff ==> 0xc0 <= 0xc0u8 | (cp >> 6) as u8 && 0xc0u8 | (cp >> 6) as u8
        <= 0xdf) by (bit_vector);
}

/// Encoding a concatenation is concatenating the encodings.
pub proof fn lemma_encoded_concat(a: Seq<u8>, b: Seq<u8>)
    ensures
        encoded(a + b) == encoded(a) + encoded(b),
    decreases b.len(),
{
    if b.len() == 0 {
        assert(a + b =~= a);
        assert(encoded(a) + encoded(b) =~= encoded(a));
    } else {
        lemma_encoded_concat(a, b.drop_last());
        assert((a + b).drop_last() =~= a + b.drop_last());
        assert(encoded(a + b) =~= encoded(a) + encoded(b));
    }
}

/// The byte-encoded form of any bytes is the UTF-8 text of their mapped
/// characters: it is valid UTF-8 and decodes to one character per byte.
pub proof fn lemma_encoded_is_utf8(bytes: Seq<u8>)
    ensures
        encoded(bytes) == encode_utf8(mapped_chars(bytes)),
        valid_utf8(encoded(bytes)),
        decode_utf8(encoded(bytes)) == mapped_chars(bytes),
    decreases bytes.len(),
{
    if bytes.len() > 0 {
        let head = seq![bytes[0]];
        let rest = bytes.drop_first();
        let cp = codepoint_of(bytes[0]);
        lemma_encoded_is_utf8(rest);
        assert(bytes =~= head + rest);
        lemma_encoded_concat(head, rest);
        assert(head.drop_last() =~= Seq::<u8>::empty());
        assert(encoded(head) =~= symbol_of(bytes[0])) by {
            reveal_with_fuel(encoded, 2);
        }
        lemma_utf8_of_scalar(cp);
        assert((cp as char) as u32 == cp);
        assert(mapped_chars(bytes).drop_first() =~= mapped_chars(rest));
    }
    vstd::utf8::encode_utf8_valid_utf8(mapped_chars(bytes));
    vstd::utf8::encode_utf8_decode_utf8(mapped_chars(bytes));
}

/// Byte encoding loses nothing: different inputs have different encodings.
pub proof fn lemma_encoded_injective(a: Seq<u8>, b: Seq<u8>)
    requires
        encoded(a) == encoded(b),
    ensures
        a == b,
{
    lemma_encoded_is_utf8(a);
    lemma_encoded_is_utf8(b);
    assert(a.len() == mapped_chars(a).len() && b.len() == mapped_chars(b).len());
    assert forall|i: int| 0 <= i < a.len() implies a[i] == b[i] by {
        assert(mapped_chars(a)[i] as u32 == codepoint_of(a[i]));
        assert(mapped_chars(b)[i] as u32 == codepoint_of(b[i]));
    }
    assert(a =~= b);
}

/// A byte that stands for itself: printable ASCII, and the printable upper half of
/// Latin-1.
pub open spec fn printable(b: u8) -> bool {
    0x21 <= b <= 0x7e || 0xa1 <= b <= 0xac || 0xae <= b
}

/// The number of bytes below `n` that do not stand for themselves.
pub open spec fn unprintable_below(n: int) -> int
    decreases n,
{
    if n <= 0 {
        0
    } else if printable((n - 1) as u8) {
        unprintable_below(n - 1)
    } else {
        unprintable_below(n - 1) + 1
    }
}

proof fn lemma_unprintable_below(n: int)
    requires
        0 <= n <= 255,
    ensures
        unprintable_below(n) == if n <= 33 {
            n
        } else if n <= 127 {
            33
        } else if n <= 161 {
            33 + (n - 127)
        } else if n <= 173 {
            67
        } else {
            68
        },
    decreases n,
{
    if n > 0 {
        lemma_unprintable_below(n - 1);
    }
}

/// A printable byte has its own code point; of the others, each has the next code
/// point from 256 on, in the order of the bytes.
pub proof fn lemma_codepoints(b: u8)
    ensures
        printable(b) ==> codepoint_of(b) == b,
        !printable(b) ==> codepoint_of(b) == 256 + unprintable_below(b as int),
{
    lemma_unprintable_below(b as int);
}

/// The symbol of a byte, in bytes: code points below 128 take one byte, the others
/// two, of which the second holds the low six bits.
pub proof fn lemma_symbol_bytes(b: u8)
    ensures
        ({
            let cp = codepoint_of(b) as int;
            &&& cp < 128 ==> symbol_of(b) == seq![cp as u8]
            &&& cp >= 128 ==> symbol_of(b) == seq![(0xc0 + cp / 64) as u8, (0x80 + cp % 64) as u8]
        }),
{
    let cp = codepoint_of(b);
    assert(cp < 0x800 ==> (0xc0u8 | (cp >> 6) as u8) as u32 == 0xc0 + cp / 64 && (0x80u8 | (cp
        & 0x3f) as u8) as u32 == 0x80 + cp % 64) by (bit_vector);
    if cp < 128 {
        assert(symbol_of(b) =~= seq![cp as u8]);
    } else {
        assert(symbol_of(b) =~= seq![(0xc0 + cp / 64) as u8, (0x80 + cp % 64) as u8]);
    }
}

/// Encoding goes byte by byte.
pub proof fn lemma_encoded_push(bytes: Seq<u8>, b: u8)
    ensures
        encoded(Seq::<u8>::empty()) == Seq::<u8>::empty(),
        encoded(bytes.push(b)) == encoded(bytes) + symbol_of(b),
{
    assert(bytes.push(b).drop_last() =~= bytes);
}

} // verus!
