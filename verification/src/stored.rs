//! What the stored bytes of quantized weights mean.
//!
//! The elements of a block and the sums that a row dot is made of are held
//! against the bytes of the block as they stand in a file.

use crate::bytes::{le_bytes, le_value, lemma_le_bytes_len, pow256, signed_16, signed_8};
use crate::dequant::{iq2_lane, q2k_lane, q4k_lane, signed_byte};
use crate::dot::{pair_dot, q2_dot, two_bits};
use crate::matvec::{is_block_dot, q8_0_term, row_bytes, BlockDot};
use crate::matvec_q::{
    grid_index, iq2_grid_word, iq2_row, iq2_scale, iq2_sign_word, iq2_sum, iq2_term, is_q2k_sums,
    is_q4k_group, q2k_min_term, q2k_term, sign_index, BlockSums, GroupSums,
};
use crate::quant::{block_bytes, word_at, Block, BlockIQ2XXS, BlockQ2K, BlockQ4K, BlockQ8K};
use crate::sums::{lemma_total_linear, lemma_total_same, total};
use vstd::prelude::*;

verus! {

/// A 16-bit number takes two bytes, the low one first.
proof fn lemma_word_bytes(b: Seq<u8>, pos: int)
    requires
        0 <= pos,
        pos + 2 <= b.len(),
    ensures
        word_at(b, pos) == b[pos] + 256 * b[pos + 1],
{
    let s = b.subrange(pos, pos + 2);
    reveal_with_fuel(le_value, 3);
    assert(s.drop_first().drop_first() =~= Seq::<u8>::empty());
}

/// A stored `Q2_K` block: 16 bytes of scales, 64 bytes of quants, and two
/// half-precision numbers, the scale and the minimum.
pub proof fn lemma_q2k_layout(blk: BlockQ2K, b: Seq<u8>)
    requires
        b.len() == 84,
        blk.is_held(b),
    ensures
        forall|i: int| 0 <= i < 16 ==> #[trigger] blk.scales@[i] == b[i],
        forall|i: int| 0 <= i < 64 ==> #[trigger] blk.qs@[i] == b[16 + i],
        blk.d == b[80] + 256 * b[81],
        blk.dmin == b[82] + 256 * b[83],
        BlockQ2K::bytes() == 84,
{
    lemma_word_bytes(b, 80);
    lemma_word_bytes(b, 82);
}

/// A stored `Q4_K` block: two half-precision numbers, the scale and the minimum,
/// then 12 bytes of scales and 128 bytes of quants.
pub proof fn lemma_q4k_layout(blk: BlockQ4K, b: Seq<u8>)
    requires
        b.len() == 144,
        blk.is_held(b),
    ensures
        blk.d == b[0] + 256 * b[1],
        blk.dmin == b[2] + 256 * b[3],
        forall|i: int| 0 <= i < 12 ==> #[trigger] blk.scales@[i] == b[4 + i],
        forall|i: int| 0 <= i < 128 ==> #[trigger] blk.qs@[i] == b[16 + i],
        BlockQ4K::bytes() == 144,
{
    lemma_word_bytes(b, 0);
    lemma_word_bytes(b, 2);
}

/// A stored `IQ2_XXS` block: a half-precision number, then 32 words of two bytes.
pub proof fn lemma_iq2_layout(blk: BlockIQ2XXS, b: Seq<u8>)
    requires
        b.len() == 66,
        blk.is_held(b),
    ensures
        blk.d == b[0] + 256 * b[1],
        forall|i: int| 0 <= i < 32 ==> #[trigger] blk.qs@[i] == b[2 + 2 * i] + 256 * b[3 + 2 * i],
        BlockIQ2XXS::bytes() == 66,
{
    lemma_word_bytes(b, 0);
    assert forall|i: int| 0 <= i < 32 implies #[trigger] blk.qs@[i] == b[2 + 2 * i] + 256 * b[3 + 2
        * i] by {
        lemma_word_bytes(b, 2 + 2 * i);
    }
}

/// A stored `Q8_K` block: a single-precision number, 256 signed bytes, then 16
/// signed sums of two bytes.
pub proof fn lemma_q8k_layout(blk: BlockQ8K, b: Seq<u8>)
    requires
        b.len() == 292,
        blk.is_held(b),
    ensures
        blk.d == b[0] + 256 * b[1] + 0x1_0000 * b[2] + 0x100_0000 * b[3],
        forall|i: int|
            0 <= i < 256 ==> (#[trigger] blk.qs@[i] as int - b[4 + i] as int) % 256 == 0,
        forall|i: int|
            0 <= i < 16 ==> (#[trigger] blk.bsums@[i] as int - (b[260 + 2 * i] + 256 * b[261 + 2
                * i])) % 0x1_0000 == 0,
        BlockQ8K::bytes() == 292,
{
    let s = b.subrange(0, 4);
    reveal_with_fuel(le_value, 5);
    assert(s.drop_first().drop_first().drop_first().drop_first() =~= Seq::<u8>::empty());
    assert forall|i: int| 0 <= i < 256 implies (#[trigger] blk.qs@[i] as int - b[4 + i] as int)
        % 256 == 0 by {
        assert(blk.qs@[i] == signed_8(b[4 + i]));
    }
    assert forall|i: int| 0 <= i < 16 implies (#[trigger] blk.bsums@[i] as int - (b[260 + 2 * i]
        + 256 * b[261 + 2 * i])) % 0x1_0000 == 0 by {
        lemma_word_bytes(b, 260 + 2 * i);
        assert(blk.bsums@[i] == signed_16(word_at(b, 260 + 2 * i)));
    }
}

/// Element `l` of a stored `Q4_K` block, where its two numbers are `d` and `m`.
/// The scales of the four groups of 64 are the low six bits of the bytes behind
/// the two numbers, the minima those of the next four; the quants are half
/// bytes, 32 low ones and then the 32 high ones of the same bytes.
pub open spec fn q4k_element(b: Seq<u8>, l: int, d: int, m: int) -> int {
    let byte = b[16 + 32 * (l / 64) + l % 32] as int;
    let q = if l % 64 < 32 {
        byte % 16
    } else {
        byte / 16
    };
    d * ((b[4 + l / 64] as int % 64) * q) - m * (b[8 + l / 64] as int % 64)
}

/// The integers of every element of a `Q4_K` block, in its stored bytes.
pub proof fn lemma_q4k_stored(blk: BlockQ4K, b: Seq<u8>, l: int, d: int, m: int)
    requires
        b.len() == 144,
        blk.is_held(b),
        0 <= l < 256,
    ensures
        q4k_lane(blk, l).scale == b[4 + l / 64] % 64,
        q4k_lane(blk, l).min == b[8 + l / 64] % 64,
        d * (q4k_lane(blk, l).scale * q4k_lane(blk, l).q) - m * q4k_lane(blk, l).min
            == q4k_element(b, l, d, m),
{
    lemma_q4k_layout(blk, b);
    assert(blk.scales@[l / 64] == b[4 + l / 64]);
    assert(blk.scales@[l / 64 + 4] == b[4 + (l / 64 + 4)]);
    assert(blk.qs@[32 * (l / 64) + l % 32] == b[16 + (32 * (l / 64) + l % 32)]);
}

/// Every byte of quants of a `Q4_K` block holds two elements that are 32 apart:
/// together they are the byte.
pub proof fn lemma_q4k_quant_byte(blk: BlockQ4K, b: Seq<u8>, j: int)
    requires
        b.len() == 144,
        blk.is_held(b),
        0 <= j < 128,
    ensures
        q4k_lane(blk, 64 * (j / 32) + j % 32).q + 16 * q4k_lane(blk, 64 * (j / 32) + 32 + j % 32).q
            == b[16 + j],
        q4k_lane(blk, 64 * (j / 32) + j % 32).q < 16,
{
    lemma_q4k_layout(blk, b);
    let (l, h) = (64 * (j / 32) + j % 32, 64 * (j / 32) + 32 + j % 32);
    assert(l / 64 == j / 32 && l % 32 == j % 32 && l % 64 == j % 32);
    assert(h / 64 == j / 32 && h % 32 == j % 32 && h % 64 == 32 + j % 32);
    assert(blk.qs@[j] == b[16 + j]);
}

/// The last four of the scale bytes of a `Q4_K` block mean nothing: blocks that
/// differ only there have the same elements and the same sums.
pub proof fn lemma_q4k_unused(x: BlockQ4K, y: BlockQ4K, xq: Seq<i8>, is: int, r: GroupSums)
    requires
        x.qs@ == y.qs@,
        forall|i: int| 0 <= i < 8 ==> #[trigger] x.scales@[i] == y.scales@[i],
        xq.len() == 256,
        0 <= is < 4,
    ensures
        forall|l: int| 0 <= l < 256 ==> #[trigger] q4k_lane(x, l) == q4k_lane(y, l),
        is_q4k_group(x, xq, is, r) == is_q4k_group(y, xq, is, r),
{
    assert forall|l: int| 0 <= l < 256 implies #[trigger] q4k_lane(x, l) == q4k_lane(y, l) by {
        assert(x.scales@[l / 64] == y.scales@[l / 64]);
        assert(x.scales@[l / 64 + 4] == y.scales@[l / 64 + 4]);
    }
    let f = |l: int| q4k_lane(x, l).q * xq[l];
    let g = |l: int| q4k_lane(y, l).q * xq[l];
    lemma_total_same(f, g, 64 * is, 64 * is + 64);
    if is_q4k_group(x, xq, is, r) {
        assert forall|l: int| 64 * is <= l < 64 * is + 64 implies (#[trigger] q4k_lane(y, l)).scale
            == r.scale && q4k_lane(y, l).min == r.min by {
            assert(q4k_lane(x, l).scale == r.scale);
        }
    }
    if is_q4k_group(y, xq, is, r) {
        assert forall|l: int| 64 * is <= l < 64 * is + 64 implies (#[trigger] q4k_lane(x, l)).scale
            == r.scale && q4k_lane(x, l).min == r.min by {
            assert(q4k_lane(y, l).scale == r.scale);
        }
    }
}

/// The sums of a group of a `Q4_K` block give the dot product of its elements with
/// the activations: scaled by the two numbers of the block, they are the sum of
/// each stored element times its activation.
pub proof fn lemma_q4k_group_dot(
    blk: BlockQ4K,
    b: Seq<u8>,
    xq: Seq<i8>,
    is: int,
    r: GroupSums,
    d: int,
    m: int,
)
    requires
        b.len() == 144,
        blk.is_held(b),
        xq.len() == 256,
        0 <= is < 4,
        is_q4k_group(blk, xq, is, r),
    ensures
        r.scale == b[4 + is] % 64,
        r.min == b[8 + is] % 64,
        d * r.scale * r.isum - m * r.min * r.bsum == total(
            |l: int| q4k_element(b, l, d, m) * xq[l],
            64 * is,
            64 * is + 64,
        ),
{
    let (lo, hi) = (64 * is, 64 * is + 64);
    let h = |l: int| q4k_element(b, l, d, m) * xq[l];
    let f = |l: int| q4k_lane(blk, l).q * xq[l];
    let g = |l: int| xq[l] as int;
    lemma_q4k_stored(blk, b, lo, d, m);
    assert(q4k_lane(blk, lo).scale == r.scale);
    assert(lo / 64 == is);
    let (p, q) = (d * r.scale, -(m * r.min));
    assert forall|l: int| lo <= l < hi implies #[trigger] h(l) == p * f(l) + q * g(l) by {
        lemma_q4k_stored(blk, b, l, d, m);
        let lane = q4k_lane(blk, l);
        assert(lane.scale == r.scale && lane.min == r.min);
        let (s, k, v, x) = (r.scale as int, r.min as int, lane.q as int, xq[l] as int);
        assert((d * (s * v) - m * k) * x == (d * s) * (v * x) + (-(m * k)) * x)
            by (nonlinear_arith);
    }
    lemma_total_linear(h, f, g, p, q, lo, hi);
    let (k, c) = (m * r.min, r.bsum as int);
    assert((-k) * c == -(k * c)) by (nonlinear_arith);
}

/// The two-bit field number `s` of a byte.
pub open spec fn quarter(byte: u8, s: int) -> int {
    if s == 0 {
        byte as int % 4
    } else if s == 1 {
        (byte as int / 4) % 4
    } else if s == 2 {
        (byte as int / 16) % 4
    } else {
        byte as int / 64
    }
}

proof fn lemma_two_bits(byte: u8, s: int)
    requires
        0 <= s < 4,
    ensures
        two_bits(byte, (2 * s) as u32) == quarter(byte, s),
{
    let b = byte;
    assert((b >> (0u32 & 7)) & 3 == b % 4 && (b >> (2u32 & 7)) & 3 == (b / 4) % 4 && (b >> (4u32
        & 7)) & 3 == (b / 16) % 4 && (b >> (6u32 & 7)) & 3 == b / 64) by (bit_vector);
}

/// Element `l` of a stored `Q2_K` block, where its two numbers are `d` and `m`. Of
/// each scale byte, which 16 elements share, the low half is the scale and the
/// high half the minimum; 128 elements share 32 bytes of quants.
pub open spec fn q2k_element(b: Seq<u8>, l: int, d: int, m: int) -> int {
    let q = quarter(b[16 + 32 * (l / 128) + l % 32], (l % 128) / 32);
    d * ((b[l / 16] as int % 16) * q) - m * (b[l / 16] as int / 16)
}

/// The integers of every element of a `Q2_K` block, in its stored bytes.
pub proof fn lemma_q2k_stored(blk: BlockQ2K, b: Seq<u8>, l: int, d: int, m: int)
    requires
        b.len() == 84,
        blk.is_held(b),
        0 <= l < 256,
    ensures
        q2k_lane(blk, l).scale == b[l / 16] % 16,
        q2k_lane(blk, l).min == b[l / 16] / 16,
        q2k_lane(blk, l).q == quarter(b[16 + 32 * (l / 128) + l % 32], (l % 128) / 32),
        d * (q2k_lane(blk, l).scale * q2k_lane(blk, l).q) - m * q2k_lane(blk, l).min
            == q2k_element(b, l, d, m),
{
    lemma_q2k_layout(blk, b);
    assert(blk.scales@[l / 16] == b[l / 16]);
    assert(blk.qs@[32 * (l / 128) + l % 32] == b[16 + (32 * (l / 128) + l % 32)]);
    lemma_two_bits(b[16 + 32 * (l / 128) + l % 32], (l % 128) / 32);
}

/// Every byte of quants of a `Q2_K` block holds four elements that are 32 apart:
/// together they are the byte.
pub proof fn lemma_q2k_quant_byte(blk: BlockQ2K, b: Seq<u8>, j: int)
    requires
        b.len() == 84,
        blk.is_held(b),
        0 <= j < 64,
    ensures
        ({
            let l = 128 * (j / 32) + j % 32;
            q2k_lane(blk, l).q + 4 * q2k_lane(blk, l + 32).q + 16 * q2k_lane(blk, l + 64).q + 64
                * q2k_lane(blk, l + 96).q == b[16 + j]
        }),
{
    lemma_q2k_field(blk, b, j, 0);
    lemma_q2k_field(blk, b, j, 1);
    lemma_q2k_field(blk, b, j, 2);
    lemma_q2k_field(blk, b, j, 3);
    lemma_quarters(b[16 + j]);
}

proof fn lemma_quarters(byte: u8)
    ensures
        quarter(byte, 0) + 4 * quarter(byte, 1) + 16 * quarter(byte, 2) + 64 * quarter(byte, 3)
            == byte,
{
}

proof fn lemma_q2k_field(blk: BlockQ2K, b: Seq<u8>, j: int, s: int)
    requires
        b.len() == 84,
        blk.is_held(b),
        0 <= j < 64,
        0 <= s < 4,
    ensures
        q2k_lane(blk, 128 * (j / 32) + j % 32 + 32 * s).q == quarter(b[16 + j], s),
{
    let l = 128 * (j / 32) + j % 32 + 32 * s;
    assert(l / 128 == j / 32 && l % 32 == j % 32 && (l % 128) / 32 == s);
    assert(16 + 32 * (j / 32) + j % 32 == 16 + j);
    lemma_q2k_stored(blk, b, l, 0, 0);
}

/// The sums of a `Q2_K` block give the dot product of its elements with the
/// activations.
pub proof fn lemma_q2k_dot(blk: BlockQ2K, b: Seq<u8>, xq: Seq<i8>, r: BlockSums, d: int, m: int)
    requires
        b.len() == 84,
        blk.is_held(b),
        xq.len() == 256,
        is_q2k_sums(blk, xq, r),
    ensures
        d * r.isum - m * r.summs == total(|l: int| q2k_element(b, l, d, m) * xq[l], 0, 256),
{
    let h = |l: int| q2k_element(b, l, d, m) * xq[l];
    let f = |l: int| q2k_term(blk, xq, l);
    let g = |l: int| q2k_min_term(blk, xq, l);
    assert forall|l: int| 0 <= l < 256 implies #[trigger] h(l) == d * f(l) + (-m) * g(l) by {
        lemma_q2k_stored(blk, b, l, d, m);
        let lane = q2k_lane(blk, l);
        let (s, k, v, x) = (lane.scale as int, lane.min as int, lane.q as int, xq[l] as int);
        assert((d * (s * v) - m * k) * x == d * (s * (v * x)) + (-m) * (k * x))
            by (nonlinear_arith);
    }
    lemma_total_linear(h, f, g, d, -m, 0, 256);
    let c = r.summs as int;
    assert((-m) * c == -(m * c)) by (nonlinear_arith);
}

/// The 32 elements `ib` of a stored `IQ2_XXS` block take eight bytes: four grid
/// indices, then a number of four bytes that is made of four sign indices of seven
/// bits and, on top, a number of four bits that the scale is one more than twice.
pub proof fn lemma_iq2_stored(blk: BlockIQ2XXS, b: Seq<u8>, ib: int)
    requires
        b.len() == 66,
        blk.is_held(b),
        0 <= ib < 8,
    ensures
        ({
            let p = 2 + 8 * ib;
            let (a0, a1) = (iq2_grid_word(blk, ib), iq2_sign_word(blk, ib));
            &&& grid_index(a0, 0) == b[p]
            &&& grid_index(a0, 1) == b[p + 1]
            &&& grid_index(a0, 2) == b[p + 2]
            &&& grid_index(a0, 3) == b[p + 3]
            &&& sign_index(a1, 0) + 128 * sign_index(a1, 1) + 16384 * sign_index(a1, 2) + 0x20_0000
                * sign_index(a1, 3) + 0x800_0000 * (iq2_scale(blk, ib) - 1) == b[p + 4] + 256 * b[p
                + 5] + 0x1_0000 * b[p + 6] + 0x100_0000 * b[p + 7]
            &&& forall|k: int| 0 <= k < 4 ==> 0 <= #[trigger] sign_index(a1, k) < 128
            &&& iq2_scale(blk, ib) % 2 == 1
            &&& 0 < iq2_scale(blk, ib) < 32
        }),
{
    lemma_iq2_words(blk, b, ib);
    let p = 2 + 8 * ib;
    lemma_grid_bytes(b[p] as int, b[p + 1] as int, b[p + 2] as int, b[p + 3] as int);
    lemma_sign_fields(iq2_sign_word(blk, ib));
}

proof fn lemma_iq2_words(blk: BlockIQ2XXS, b: Seq<u8>, ib: int)
    requires
        b.len() == 66,
        blk.is_held(b),
        0 <= ib < 8,
    ensures
        ({
            let p = 2 + 8 * ib;
            &&& iq2_grid_word(blk, ib) == b[p] + 256 * b[p + 1] + 0x1_0000 * b[p + 2] + 0x100_0000
                * b[p + 3]
            &&& iq2_sign_word(blk, ib) == b[p + 4] + 256 * b[p + 5] + 0x1_0000 * b[p + 6]
                + 0x100_0000 * b[p + 7]
            &&& 0 <= iq2_sign_word(blk, ib) < 0x1_0000_0000
        }),
{
    lemma_iq2_layout(blk, b);
    let p = 2 + 8 * ib;
    assert(blk.qs@[4 * ib] == b[2 + 2 * (4 * ib)] + 256 * b[3 + 2 * (4 * ib)]);
    assert(blk.qs@[4 * ib + 1] == b[2 + 2 * (4 * ib + 1)] + 256 * b[3 + 2 * (4 * ib + 1)]);
    assert(blk.qs@[4 * ib + 2] == b[2 + 2 * (4 * ib + 2)] + 256 * b[3 + 2 * (4 * ib + 2)]);
    assert(blk.qs@[4 * ib + 3] == b[2 + 2 * (4 * ib + 3)] + 256 * b[3 + 2 * (4 * ib + 3)]);
}

proof fn lemma_grid_bytes(x0: int, x1: int, x2: int, x3: int)
    requires
        0 <= x0 < 256,
        0 <= x1 < 256,
        0 <= x2 < 256,
        0 <= x3 < 256,
    ensures
        ({
            let a = x0 + 256 * x1 + 0x1_0000 * x2 + 0x100_0000 * x3;
            &&& grid_index(a, 0) == x0
            &&& grid_index(a, 1) == x1
            &&& grid_index(a, 2) == x2
            &&& grid_index(a, 3) == x3
        }),
{
    let a = x0 + 256 * x1 + 0x1_0000 * x2 + 0x100_0000 * x3;
    assert(a / 256 == x1 + 256 * x2 + 0x1_0000 * x3);
    assert(a / 0x1_0000 == x2 + 256 * x3);
    assert(a / 0x100_0000 == x3);
}

proof fn lemma_sign_fields(a: int)
    requires
        0 <= a < 0x1_0000_0000,
    ensures
        sign_index(a, 0) + 128 * sign_index(a, 1) + 16384 * sign_index(a, 2) + 0x20_0000
            * sign_index(a, 3) + 0x1000_0000 * (a / 0x1000_0000) == a,
        0 <= a / 0x1000_0000 < 16,
        forall|k: int| 0 <= k < 4 ==> 0 <= #[trigger] sign_index(a, k) < 128,
{
    let b = a / 128;
    let c = a / 16384;
    let d = a / 0x20_0000;
    assert(c == b / 128);
    assert(d == c / 128);
    assert(a / 0x1000_0000 == d / 128);
}

/// A number has only one such make-up.
proof fn lemma_sign_fields_unique(a: int, s0: int, s1: int, s2: int, s3: int, top: int)
    requires
        0 <= s0 < 128,
        0 <= s1 < 128,
        0 <= s2 < 128,
        0 <= s3 < 128,
        0 <= top < 16,
        a == s0 + 128 * s1 + 16384 * s2 + 0x20_0000 * s3 + 0x1000_0000 * top,
    ensures
        sign_index(a, 0) == s0,
        sign_index(a, 1) == s1,
        sign_index(a, 2) == s2,
        sign_index(a, 3) == s3,
        a / 0x1000_0000 == top,
{
    assert(a / 128 == s1 + 128 * s2 + 16384 * s3 + 0x20_0000 * top);
    assert(a / 16384 == s2 + 128 * s3 + 16384 * top);
    assert(a / 0x20_0000 == s3 + 128 * top);
}

/// The sum of an `IQ2_XXS` block is the dot product of its elements with the
/// activations: element `l` is the scale of its 32 times its lane, `l` modulo 8, in
/// the row of the signed grid that its grid index and its sign index name.
pub proof fn lemma_iq2_dot(
    blk: BlockIQ2XXS,
    b: Seq<u8>,
    signed_grid: Seq<[i8; 8]>,
    xq: Seq<i8>,
    scale: spec_fn(int) -> int,
    sign: spec_fn(int, int) -> int,
)
    requires
        b.len() == 66,
        blk.is_held(b),
        xq.len() == 256,
        signed_grid.len() == 0x8000,
        forall|ib: int|
            0 <= ib < 8 ==> 0 <= #[trigger] scale(ib) < 16 && sign(ib, 0) + 128 * sign(ib, 1)
                + 16384 * sign(ib, 2) + 0x20_0000 * sign(ib, 3) + 0x1000_0000 * scale(ib) == b[6 + 8
                * ib] + 256 * b[7 + 8 * ib] + 0x1_0000 * b[8 + 8 * ib] + 0x100_0000 * b[9 + 8 * ib],
        forall|ib: int, k: int|
            0 <= ib < 8 && 0 <= k < 4 ==> 0 <= #[trigger] sign(ib, k) < 128,
    ensures
        iq2_sum(blk, signed_grid, xq) == total(
            |l: int|
                (2 * scale(l / 32) + 1) * signed_grid[128 * b[2 + 8 * (l / 32) + (l % 32) / 8]
                    + sign(l / 32, (l % 32) / 8)]@[l % 8] * xq[l],
            0,
            256,
        ),
{
    let f = |l: int| iq2_term(blk, signed_grid, xq, l);
    let g = |l: int|
        (2 * scale(l / 32) + 1) * signed_grid[128 * b[2 + 8 * (l / 32) + (l % 32) / 8] + sign(
            l / 32,
            (l % 32) / 8,
        )]@[l % 8] * xq[l];
    assert forall|l: int| 0 <= l < 256 implies #[trigger] f(l) == g(l) by {
        let (ib, k) = (l / 32, (l % 32) / 8);
        lemma_iq2_words(blk, b, ib);
        lemma_iq2_stored(blk, b, ib);
        let a1 = iq2_sign_word(blk, ib);
        assert(0 <= scale(ib) < 16);
        assert(0 <= sign(ib, 0) < 128 && 0 <= sign(ib, 1) < 128);
        assert(0 <= sign(ib, 2) < 128 && 0 <= sign(ib, 3) < 128);
        lemma_sign_fields_unique(
            a1,
            sign(ib, 0),
            sign(ib, 1),
            sign(ib, 2),
            sign(ib, 3),
            scale(ib),
        );
        lemma_four(k);
        assert(sign(ib, k) == sign_index(a1, k));
        assert(grid_index(iq2_grid_word(blk, ib), k) == b[2 + 8 * ib + k]);
        assert(iq2_scale(blk, ib) == 2 * scale(ib) + 1);
        let (s, v, x) = (
            iq2_scale(blk, ib),
            iq2_row(blk, signed_grid, ib, k)[l % 8] as int,
            xq[l] as int,
        );
        assert(s * (v * x) == s * v * x) by (nonlinear_arith);
    }
    lemma_total_same(f, g, 0, 256);
}

proof fn lemma_four(k: int)
    requires
        0 <= k < 4,
    ensures
        k == 0 || k == 1 || k == 2 || k == 3,
{
}

/// Eight elements of an `IQ2_XXS` block share two stored bytes: the first names the
/// grid entry whose byte `l` modulo 8 the element is made of, the low seven bits of
/// the second the pattern of signs.
pub proof fn lemma_iq2_element(
    blk: BlockIQ2XXS,
    b: Seq<u8>,
    grid: Seq<u64>,
    signs: Seq<[i8; 8]>,
    l: int,
)
    requires
        b.len() == 66,
        blk.is_held(b),
        0 <= l < 256,
    ensures
        iq2_lane(blk, grid, signs, l) == signed_byte(grid[b[2 + 2 * (l / 8)] as int], l % 8)
            * signs[b[3 + 2 * (l / 8)] as int % 128]@[l % 8],
{
    lemma_iq2_layout(blk, b);
    let i = l / 8;
    assert(blk.qs@[i] == b[2 + 2 * i] + 256 * b[3 + 2 * i]);
    let code = blk.qs@[i] as int;
    assert(code % 256 == b[2 + 2 * i] && code / 256 == b[3 + 2 * i]);
}

/// Byte `j` of a number is what is left of it behind `8 * j` bits, modulo 256, in
/// two's complement.
pub proof fn lemma_signed_byte(v: u64, j: int)
    requires
        0 <= j < 8,
    ensures
        (signed_byte(v, j) as int - le_bytes(v as nat, 8)[j] as int) % 256 == 0,
{
    lemma_le_bytes_at(v as nat, 8, j);
    reveal_with_fuel(pow256, 8);
    assert((v >> 0u64) & 0xff == v % 256 && (v >> 8u64) & 0xff == (v / 0x100) % 256 && (v >> 16u64)
        & 0xff == (v / 0x1_0000) % 256 && (v >> 24u64) & 0xff == (v / 0x100_0000) % 256 && (v
        >> 32u64) & 0xff == (v / 0x1_0000_0000) % 256 && (v >> 40u64) & 0xff == (v
        / 0x100_0000_0000) % 256 && (v >> 48u64) & 0xff == (v / 0x1_0000_0000_0000) % 256 && (v
        >> 56u64) & 0xff == (v / 0x100_0000_0000_0000) % 256) by (bit_vector);
    assert(j == 0 || j == 1 || j == 2 || j == 3 || j == 4 || j == 5 || j == 6 || j == 7);
    assert((v >> (8 * j) as u64) & 0xff == le_bytes(v as nat, 8)[j]);
}

/// Byte `j` of the little-endian bytes of a number.
proof fn lemma_le_bytes_at(v: nat, n: nat, j: int)
    requires
        0 <= j < n,
    ensures
        le_bytes(v, n).len() == n,
        le_bytes(v, n)[j] == (v / pow256(j as nat)) % 256,
    decreases n,
{
    lemma_le_bytes_len(v, n);
    if j > 0 {
        lemma_le_bytes_at(v / 256, (n - 1) as nat, j - 1);
        let p = pow256((j - 1) as nat);
        crate::bytes::lemma_pow256_monotonic((j - 1) as nat, j as nat);
        vstd::arithmetic::div_mod::lemma_div_denominator(v as int, 256, p as int);
    } else {
        assert(v / 1 == v);
    }
}

/// The byte that stands for a signed number.
pub open spec fn unsigned(q: i8) -> u8 {
    (q as int % 256) as u8
}

/// A `Q8_0` row as it is stored: for each 32 elements the two bytes of a
/// half-precision number, then the elements as signed bytes.
pub open spec fn q8_0_row(scales: Seq<u16>, quants: Seq<i8>) -> Seq<u8> {
    Seq::new(
        34 * scales.len(),
        |p: int|
            if p % 34 == 0 {
                (scales[p / 34] as int % 256) as u8
            } else if p % 34 == 1 {
                (scales[p / 34] as int / 256) as u8
            } else {
                unsigned(quants[32 * (p / 34) + p % 34 - 2])
            },
    )
}

/// The dot products of a stored `Q8_0` row are those of the scales and elements
/// that it was made from.
pub proof fn lemma_q8_0_dot(scales: Seq<u16>, quants: Seq<i8>, xq: Seq<i8>, b: int, r: BlockDot)
    requires
        quants.len() == 32 * scales.len(),
        xq.len() == quants.len(),
        0 <= b < scales.len(),
        is_block_dot(q8_0_row(scales, quants), xq, b, r),
    ensures
        r.d == scales[b],
        r.sum == total(|i: int| quants[i] * xq[i], 32 * b, 32 * b + 32),
        row_bytes(quants.len() as int) == q8_0_row(scales, quants).len(),
{
    let row = q8_0_row(scales, quants);
    assert((34 * b) % 34 == 0 && (34 * b) / 34 == b);
    assert((34 * b + 1) % 34 == 1 && (34 * b + 1) / 34 == b);
    lemma_word_bytes(row, 34 * b);
    let f = |i: int| q8_0_term(row, xq, b, i);
    let g = |i: int| quants[i] * xq[i];
    assert forall|i: int| 0 <= i < 32 implies #[trigger] f(i) == g(i + 32 * b) by {
        let p = 34 * b + 2 + i;
        assert(p % 34 == 2 + i && p / 34 == b);
        let q = quants[32 * b + i];
        assert(row[p] == unsigned(q));
        assert(signed_8(unsigned(q)) == q);
    }
    crate::sums::lemma_total_shift(f, g, 0, 32, 32 * b);
}

/// A row takes 34 bytes for each 32 elements, the last of them perhaps not full.
pub proof fn lemma_row_bytes(n: int)
    requires
        0 <= n,
    ensures
        row_bytes(n) % 34 == 0,
        32 * (row_bytes(n) / 34) >= n,
        32 * (row_bytes(n) / 34) < n + 32,
{
}

/// Block number `i` of some bytes starts behind `i` blocks.
pub proof fn lemma_block_bytes(b: Seq<u8>, size: nat, i: int, j: int)
    requires
        0 <= i,
        0 <= j < size,
        i * size + size <= b.len(),
    ensures
        block_bytes(b, size, i).len() == size,
        block_bytes(b, size, i)[j] == b[i * size + j],
{
    assert(0 <= i * size) by (nonlinear_arith)
        requires
            0 <= i,
            0 <= size,
    ;
}

/// The product of 16 quants of two bits, at one of the four places in their bytes,
/// with 16 activations.
pub proof fn lemma_q2_dot(q2: Seq<u8>, q8: Seq<i8>, s: int)
    requires
        q2.len() == 16,
        q8.len() == 16,
        0 <= s < 4,
    ensures
        q2_dot(q2, q8, (2 * s) as u32) == total(|i: int| quarter(q2[i], s) * q8[i], 0, 16),
{
    let f = |i: int| two_bits(q2[i], (2 * s) as u32) * q8[i];
    let g = |i: int| quarter(q2[i], s) * q8[i];
    assert forall|i: int| 0 <= i < 16 implies #[trigger] f(i) == g(i) by {
        lemma_two_bits(q2[i], s);
    }
    lemma_total_same(f, g, 0, 16);
}

/// The product of two rows of eight with 16 activations is that of the rows joined.
pub proof fn lemma_pair_dot(a: Seq<i8>, b: Seq<i8>, q8: Seq<i8>)
    requires
        a.len() == 8,
        b.len() == 8,
        q8.len() == 16,
    ensures
        pair_dot(a, b, q8) == total(|i: int| (a + b)[i] * q8[i], 0, 16),
{
    let h = |i: int| (a + b)[i] * q8[i];
    let f = |i: int| a[i] * q8[i];
    let g = |i: int| b[i] * q8[8 + i];
    lemma_total_same(f, h, 0, 8);
    assert forall|i: int| 0 <= i < 8 implies #[trigger] g(i) == h(i + 8) by {
        assert((a + b)[i + 8] == b[i]);
    }
    crate::sums::lemma_total_shift(g, h, 0, 8, 8);
    crate::sums::lemma_total_split(h, 0, 8, 16);
}

} // verus!
