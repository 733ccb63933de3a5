//! Integer parts of the quantized row dots.
//!
//! The dot product of a block with 256 signed activations is a combination of
//! integer sums with the floating-point scales of the block. The sums are
//! computed here, and are those of the block's elements times the activations.

use crate::dequant::{q2k_lane, q4k_lane};
use crate::dot::{dot_iq2_pair_16, dot_q2_16, pair_dot, q2_dot, two_bits};
use crate::quant::{BlockIQ2XXS, BlockQ2K, BlockQ4K};
use crate::sums::{lemma_total_factor, lemma_total_shift, lemma_total_split, total};
use vstd::prelude::*;
use vstd::slice::slice_subrange;

verus! {

/// The sum of 16 consecutive lanes.
pub open spec fn lanes_16(xq: Seq<i8>, off: int) -> int {
    total(|i: int| xq[i] as int, off, off + 16)
}

/// Sum 16 consecutive lanes.
fn bsum16(xq: &[i8], off: usize) -> (s: i32)
    requires
        off + 16 <= xq@.len(),
    ensures
        s == lanes_16(xq@, off as int),
        -2048 <= s <= 2048,
{
    let ghost f = |i: int| xq@[i] as int;
    let mut s: i32 = 0;
    let mut i: usize = 0;
    while i < 16
        invariant
            i <= 16,
            off + 16 <= xq@.len(),
            f == (|i: int| xq@[i] as int),
            s == total(f, off as int, off + i),
            -128 * i <= s <= 128 * i,
        decreases 16 - i,
    {
        assert(xq.len() <= usize::MAX);
        s = s + xq[off + i] as i32;
        i = i + 1;
    }
    s
}

fn slice16(xq: &[i8], off: usize) -> (r: [i8; 16])
    requires
        off + 16 <= xq@.len(),
    ensures
        r@ == xq@.subrange(off as int, off + 16),
{
    let mut r: [i8; 16] = [0i8;16];
    let mut i: usize = 0;
    while i < 16
        invariant
            i <= 16,
            off + 16 <= xq@.len(),
            forall|j: int| 0 <= j < i ==> r@[j] == xq@[off + j],
        decreases 16 - i,
    {
        assert(xq.len() <= usize::MAX);
        r[i] = xq[off + i];
        i = i + 1;
    }
    assert(r@ =~= xq@.subrange(off as int, off + 16));
    r
}

fn bytes16(qs: &[u8; 64], off: usize) -> (r: [u8; 16])
    requires
        off + 16 <= 64,
    ensures
        r@ == qs@.subrange(off as int, off + 16),
{
    let mut r: [u8; 16] = [0u8;16];
    let mut i: usize = 0;
    while i < 16
        invariant
            i <= 16,
            off + 16 <= 64,
            forall|j: int| 0 <= j < i ==> r@[j] == qs@[off + j],
        decreases 16 - i,
    {
        r[i] = qs[off + i];
        i = i + 1;
    }
    assert(r@ =~= qs@.subrange(off as int, off + 16));
    r
}

/// The integer sums of a block: of `scale * q * x` and of `min * x`.
#[derive(Clone, Copy, Debug, PartialEq, Eq, Structural)]
pub struct BlockSums {
    pub isum: i32,
    pub summs: i32,
}

/// The term of element `l` in the first sum.
pub open spec fn q2k_term(blk: BlockQ2K, xq: Seq<i8>, l: int) -> int {
    q2k_lane(blk, l).scale * (q2k_lane(blk, l).q * xq[l])
}

/// The term of element `l` in the second sum.
pub open spec fn q2k_min_term(blk: BlockQ2K, xq: Seq<i8>, l: int) -> int {
    q2k_lane(blk, l).min * xq[l]
}

/// The sums over all elements of a `Q2_K` block.
pub open spec fn is_q2k_sums(blk: BlockQ2K, xq: Seq<i8>, r: BlockSums) -> bool {
    &&& r.isum == total(|l: int| q2k_term(blk, xq, l), 0, 256)
    &&& r.summs == total(|l: int| q2k_min_term(blk, xq, l), 0, 256)
}

/// The integer sums of a `Q2_K` block.
pub fn q2_k_block_sums(blk: &BlockQ2K, xq: &[i8]) -> (r: BlockSums)
    requires
        xq@.len() == 256,
    ensures
        is_q2k_sums(*blk, xq@, r),
{
    let ghost f = |l: int| q2k_term(*blk, xq@, l);
    let ghost g = |l: int| q2k_min_term(*blk, xq@, l);
    let mut isum: i32 = 0;
    let mut summs: i32 = 0;
    let mut is: usize = 0;
    while is < 16
        invariant
            is <= 16,
            xq@.len() == 256,
            f == (|l: int| q2k_term(*blk, xq@, l)),
            g == (|l: int| q2k_min_term(*blk, xq@, l)),
            isum == total(f, 0, 16 * is as int),
            summs == total(g, 0, 16 * is as int),
            -92160 * is <= isum <= 92160 * is,
            -30720 * is <= summs <= 30720 * is,
        decreases 16 - is,
    {
        let sc: u8 = blk.scales[is];
        let m: i32 = (sc / 16) as i32;
        let bs: i32 = bsum16(xq, 16 * is);
        let d: i32 = (sc % 16) as i32;
        let q2: [u8; 16] = bytes16(&blk.qs, 32 * (is / 8) + 16 * (is % 2));
        let q8: [i8; 16] = slice16(xq, 16 * is);
        let shift: u32 = (2 * ((is % 8) / 2)) as u32;
        let part: i32 = dot_q2_16(&q2, &q8, shift);
        proof {
            lemma_q2k_chunk(*blk, xq@, is as int, q2@, q8@, shift);
            lemma_total_split(f, 0, 16 * is, 16 * is + 16);
            lemma_total_split(g, 0, 16 * is, 16 * is + 16);
            assert(-30720 <= bs * m <= 30720) by (nonlinear_arith)
                requires
                    -2048 <= bs <= 2048,
                    0 <= m <= 15,
            ;
            assert(-92160 <= d * part <= 92160) by (nonlinear_arith)
                requires
                    -6144 <= part <= 6144,
                    0 <= d <= 15,
            ;
            assert(bs * m == m * bs) by (nonlinear_arith);
        }
        summs = summs + bs * m;
        isum = isum + d * part;
        is = is + 1;
    }
    BlockSums { isum, summs }
}

proof fn lemma_q2k_chunk(
    blk: BlockQ2K,
    xq: Seq<i8>,
    is: int,
    q2: Seq<u8>,
    q8: Seq<i8>,
    shift: u32,
)
    requires
        0 <= is < 16,
        xq.len() == 256,
        q2 == blk.qs@.subrange(32 * (is / 8) + 16 * (is % 2), 32 * (is / 8) + 16 * (is % 2) + 16),
        q8 == xq.subrange(16 * is, 16 * is + 16),
        shift == 2 * ((is % 8) / 2),
    ensures
        total(|l: int| q2k_term(blk, xq, l), 16 * is, 16 * is + 16) == (blk.scales@[is] % 16)
            * q2_dot(q2, q8, shift),
        total(|l: int| q2k_min_term(blk, xq, l), 16 * is, 16 * is + 16) == (blk.scales@[is] / 16)
            * lanes_16(xq, 16 * is),
{
    let f = |l: int| q2k_term(blk, xq, l);
    let g = |l: int| q2k_min_term(blk, xq, l);
    let h = |i: int| two_bits(q2[i], shift) * q8[i];
    let lane = |l: int| q2k_lane(blk, l).q * xq[l];
    let x = |i: int| xq[i] as int;
    assert forall|i: int| 0 <= i < 16 implies #[trigger] h(i) == lane(i + 16 * is) by {
        let l = i + 16 * is;
        assert(l / 128 == is / 8 && l % 32 == 16 * (is % 2) + i && (l % 128) / 32 == (is % 8) / 2);
        assert(q2[i] == blk.qs@[32 * (l / 128) + l % 32]);
        let (b, s) = (q2[i], shift);
        assert(((b >> (s & 7)) & 3) <= 3) by (bit_vector);
    }
    lemma_total_shift(h, lane, 0, 16, 16 * is);
    assert forall|l: int| 16 * is <= l < 16 * is + 16 implies #[trigger] f(l) == (blk.scales@[is]
        % 16) * lane(l) by {
        assert(l / 16 == is);
    }
    lemma_total_factor(f, lane, (blk.scales@[is] % 16) as int, 16 * is, 16 * is + 16);
    assert forall|l: int| 16 * is <= l < 16 * is + 16 implies #[trigger] g(l) == (blk.scales@[is]
        / 16) * x(l) by {
        assert(l / 16 == is);
    }
    lemma_total_factor(g, x, (blk.scales@[is] / 16) as int, 16 * is, 16 * is + 16);
}

/// The integer sums of the blocks of a `Q2_K` row, for 256 activations each.
pub fn dot_q2_k_row(blocks: &[BlockQ2K], xq: &[i8]) -> (out: Vec<BlockSums>)
    requires
        xq@.len() == blocks@.len() * 256,
    ensures
        out@.len() == blocks@.len(),
        forall|i: int|
            0 <= i < out@.len() ==> is_q2k_sums(
                blocks@[i],
                xq@.subrange(256 * i, 256 * i + 256),
                #[trigger] out@[i],
            ),
{
    let mut out: Vec<BlockSums> = Vec::new();
    let mut i: usize = 0;
    while i < blocks.len()
        invariant
            i <= blocks@.len(),
            xq@.len() == blocks@.len() * 256,
            out@.len() == i,
            forall|j: int|
                0 <= j < i ==> is_q2k_sums(
                    blocks@[j],
                    xq@.subrange(256 * j, 256 * j + 256),
                    #[trigger] out@[j],
                ),
        decreases blocks@.len() - i,
    {
        assert(xq.len() <= usize::MAX);
        out.push(q2_k_block_sums(&blocks[i], slice_subrange(xq, 256 * i, 256 * i + 256)));
        i = i + 1;
    }
    out
}

/// The integers of a group of 64 elements of a `Q4_K` block: the scale and the
/// minimum that they share, the sum of `q * x` and the sum of `x`.
#[derive(Clone, Copy, Debug, PartialEq, Eq, Structural)]
pub struct GroupSums {
    pub scale: i32,
    pub min: i32,
    pub isum: i32,
    pub bsum: i32,
}

/// The sums over the elements of group `is` of a `Q4_K` block.
pub open spec fn is_q4k_group(blk: BlockQ4K, xq: Seq<i8>, is: int, r: GroupSums) -> bool {
    &&& forall|l: int|
        64 * is <= l < 64 * is + 64 ==> (#[trigger] q4k_lane(blk, l)).scale == r.scale && q4k_lane(
            blk,
            l,
        ).min == r.min
    &&& r.isum == total(|l: int| q4k_lane(blk, l).q * xq[l], 64 * is, 64 * is + 64)
    &&& r.bsum == total(|l: int| xq[l] as int, 64 * is, 64 * is + 64)
}

/// The integer sums of group `is` of a `Q4_K` block.
pub fn q4_k_group_sums(blk: &BlockQ4K, xq: &[i8], is: usize) -> (r: GroupSums)
    requires
        xq@.len() == 256,
        is < 4,
    ensures
        is_q4k_group(*blk, xq@, is as int, r),
{
    let ghost f = |l: int| q4k_lane(*blk, l).q * xq@[l];
    let ghost g = |l: int| xq@[l] as int;
    let scale: i32 = (blk.scales[is] % 64) as i32;
    let min: i32 = (blk.scales[is + 4] % 64) as i32;
    let mut isum: i32 = 0;
    let mut bsum: i32 = 0;
    let mut j: usize = 0;
    while j < 64
        invariant
            j <= 64,
            is < 4,
            xq@.len() == 256,
            f == (|l: int| q4k_lane(*blk, l).q * xq@[l]),
            g == (|l: int| xq@[l] as int),
            isum == total(f, 64 * is as int, 64 * is + j),
            bsum == total(g, 64 * is as int, 64 * is + j),
            -1920 * j <= isum <= 1920 * j,
            -128 * j <= bsum <= 128 * j,
        decreases 64 - j,
    {
        let byte: u8 = blk.qs[32 * is + j % 32];
        let q: i32 = if j < 32 {
            (byte % 16) as i32
        } else {
            (byte / 16) as i32
        };
        let x: i32 = xq[64 * is + j] as i32;
        proof {
            let l = 64 * is + j;
            assert(l / 64 == is && l % 64 == j && l % 32 == j % 32);
            assert(q == q4k_lane(*blk, l).q);
            assert(-1920 <= q * x <= 1920) by (nonlinear_arith)
                requires
                    0 <= q <= 15,
                    -128 <= x <= 127,
            ;
        }
        isum = isum + q * x;
        bsum = bsum + x;
        j = j + 1;
    }
    assert forall|l: int| 64 * is <= l < 64 * is + 64 implies (#[trigger] q4k_lane(*blk, l)).scale
        == scale && q4k_lane(*blk, l).min == min by {
        assert(l / 64 == is);
    }
    GroupSums { scale, min, isum, bsum }
}

/// The integer sums of the blocks of a `Q4_K` row, for 256 activations each: the
/// four groups of the first block, then those of the next.
pub fn dot_q4_k_row(blocks: &[BlockQ4K], xq: &[i8]) -> (out: Vec<GroupSums>)
    requires
        xq@.len() == blocks@.len() * 256,
    ensures
        out@.len() == 4 * blocks@.len(),
        forall|i: int, is: int|
            0 <= i < blocks@.len() && 0 <= is < 4 ==> is_q4k_group(
                blocks@[i],
                xq@.subrange(256 * i, 256 * i + 256),
                is,
                #[trigger] out@[4 * i + is],
            ),
{
    let mut out: Vec<GroupSums> = Vec::new();
    let mut i: usize = 0;
    while i < blocks.len()
        invariant
            i <= blocks@.len(),
            xq@.len() == blocks@.len() * 256,
            out@.len() == 4 * i,
            forall|j: int, is: int|
                0 <= j < i && 0 <= is < 4 ==> is_q4k_group(
                    blocks@[j],
                    xq@.subrange(256 * j, 256 * j + 256),
                    is,
                    #[trigger] out@[4 * j + is],
                ),
        decreases blocks@.len() - i,
    {
        assert(xq.len() <= usize::MAX);
        let part: &[i8] = slice_subrange(xq, 256 * i, 256 * i + 256);
        let g0: GroupSums = q4_k_group_sums(&blocks[i], part, 0);
        let g1: GroupSums = q4_k_group_sums(&blocks[i], part, 1);
        let g2: GroupSums = q4_k_group_sums(&blocks[i], part, 2);
        let g3: GroupSums = q4_k_group_sums(&blocks[i], part, 3);
        let ghost before = out@;
        out.push(g0);
        out.push(g1);
        out.push(g2);
        out.push(g3);
        assert forall|j: int, is: int| 0 <= j < i + 1 && 0 <= is < 4 implies is_q4k_group(
            blocks@[j],
            xq@.subrange(256 * j, 256 * j + 256),
            is,
            #[trigger] out@[4 * j + is],
        ) by {
            if j < i {
                assert(out@[4 * j + is] == before[4 * j + is]);
            }
        }
        i = i + 1;
    }
    out
}

/// The first 32-bit word of 32 elements of an `IQ2_XXS` block: four grid indices.
pub open spec fn iq2_grid_word(blk: BlockIQ2XXS, ib: int) -> int {
    blk.qs@[4 * ib] + 0x1_0000 * blk.qs@[4 * ib + 1]
}

/// The second: four sign indices of seven bits, and a scale of four bits.
pub open spec fn iq2_sign_word(blk: BlockIQ2XXS, ib: int) -> int {
    blk.qs@[4 * ib + 2] + 0x1_0000 * blk.qs@[4 * ib + 3]
}

/// The grid index of group `k` of eight elements.
pub open spec fn grid_index(a0: int, k: int) -> int {
    if k == 0 {
        a0 % 256
    } else if k == 1 {
        (a0 / 256) % 256
    } else if k == 2 {
        (a0 / 0x1_0000) % 256
    } else {
        (a0 / 0x100_0000) % 256
    }
}

/// The sign index of group `k` of eight elements.
pub open spec fn sign_index(a1: int, k: int) -> int {
    if k == 0 {
        a1 % 128
    } else if k == 1 {
        (a1 / 128) % 128
    } else if k == 2 {
        (a1 / 16384) % 128
    } else {
        (a1 / 0x20_0000) % 128
    }
}

/// The row of the signed grid that group `k` of the 32 elements `ib` names.
pub open spec fn iq2_row(blk: BlockIQ2XXS, signed_grid: Seq<[i8; 8]>, ib: int, k: int) -> Seq<i8> {
    signed_grid[128 * grid_index(iq2_grid_word(blk, ib), k) + sign_index(
        iq2_sign_word(blk, ib),
        k,
    )]@
}

/// The local scale of the 32 elements `ib`: odd, from 1 to 31.
pub open spec fn iq2_scale(blk: BlockIQ2XXS, ib: int) -> int {
    2 * (iq2_sign_word(blk, ib) / 0x1000_0000) + 1
}

/// The term of element `l` of an `IQ2_XXS` block.
pub open spec fn iq2_term(
    blk: BlockIQ2XXS,
    signed_grid: Seq<[i8; 8]>,
    xq: Seq<i8>,
    l: int,
) -> int {
    iq2_scale(blk, l / 32) * (iq2_row(blk, signed_grid, l / 32, (l % 32) / 8)[l % 8] * xq[l])
}

/// The sum over all elements of an `IQ2_XXS` block.
pub open spec fn iq2_sum(blk: BlockIQ2XXS, signed_grid: Seq<[i8; 8]>, xq: Seq<i8>) -> int {
    total(|l: int| iq2_term(blk, signed_grid, xq, l), 0, 256)
}

/// The integer sum of an `IQ2_XXS` block. The signed grid has 128 rows, one for
/// each pattern of signs, for each of its 256 entries.
pub fn iq2_xxs_block_sum(blk: &BlockIQ2XXS, signed_grid: &[[i8; 8]], xq: &[i8]) -> (r: i32)
    requires
        xq@.len() == 256,
        signed_grid@.len() == 0x8000,
    ensures
        r == iq2_sum(*blk, signed_grid@, xq@),
{
    let ghost f = |l: int| iq2_term(*blk, signed_grid@, xq@, l);
    let mut bsum: i32 = 0;
    let mut ib: usize = 0;
    while ib < 8
        invariant
            ib <= 8,
            xq@.len() == 256,
            signed_grid@.len() == 0x8000,
            f == (|l: int| iq2_term(*blk, signed_grid@, xq@, l)),
            bsum == total(f, 0, 32 * ib as int),
            -16252928 * ib <= bsum <= 16252928 * ib,
        decreases 8 - ib,
    {
        let a0: u32 = blk.qs[4 * ib] as u32 + 0x1_0000 * blk.qs[4 * ib + 1] as u32;
        let a1: u32 = blk.qs[4 * ib + 2] as u32 + 0x1_0000 * blk.qs[4 * ib + 3] as u32;
        let r0: usize = (128 * (a0 % 256) + a1 % 128) as usize;
        let r1: usize = (128 * ((a0 / 256) % 256) + (a1 / 128) % 128) as usize;
        let r2: usize = (128 * ((a0 / 0x1_0000) % 256) + (a1 / 16384) % 128) as usize;
        let r3: usize = (128 * ((a0 / 0x100_0000) % 256) + (a1 / 0x20_0000) % 128) as usize;
        let ls: i32 = 2 * (a1 / 0x1000_0000) as i32 + 1;
        let x0: [i8; 16] = slice16(xq, 32 * ib);
        let x1: [i8; 16] = slice16(xq, 32 * ib + 16);
        let s0: i32 = dot_iq2_pair_16(&signed_grid[r0], &signed_grid[r1], &x0);
        let s1: i32 = dot_iq2_pair_16(&signed_grid[r2], &signed_grid[r3], &x1);
        let sumi: i32 = s0 + s1;
        proof {
            lemma_iq2_group(*blk, signed_grid@, xq@, ib as int, x0@, x1@);
            lemma_total_split(f, 0, 32 * ib, 32 * ib + 32);
            assert(-16252928 <= sumi * ls <= 16252928) by (nonlinear_arith)
                requires
                    -524288 <= sumi <= 524288,
                    1 <= ls <= 31,
            ;
            assert(sumi * ls == ls * sumi) by (nonlinear_arith);
        }
        bsum = bsum + sumi * ls;
        ib = ib + 1;
    }
    bsum
}

proof fn lemma_iq2_group(
    blk: BlockIQ2XXS,
    signed_grid: Seq<[i8; 8]>,
    xq: Seq<i8>,
    ib: int,
    x0: Seq<i8>,
    x1: Seq<i8>,
)
    requires
        0 <= ib < 8,
        xq.len() == 256,
        x0 == xq.subrange(32 * ib, 32 * ib + 16),
        x1 == xq.subrange(32 * ib + 16, 32 * ib + 32),
    ensures
        total(|l: int| iq2_term(blk, signed_grid, xq, l), 32 * ib, 32 * ib + 32) == iq2_scale(
            blk,
            ib,
        ) * (pair_dot(
            iq2_row(blk, signed_grid, ib, 0),
            iq2_row(blk, signed_grid, ib, 1),
            x0,
        ) + pair_dot(iq2_row(blk, signed_grid, ib, 2), iq2_row(blk, signed_grid, ib, 3), x1)),
{
    let f = |l: int| iq2_term(blk, signed_grid, xq, l);
    let lane = |l: int| iq2_row(blk, signed_grid, l / 32, (l % 32) / 8)[l % 8] * xq[l];
    let b = 32 * ib;
    assert forall|l: int| b <= l < b + 32 implies #[trigger] f(l) == iq2_scale(blk, ib) * lane(
        l,
    ) by {
        assert(l / 32 == ib);
    }
    lemma_total_factor(f, lane, iq2_scale(blk, ib), b, b + 32);
    lemma_total_split(lane, b, b + 16, b + 32);
    lemma_total_split(lane, b, b + 8, b + 16);
    lemma_total_split(lane, b + 16, b + 24, b + 32);
    let g0 = iq2_row(blk, signed_grid, ib, 0);
    let g1 = iq2_row(blk, signed_grid, ib, 1);
    let g2 = iq2_row(blk, signed_grid, ib, 2);
    let g3 = iq2_row(blk, signed_grid, ib, 3);
    lemma_iq2_eight(blk, signed_grid, xq, ib, 0, |i: int| g0[i] * x0[i]);
    lemma_iq2_eight(blk, signed_grid, xq, ib, 1, |i: int| g1[i] * x0[8 + i]);
    lemma_iq2_eight(blk, signed_grid, xq, ib, 2, |i: int| g2[i] * x1[i]);
    lemma_iq2_eight(blk, signed_grid, xq, ib, 3, |i: int| g3[i] * x1[8 + i]);
}

/// Eight elements that share a row of the grid.
proof fn lemma_iq2_eight(
    blk: BlockIQ2XXS,
    signed_grid: Seq<[i8; 8]>,
    xq: Seq<i8>,
    ib: int,
    k: int,
    h: spec_fn(int) -> int,
)
    requires
        0 <= ib < 8,
        0 <= k < 4,
        forall|i: int|
            0 <= i < 8 ==> #[trigger] h(i) == iq2_row(blk, signed_grid, ib, k)[i] * xq[32 * ib + 8
                * k + i],
    ensures
        total(
            |l: int| iq2_row(blk, signed_grid, l / 32, (l % 32) / 8)[l % 8] * xq[l],
            32 * ib + 8 * k,
            32 * ib + 8 * k + 8,
        ) == total(h, 0, 8),
{
    let lane = |l: int| iq2_row(blk, signed_grid, l / 32, (l % 32) / 8)[l % 8] * xq[l];
    let off = 32 * ib + 8 * k;
    assert forall|i: int| 0 <= i < 8 implies #[trigger] h(i) == lane(i + off) by {
        let l = i + off;
        assert(l / 32 == ib && (l % 32) / 8 == k && l % 8 == i);
    }
    lemma_total_shift(h, lane, 0, 8, off);
}

/// The integer sums of the blocks of an `IQ2_XXS` row, for 256 activations each.
pub fn dot_iq2_xxs_row(blocks: &[BlockIQ2XXS], signed_grid: &[[i8; 8]], xq: &[i8]) -> (out:
    Vec<i32>)
    requires
        xq@.len() == blocks@.len() * 256,
        signed_grid@.len() == 0x8000,
    ensures
        out@.len() == blocks@.len(),
        forall|i: int|
            0 <= i < out@.len() ==> #[trigger] out@[i] == iq2_sum(
                blocks@[i],
                signed_grid@,
                xq@.subrange(256 * i, 256 * i + 256),
            ),
{
    let mut out: Vec<i32> = Vec::new();
    let mut i: usize = 0;
    while i < blocks.len()
        invariant
            i <= blocks@.len(),
            xq@.len() == blocks@.len() * 256,
            signed_grid@.len() == 0x8000,
            out@.len() == i,
            forall|j: int|
                0 <= j < i ==> #[trigger] out@[j] == iq2_sum(
                    blocks@[j],
                    signed_grid@,
                    xq@.subrange(256 * j, 256 * j + 256),
                ),
        decreases blocks@.len() - i,
    {
        assert(xq.len() <= usize::MAX);
        let part: &[i8] = slice_subrange(xq, 256 * i, 256 * i + 256);
        out.push(iq2_xxs_block_sum(&blocks[i], signed_grid, part));
        i = i + 1;
    }
    out
}

} // verus!
