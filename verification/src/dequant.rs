//! The elements of quantized blocks.
//!
//! An element of a `Q2_K` or `Q4_K` block is `d * scale * q - dmin * min`, with
//! the two half-precision numbers of the block; an element of an `IQ2_XXS` block
//! is an integer times the half-precision number of the block and an eighth.

use crate::bytes::{signed_8, to_signed_8};
use crate::dot::two_bits;
use crate::quant::{BlockIQ2XXS, BlockQ2K, BlockQ4K};
use vstd::prelude::*;

verus! {

/// The integers of an element.
#[derive(Clone, Copy, Debug, PartialEq, Eq, Structural)]
pub struct Lane {
    pub scale: u8,
    pub min: u8,
    pub q: u8,
}

/// The integers of element `l` of a `Q2_K` block: 16 elements share a scale and
/// a minimum, and 128 elements share 32 bytes of quants, each byte holding four
/// elements that are 32 apart.
pub open spec fn q2k_lane(blk: BlockQ2K, l: int) -> Lane {
    Lane {
        scale: blk.scales@[l / 16] % 16,
        min: blk.scales@[l / 16] / 16,
        q: two_bits(blk.qs@[32 * (l / 128) + l % 32], (2 * ((l % 128) / 32)) as u32) as u8,
    }
}

/// The integers of element `l` of a `Q4_K` block: 64 elements share a scale, a
/// minimum and 32 bytes of quants, the low halves first.
pub open spec fn q4k_lane(blk: BlockQ4K, l: int) -> Lane {
    let byte = blk.qs@[32 * (l / 64) + l % 32];
    Lane {
        scale: blk.scales@[l / 64] % 64,
        min: blk.scales@[l / 64 + 4] % 64,
        q: if l % 64 < 32 {
            byte % 16
        } else {
            byte / 16
        },
    }
}

/// Byte `j` of a number, the lowest first, as a signed number.
pub open spec fn signed_byte(v: u64, j: int) -> i8 {
    signed_8(((v >> (8 * j) as u64) & 0xff) as u8)
}

/// The integer of element `l` of an `IQ2_XXS` block: a byte of the grid entry
/// that the low half of a code names, with the sign that the high half names.
pub open spec fn iq2_lane(blk: BlockIQ2XXS, grid: Seq<u64>, signs: Seq<[i8; 8]>, l: int) -> int {
    let code = blk.qs@[l / 8] as int;
    signed_byte(grid[code % 256], l % 8) * signs[(code / 256) % 128]@[l % 8]
}

/// The elements of a `Q2_K` block.
pub fn dequant_q2k(blk: &BlockQ2K) -> (out: Vec<Lane>)
    ensures
        out@.len() == 256,
        forall|l: int| 0 <= l < 256 ==> #[trigger] out@[l] == q2k_lane(*blk, l),
{
    let mut out: Vec<Lane> = Vec::new();
    let mut l: usize = 0;
    while l < 256
        invariant
            l <= 256,
            out@.len() == l,
            forall|i: int| 0 <= i < l ==> #[trigger] out@[i] == q2k_lane(*blk, i),
        decreases 256 - l,
    {
        let s: u8 = blk.scales[l / 16];
        let byte: u8 = blk.qs[32 * (l / 128) + l % 32];
        let shift: u32 = (2 * ((l % 128) / 32)) as u32;
        assert(shift & 7 == shift && (byte >> shift) & 3 <= 3) by (bit_vector)
            requires
                shift <= 6,
        ;
        out.push(Lane { scale: s % 16, min: s / 16, q: (byte >> shift) & 3 });
        l = l + 1;
    }
    out
}

/// The elements of a `Q4_K` block.
pub fn dequant_q4k(blk: &BlockQ4K) -> (out: Vec<Lane>)
    ensures
        out@.len() == 256,
        forall|l: int| 0 <= l < 256 ==> #[trigger] out@[l] == q4k_lane(*blk, l),
{
    let mut out: Vec<Lane> = Vec::new();
    let mut l: usize = 0;
    while l < 256
        invariant
            l <= 256,
            out@.len() == l,
            forall|i: int| 0 <= i < l ==> #[trigger] out@[i] == q4k_lane(*blk, i),
        decreases 256 - l,
    {
        let byte: u8 = blk.qs[32 * (l / 64) + l % 32];
        let q: u8 = if l % 64 < 32 {
            byte % 16
        } else {
            byte / 16
        };
        out.push(Lane { scale: blk.scales[l / 64] % 64, min: blk.scales[l / 64 + 4] % 64, q });
        l = l + 1;
    }
    out
}

/// The elements of an `IQ2_XXS` block, for a grid of 256 entries of eight bytes
/// and 128 patterns of eight signs.
pub fn dequant_iq2_xxs(blk: &BlockIQ2XXS, grid: &[u64], signs: &[[i8; 8]]) -> (out: Vec<i32>)
    requires
        grid@.len() == 256,
        signs@.len() == 128,
    ensures
        out@.len() == 256,
        forall|l: int| 0 <= l < 256 ==> #[trigger] out@[l] == iq2_lane(*blk, grid@, signs@, l),
{
    let mut out: Vec<i32> = Vec::new();
    let mut l: usize = 0;
    while l < 256
        invariant
            l <= 256,
            grid@.len() == 256,
            signs@.len() == 128,
            out@.len() == l,
            forall|i: int| 0 <= i < l ==> #[trigger] out@[i] == iq2_lane(*blk, grid@, signs@, i),
        decreases 256 - l,
    {
        let code: usize = blk.qs[l / 8] as usize;
        let j: usize = l % 8;
        let entry: u64 = grid[code % 256];
        let shift: u64 = 8 * j as u64;
        assert((entry >> shift) & 0xff <= 0xff) by (bit_vector);
        let g: i8 = to_signed_8(((entry >> shift) & 0xff) as u8);
        let s: i8 = signs[(code / 256) % 128][j];
        let (a, b): (i32, i32) = (g as i32, s as i32);
        assert(-16384 <= a * b <= 16384) by (nonlinear_arith)
            requires
                -128 <= a <= 127,
                -128 <= b <= 127,
        ;
        out.push(a * b);
        l = l + 1;
    }
    out
}

} // verus!
