//! Integer part of the `Q8_0` row dot.
//!
//! A `Q8_0` row is a sequence of blocks of 32 elements: a half-precision scale
//! and 32 signed bytes. Activations are signed bytes too, with a scale for each
//! 32 of them.

use crate::bytes::{signed_8, to_signed_8};
use crate::quant::{read_word, word_at};
use crate::sums::total;
use vstd::prelude::*;

verus! {

/// Bytes per block.
pub const Q8_0_BLOCK_BYTES: usize = 34;

/// Bytes of a row of `in_dim` elements.
pub open spec fn row_bytes(in_dim: int) -> int {
    ((in_dim + 31) / 32) * 34
}

/// Bytes of a row of `in_dim` elements.
pub fn q8_0_row_bytes(in_dim: usize) -> (n: usize)
    requires
        in_dim + 31 <= usize::MAX,
        row_bytes(in_dim as int) <= usize::MAX,
    ensures
        n == row_bytes(in_dim as int),
{
    (in_dim + 31) / 32 * Q8_0_BLOCK_BYTES
}

/// The scale of a block, in half precision, and the dot product of its bytes
/// with the activations.
#[derive(Clone, Copy, Debug, PartialEq, Eq, Structural)]
pub struct BlockDot {
    pub d: u16,
    pub sum: i32,
}

/// The product of element `i` of block `b` with its activation.
pub open spec fn q8_0_term(row: Seq<u8>, xq: Seq<i8>, b: int, i: int) -> int {
    signed_8(row[34 * b + 2 + i]) * xq[32 * b + i]
}

/// The scale and the dot product of block `b`.
pub open spec fn is_block_dot(row: Seq<u8>, xq: Seq<i8>, b: int, r: BlockDot) -> bool {
    &&& r.d == word_at(row, 34 * b)
    &&& r.sum == total(|i: int| q8_0_term(row, xq, b, i), 0, 32)
}

/// The scales and dot products of the blocks of a row.
pub fn dot_q8_0_row(row: &[u8], xq: &[i8]) -> (out: Vec<BlockDot>)
    requires
        row@.len() % 34 == 0,
        xq@.len() == (row@.len() / 34) * 32,
    ensures
        out@.len() == row@.len() / 34,
        forall|b: int|
            0 <= b < out@.len() ==> is_block_dot(row@, xq@, b, #[trigger] out@[b]),
{
    let mut out: Vec<BlockDot> = Vec::new();
    let blocks: usize = row.len() / 34;
    let mut b: usize = 0;
    while b < blocks
        invariant
            b <= blocks,
            row@.len() == 34 * blocks,
            xq@.len() == 32 * blocks,
            row@.len() <= usize::MAX,
            out@.len() == b,
            forall|k: int| 0 <= k < b ==> is_block_dot(row@, xq@, k, #[trigger] out@[k]),
        decreases blocks - b,
    {
        let ghost f = |i: int| q8_0_term(row@, xq@, b as int, i);
        let mut sum: i32 = 0;
        let mut i: usize = 0;
        while i < 32
            invariant
                i <= 32,
                b < blocks,
                row@.len() == 34 * blocks,
                xq@.len() == 32 * blocks,
                row@.len() <= usize::MAX,
                f == (|i: int| q8_0_term(row@, xq@, b as int, i)),
                sum == total(f, 0, i as int),
                -16384 * i <= sum <= 16384 * i,
            decreases 32 - i,
        {
            let q: i32 = to_signed_8(row[34 * b + 2 + i]) as i32;
            let x: i32 = xq[32 * b + i] as i32;
            assert(-16384 <= q * x <= 16384) by (nonlinear_arith)
                requires
                    -128 <= q <= 127,
                    -128 <= x <= 127,
            ;
            sum = sum + q * x;
            i = i + 1;
        }
        out.push(BlockDot { d: read_word(row, 34 * b), sum });
        b = b + 1;
    }
    out
}

} // verus!
