//! Small inner-loop kernels for the two-bit formats.

use crate::sums::total;
use vstd::prelude::*;

verus! {

/// The two-bit field of a byte at bit `shift`, modulo 8.
pub open spec fn two_bits(b: u8, shift: u32) -> int {
    ((b >> (shift & 7)) & 3) as int
}

/// Sum of the products of 16 signed lanes, eight of each grid.
pub open spec fn pair_dot(grid0: Seq<i8>, grid1: Seq<i8>, q8: Seq<i8>) -> int {
    total(|i: int| grid0[i] * q8[i], 0, 8) + total(|i: int| grid1[i] * q8[8 + i], 0, 8)
}

/// Sum of the products of 16 two-bit fields with 16 signed lanes.
pub open spec fn q2_dot(q2: Seq<u8>, q8: Seq<i8>, shift: u32) -> int {
    total(|i: int| two_bits(q2[i], shift) * q8[i], 0, 16)
}

/// Dot product of two 8-byte signed grids against 16 bytes of activations.
pub fn dot_iq2_pair_16(grid0: &[i8; 8], grid1: &[i8; 8], q8: &[i8; 16]) -> (r: i32)
    ensures
        r == pair_dot(grid0@, grid1@, q8@),
        -262144 <= r <= 262144,
{
    let ghost f = |i: int| grid0@[i] * q8@[i];
    let ghost g = |i: int| grid1@[i] * q8@[8 + i];
    let mut sum: i32 = 0;
    let mut i: usize = 0;
    while i < 8
        invariant
            i <= 8,
            f == (|i: int| grid0@[i] * q8@[i]),
            sum == total(f, 0, i as int),
            -16384 * i <= sum <= 16384 * i,
        decreases 8 - i,
    {
        let (a, b): (i32, i32) = (grid0[i] as i32, q8[i] as i32);
        assert(-16384 <= a * b <= 16384) by (nonlinear_arith)
            requires
                -128 <= a <= 127,
                -128 <= b <= 127,
        ;
        sum = sum + a * b;
        i = i + 1;
    }
    let ghost first = sum as int;
    let mut i: usize = 0;
    while i < 8
        invariant
            i <= 8,
            g == (|i: int| grid1@[i] * q8@[8 + i]),
            -131072 <= first <= 131072,
            sum == first + total(g, 0, i as int),
            -131072 - 16384 * i <= sum <= 131072 + 16384 * i,
        decreases 8 - i,
    {
        let (a, b): (i32, i32) = (grid1[i] as i32, q8[8 + i] as i32);
        assert(-16384 <= a * b <= 16384) by (nonlinear_arith)
            requires
                -128 <= a <= 127,
                -128 <= b <= 127,
        ;
        sum = sum + a * b;
        i = i + 1;
    }
    sum
}

/// Dot product of 16 packed two-bit quants, at bit `shift` of their bytes,
/// against 16 bytes of activations.
pub fn dot_q2_16(q2: &[u8; 16], q8: &[i8; 16], shift: u32) -> (r: i32)
    ensures
        r == q2_dot(q2@, q8@, shift),
        -6144 <= r <= 6144,
{
    let ghost f = |i: int| two_bits(q2@[i], shift) * q8@[i];
    let s: u32 = shift & 7;
    let mut sum: i32 = 0;
    let mut i: usize = 0;
    assert(shift & 7 < 8) by (bit_vector);
    while i < 16
        invariant
            i <= 16,
            s == shift & 7,
            s < 8,
            f == (|i: int| two_bits(q2@[i], shift) * q8@[i]),
            sum == total(f, 0, i as int),
            -384 * i <= sum <= 384 * i,
        decreases 16 - i,
    {
        let b: u8 = q2[i];
        assert((b >> s) & 3 <= 3) by (bit_vector);
        let v: i32 = ((b >> s) & 3) as i32;
        let x: i32 = q8[i] as i32;
        assert(-384 <= v * x <= 384) by (nonlinear_arith)
            requires
                0 <= v <= 3,
                -128 <= x <= 127,
        ;
        assert(x * v == v * x) by (nonlinear_arith);
        sum = sum + x * v;
        i = i + 1;
    }
    sum
}

} // verus!
