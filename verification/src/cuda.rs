//! CUDA backend: availability and launch geometry.

use crate::api::Error;
use crate::bytes::{low_32, low_u32};
use vstd::prelude::*;
use vstd::string::*;

verus! {

/// Whether a CUDA backend is built in.
pub fn available() -> (r: bool)
    ensures
        !r,
{
    false
}

/// Fails where no CUDA backend is built in.
pub fn ensure_available() -> (r: Result<(), Error>)
    ensures
        r is Err,
        r->Err_0.text() == "ds4-cuda: CUDA backend is only built on Linux"@,
{
    Err(Error::Other(String::from_str("ds4-cuda: CUDA backend is only built on Linux")))
}

/// How many blocks of how many threads a kernel is launched with. Only the first
/// dimension is used, and no shared memory.
#[derive(Debug, Clone, Copy, PartialEq, Eq, Structural)]
pub struct LaunchShape {
    pub grid_x: u32,
    pub block_x: u32,
}

/// The least number of groups of `size` that hold `n` items.
pub open spec fn groups(n: int, size: int) -> int {
    (n + size - 1) / size
}

fn group_count(n: u32, size: u32) -> (g: u32)
    requires
        size > 0,
    ensures
        g == groups(n as int, size as int),
{
    let wide: u64 = n as u64 + size as u64 - 1;
    proof {
        let (a, b) = (n as int, size as int);
        assert((a + b - 1) / b <= a + b - 1) by (nonlinear_arith)
            requires
                b > 0,
                a >= 0,
        ;
        if a == 0 {
            assert((b - 1) / b == 0) by (nonlinear_arith)
                requires
                    b > 0,
            ;
        } else {
            assert((a + b - 1) / b <= a) by (nonlinear_arith)
                requires
                    b > 0,
                    a > 0,
            ;
        }
    }
    (wide / size as u64) as u32
}

/// The launch that quantizes `n` numbers: a warp for each 32 of them. Gives the
/// number of quantized blocks too.
pub fn quantize_q8_0_shape(n: u32) -> (r: (LaunchShape, u64))
    ensures
        r.0 == (LaunchShape { grid_x: groups(n as int, 32) as u32, block_x: 32 }),
        r.1 == groups(n as int, 32),
{
    let blocks: u32 = group_count(n, 32);
    (LaunchShape { grid_x: blocks, block_x: 32 }, blocks as u64)
}

/// The launch of a matrix-vector product of `n_rows` rows of `in_dim` numbers:
/// blocks of eight warps, a warp for each row. Gives the number of quantized
/// blocks of a row too.
pub fn matmul_q8_0_shape(n_rows: u32, in_dim: u32) -> (r: (LaunchShape, u64))
    ensures
        r.0 == (LaunchShape { grid_x: groups(n_rows as int, 8) as u32, block_x: 256 }),
        r.1 == groups(in_dim as int, 32),
{
    let blocks: u32 = group_count(in_dim, 32);
    (LaunchShape { grid_x: group_count(n_rows, 8), block_x: 256 }, blocks as u64)
}

/// The launch that normalises one row.
pub fn rms_norm_shape() -> (r: LaunchShape)
    ensures
        r == (LaunchShape { grid_x: 1, block_x: 256 }),
{
    LaunchShape { grid_x: 1, block_x: 256 }
}

/// The launch of an elementwise kernel on `n` elements, in blocks of 256 threads.
pub fn elementwise_shape(n: u32) -> (r: LaunchShape)
    ensures
        r == (LaunchShape { grid_x: groups(n as int, 256) as u32, block_x: 256 }),
{
    LaunchShape { grid_x: group_count(n, 256), block_x: 256 }
}

/// `a * b`, at most the largest 32-bit number.
pub open spec fn clamped_product(a: int, b: int) -> int {
    if a * b > u32::MAX {
        u32::MAX as int
    } else {
        a * b
    }
}

/// The launch of the rotary embedding of one token: a thread for each pair of
/// the rotated lanes of each head. Gives the position as the kernel takes it
/// too, modulo 2^32.
pub fn rope_tail_shape(n_head: u32, n_rot: u32, pos: u64) -> (r: (LaunchShape, u32))
    ensures
        r.0 == (LaunchShape {
            grid_x: groups(clamped_product(n_head as int, n_rot as int / 2), 256) as u32,
            block_x: 256,
        }),
        r.1 == low_32(pos as int),
{
    let pairs: u32 = match n_head.checked_mul(n_rot / 2) {
        Some(n) => n,
        None => u32::MAX,
    };
    (elementwise_shape(pairs), low_u32(pos))
}

/// Every item has a thread: the groups hold at least as many as there are items,
/// and one group fewer would not.
pub proof fn lemma_groups_cover(n: int, size: int)
    requires
        0 <= n,
        0 < size,
    ensures
        groups(n, size) * size >= n,
        n > 0 ==> (groups(n, size) - 1) * size < n,
{
    let q = groups(n, size);
    let r = (n + size - 1) % size;
    vstd::arithmetic::div_mod::lemma_fundamental_div_mod(n + size - 1, size);
    vstd::arithmetic::div_mod::lemma_mod_bound(n + size - 1, size);
    assert(size * q == q * size) by (nonlinear_arith);
    assert((q - 1) * size == q * size - size) by (nonlinear_arith);
}

/// The rotary embedding has a thread for each pair of rotated lanes of each head, as
/// long as their number fits in 32 bits.
pub proof fn lemma_rope_threads(n_head: u32, n_rot: u32)
    requires
        n_head * (n_rot / 2) <= u32::MAX,
    ensures
        groups(clamped_product(n_head as int, n_rot as int / 2), 256) * 256 >= n_head * (n_rot / 2),
        (groups(clamped_product(n_head as int, n_rot as int / 2), 256) - 1) * 256 < n_head * (n_rot
            / 2) || n_head * (n_rot / 2) == 0,
{
    lemma_groups_cover(n_head * (n_rot / 2), 256);
}

} // verus!
