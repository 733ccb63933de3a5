//! Context-window memory estimator.
//!
//! The key/value streams take a fixed number of bytes per token, and each
//! backend reserves a constant scratch area on top.

use crate::api::{Backend, ContextMemory};
use crate::bytes::{low_32, low_u32_signed};
use vstd::prelude::*;

verus! {

/// Bytes per token of the raw stream: 7168 half-precision numbers.
pub const RAW_BYTES_PER_TOKEN: u64 = 7168 * 2;

/// Bytes per token of the compressed stream and its bookkeeping.
pub const COMP_BYTES_PER_TOKEN: u64 = 512 + 64;

pub const METAL_SCRATCH_BYTES: u64 = 256 * 1024 * 1024;

pub const CUDA_SCRATCH_BYTES: u64 = 384 * 1024 * 1024;

pub const CPU_SCRATCH_BYTES: u64 = 128 * 1024 * 1024;

/// The scratch area of a backend.
pub open spec fn scratch_bytes(backend: Backend) -> u64 {
    match backend {
        Backend::Metal => METAL_SCRATCH_BYTES,
        Backend::Cuda => CUDA_SCRATCH_BYTES,
        Backend::Cpu => CPU_SCRATCH_BYTES,
    }
}

/// The tokens of a context window; a negative size counts as none.
pub open spec fn window(ctx_size: i32) -> int {
    if ctx_size < 0 {
        0
    } else {
        ctx_size as int
    }
}

/// Memory of a context window of `ctx_size` tokens. The capacities are the size
/// itself, modulo 2^32.
pub fn estimate(backend: Backend, ctx_size: i32) -> (m: ContextMemory)
    ensures
        m.raw_bytes == window(ctx_size) * RAW_BYTES_PER_TOKEN,
        m.compressed_bytes == window(ctx_size) * COMP_BYTES_PER_TOKEN,
        m.scratch_bytes == scratch_bytes(backend),
        m.total_bytes == m.raw_bytes + m.compressed_bytes + m.scratch_bytes,
        m.prefill_cap == low_32(ctx_size as int),
        m.raw_cap == low_32(ctx_size as int),
        m.comp_cap == low_32(ctx_size as int),
        ctx_size >= 0 ==> m.raw_bytes == 14336 * ctx_size && m.compressed_bytes == 576 * ctx_size
            && m.prefill_cap == ctx_size && m.raw_cap == ctx_size && m.comp_cap == ctx_size,
        ctx_size < 0 ==> m.raw_bytes == 0 && m.compressed_bytes == 0,
        backend == Backend::Metal ==> m.scratch_bytes == 0x1000_0000,
        backend == Backend::Cuda ==> m.scratch_bytes == 0x1800_0000,
        backend == Backend::Cpu ==> m.scratch_bytes == 0x0800_0000,
{
    let ctx: u64 = if ctx_size < 0 {
        0
    } else {
        ctx_size as u64
    };
    let raw: u64 = ctx * RAW_BYTES_PER_TOKEN;
    let comp: u64 = ctx * COMP_BYTES_PER_TOKEN;
    let scratch: u64 = match backend {
        Backend::Metal => METAL_SCRATCH_BYTES,
        Backend::Cuda => CUDA_SCRATCH_BYTES,
        Backend::Cpu => CPU_SCRATCH_BYTES,
    };
    let cap: u32 = low_u32_signed(ctx_size as i64);
    ContextMemory {
        total_bytes: raw + comp + scratch,
        raw_bytes: raw,
        compressed_bytes: comp,
        scratch_bytes: scratch,
        prefill_cap: cap,
        raw_cap: cap,
        comp_cap: cap,
    }
}

} // verus!
