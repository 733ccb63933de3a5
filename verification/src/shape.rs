//! Fixed shape of the model.

use vstd::prelude::*;

verus! {

/// Width of the residual stream.
pub const N_EMBD: u32 = 4096;

/// Size of the vocabulary.
pub const N_VOCAB: u32 = 129_280;

/// Number of layers.
pub const N_LAYER: u32 = 43;

/// Number of parallel residual streams.
pub const N_HC: u32 = 4;

/// Number of attention heads.
pub const N_HEAD: u32 = 64;

/// Width of an attention head.
pub const N_HEAD_DIM: u32 = 512;

/// Number of key/value heads.
pub const N_HEAD_KV: u32 = 1;

/// Inner width of an expert.
pub const N_FF_EXP: u32 = 2048;

/// Number of routed experts.
pub const N_EXPERT: u32 = 256;

/// Number of routed experts that a token uses.
pub const N_EXPERT_USED: u32 = 6;

} // verus!
