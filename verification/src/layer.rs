//! Per-layer parameters.

use crate::shape::N_LAYER;
use vstd::prelude::*;

verus! {

/// Attention compression ratio of layer `il`: the first two layers are dense,
/// even layers are compressed by 4, odd ones by 128.
pub open spec fn ratio_of(il: u32) -> u32 {
    if il < 2 {
        0
    } else if il % 2 == 0 {
        4
    } else {
        128
    }
}

/// Attention compression ratio of layer `il`.
///
/// * Layers 0 and 1: dense (ratio 0, no compression).
/// * Even layers from 2 onward: ratio 4 (compressed, with indexer).
/// * Odd layers from 3 onward: ratio 128 (compressed, no indexer).
pub fn compress_ratio(il: u32) -> (r: u32)
    requires
        il < N_LAYER,
    ensures
        r == ratio_of(il),
{
    if il < 2 {
        return 0;
    }
    if il % 2 == 0 {
        4
    } else {
        128
    }
}

/// Of the 43 layers the first two are dense; behind them, compression by 4 and by 128
/// take turns.
pub proof fn lemma_ratios(il: u32)
    ensures
        ratio_of(0) == 0,
        ratio_of(1) == 0,
        ratio_of(2) == 4,
        ratio_of(3) == 128,
        2 <= il < u32::MAX - 2 ==> ratio_of((il + 2) as u32) == ratio_of(il),
{
}

} // verus!
