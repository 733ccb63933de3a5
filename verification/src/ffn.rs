//! Weights of the shared expert.

use crate::matvec::{q8_0_row_bytes, row_bytes};
use crate::shape::{N_EMBD, N_FF_EXP};
use vstd::prelude::*;

verus! {

/// Packed `Q8_0` weights of the shared expert of one layer, row by row.
#[derive(Debug)]
pub struct SharedFfnWeights<'a> {
    /// Gate projection: as many rows as the expert is wide.
    pub gate: &'a [u8],
    /// Up projection: as many rows as the expert is wide.
    pub up: &'a [u8],
    /// Down projection: as many rows as the embedding is wide.
    pub down: &'a [u8],
}

impl<'a> SharedFfnWeights<'a> {
    /// The three matrices have the size of the model's shape.
    pub open spec fn sized(&self) -> bool {
        &&& self.gate@.len() == N_FF_EXP * row_bytes(N_EMBD as int)
        &&& self.up@.len() == N_FF_EXP * row_bytes(N_EMBD as int)
        &&& self.down@.len() == N_EMBD * row_bytes(N_FF_EXP as int)
    }

    /// Whether the three matrices have the size of the model's shape.
    pub fn is_sized(&self) -> (r: bool)
        ensures
            r == self.sized(),
    {
        let wide: usize = q8_0_row_bytes(N_EMBD as usize);
        let narrow: usize = q8_0_row_bytes(N_FF_EXP as usize);
        self.gate.len() == N_FF_EXP as usize * wide && self.up.len() == N_FF_EXP as usize * wide
            && self.down.len() == N_EMBD as usize * narrow
    }
}

/// The sizes that the shared expert's matrices have: 2048 rows of 4096 elements, twice,
/// and 4096 rows of 2048, in 34 bytes for each 32 elements.
pub proof fn lemma_sized(w: &SharedFfnWeights)
    ensures
        w.sized() <==> w.gate@.len() == 2048 * (128 * 34) && w.up@.len() == 2048 * (128 * 34)
            && w.down@.len() == 4096 * (64 * 34),
{
}

} // verus!
