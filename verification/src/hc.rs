//! Token embedding and residual streams.
//!
//! The state of a token is `N_HC` contiguous streams of the width of the
//! embedding: position `h * n_embd + d` holds dimension `d` of stream `h`.

use crate::half::{f16_to_f32, is_widened};
use crate::shape::N_HC;
use vstd::prelude::*;

verus! {

/// Decode one row of the token embedding table, `stride` half-precision numbers
/// wide, into single precision.
pub fn embed_token_f16(out: &mut [u32], table: &[u16], stride: usize, token: usize)
    requires
        old(out)@.len() == stride,
        token * stride + stride <= table@.len(),
    ensures
        final(out)@.len() == stride,
        forall|i: int|
            0 <= i < stride ==> is_widened(table@[token * stride + i], #[trigger] final(out)@[i]),
{
    assert(table.len() <= usize::MAX);
    assert(0 <= token * stride) by (nonlinear_arith)
        requires
            0 <= token,
            0 <= stride,
    ;
    let base: usize = token * stride;
    let mut i: usize = 0;
    while i < stride
        invariant
            i <= stride == out@.len(),
            base == token * stride,
            base + stride <= table@.len(),
            forall|j: int| 0 <= j < i ==> is_widened(table@[base + j], #[trigger] out@[j]),
        decreases stride - i,
    {
        assert(table.len() <= usize::MAX);
        out[i] = f16_to_f32(table[base + i]);
        i = i + 1;
    }
}

/// Replicate the plain embedding into all streams, so that the first layer sees
/// the same residual on every stream.
pub fn hc_from_plain<T: Copy>(out_hc: &mut [T], plain: &[T])
    requires
        old(out_hc)@.len() == plain@.len() * N_HC,
    ensures
        final(out_hc)@.len() == plain@.len() * N_HC,
        forall|h: int, d: int|
            0 <= h < N_HC && 0 <= d < plain@.len() ==> #[trigger] final(out_hc)@[h * plain@.len()
                + d] == plain@[d],
{
    let n: usize = plain.len();
    assert(out_hc.len() <= usize::MAX);
    let mut h: usize = 0;
    let mut base: usize = 0;
    while h < 4
        invariant
            h <= 4,
            n == plain@.len(),
            out_hc@.len() == n * 4,
            base == h * n,
            forall|g: int, d: int|
                0 <= g < h && 0 <= d < n ==> #[trigger] out_hc@[g * n + d] == plain@[d],
        decreases 4 - h,
    {
        let mut d: usize = 0;
        let ghost before = out_hc@;
        assert(out_hc.len() <= usize::MAX);
        assert((h + 1) * n == h * n + n && (h + 1) * n <= 4 * n) by (nonlinear_arith)
            requires
                h < 4,
        ;
        while d < n
            invariant
                d <= n == plain@.len(),
                h < 4,
                base == h * n,
                base + n <= out_hc@.len() <= usize::MAX,
                out_hc@.len() == before.len(),
                forall|p: int| 0 <= p < base ==> out_hc@[p] == before[p],
                forall|e: int| 0 <= e < d ==> out_hc@[base + e] == plain@[e],
            decreases n - d,
        {
            out_hc[base + d] = plain[d];
            d = d + 1;
        }
        assert forall|g: int, e: int| 0 <= g < h + 1 && 0 <= e < n implies #[trigger] out_hc@[g * n
            + e] == plain@[e] by {
            if g < h {
                assert(g * n + n <= h * n) by (nonlinear_arith)
                    requires
                        g + 1 <= h,
                        0 <= n,
                ;
                assert(0 <= g * n) by (nonlinear_arith)
                    requires
                        0 <= g,
                        0 <= n,
                ;
                assert(before[g * n + e] == plain@[e]);
            }
        }
        base = base + n;
        h = h + 1;
    }
}

} // verus!
