//! Quantized block layouts.
//!
//! * `Q2_K`: routed down experts
//! * `Q4_K`: routed experts in the high-memory variant
//! * `IQ2_XXS`: routed gate and up experts
//! * `Q8_K`: activation blocks
//!
//! A block holds 256 elements. Its bytes are laid out as the fields are
//! declared, without padding, multi-byte numbers in little-endian order.

use crate::bytes::{le_u64, le_value, lemma_pow256, signed_16, signed_8, to_signed_16, to_signed_8};
use vstd::prelude::*;
use vstd::slice::slice_subrange;

verus! {

/// Elements per block.
pub const QK_K: usize = 256;

#[derive(Clone, Copy, Debug)]
pub struct BlockQ2K {
    /// Scale (low four bits) and minimum (high four bits) of each 16 elements.
    pub scales: [u8; 16],
    /// Two-bit quants.
    pub qs: [u8; 64],
    /// Scale of the scales, in half precision.
    pub d: u16,
    /// Scale of the minima, in half precision.
    pub dmin: u16,
}

#[derive(Clone, Copy, Debug)]
pub struct BlockQ4K {
    pub d: u16,
    pub dmin: u16,
    /// Six-bit scales and minima.
    pub scales: [u8; 12],
    /// Four-bit quants.
    pub qs: [u8; 128],
}

#[derive(Clone, Copy, Debug)]
pub struct BlockQ8K {
    /// Scale, the bits of a single-precision number.
    pub d: u32,
    pub qs: [i8; 256],
    /// Sums of the quants of each 16 elements.
    pub bsums: [i16; 16],
}

#[derive(Clone, Copy, Debug)]
pub struct BlockIQ2XXS {
    pub d: u16,
    /// Packed grid and sign indices.
    pub qs: [u16; 32],
}

/// A block layout.
pub trait Block: Sized {
    /// The number of bytes of a block.
    spec fn bytes() -> nat;

    /// The block is what the bytes hold.
    spec fn is_held(self, b: Seq<u8>) -> bool;

    fn size() -> (n: usize)
        ensures
            n == Self::bytes(),
            n > 0,
    ;

    fn read(b: &[u8]) -> (r: Self)
        requires
            b@.len() == Self::bytes(),
        ensures
            r.is_held(b@),
    ;
}

/// The 16-bit number at `pos`.
pub open spec fn word_at(b: Seq<u8>, pos: int) -> u16 {
    le_value(b.subrange(pos, pos + 2)) as u16
}

pub(crate) fn read_word(b: &[u8], pos: usize) -> (v: u16)
    requires
        pos + 2 <= b.len(),
    ensures
        v == word_at(b@, pos as int),
{
    proof {
        lemma_pow256();
    }
    le_u64(slice_subrange(b, pos, pos + 2)) as u16
}

impl Block for BlockQ2K {
    open spec fn bytes() -> nat {
        84
    }

    open spec fn is_held(self, b: Seq<u8>) -> bool {
        &&& self.scales@ == b.subrange(0, 16)
        &&& self.qs@ == b.subrange(16, 80)
        &&& self.d == word_at(b, 80)
        &&& self.dmin == word_at(b, 82)
    }

    fn size() -> (n: usize) {
        84
    }

    fn read(b: &[u8]) -> (r: Self) {
        let mut scales: [u8; 16] = [0u8;16];
        let mut i: usize = 0;
        while i < 16
            invariant
                i <= 16,
                b@.len() == 84,
                forall|j: int| 0 <= j < i ==> scales@[j] == b@[j],
            decreases 16 - i,
        {
            scales[i] = b[i];
            i = i + 1;
        }
        assert(scales@ =~= b@.subrange(0, 16));
        let mut qs: [u8; 64] = [0u8;64];
        let mut i: usize = 0;
        while i < 64
            invariant
                i <= 64,
                b@.len() == 84,
                forall|j: int| 0 <= j < i ==> qs@[j] == b@[16 + j],
            decreases 64 - i,
        {
            qs[i] = b[16 + i];
            i = i + 1;
        }
        assert(qs@ =~= b@.subrange(16, 80));
        BlockQ2K { scales, qs, d: read_word(b, 80), dmin: read_word(b, 82) }
    }
}

impl Block for BlockQ4K {
    open spec fn bytes() -> nat {
        144
    }

    open spec fn is_held(self, b: Seq<u8>) -> bool {
        &&& self.d == word_at(b, 0)
        &&& self.dmin == word_at(b, 2)
        &&& self.scales@ == b.subrange(4, 16)
        &&& self.qs@ == b.subrange(16, 144)
    }

    fn size() -> (n: usize) {
        144
    }

    fn read(b: &[u8]) -> (r: Self) {
        let mut scales: [u8; 12] = [0u8;12];
        let mut i: usize = 0;
        while i < 12
            invariant
                i <= 12,
                b@.len() == 144,
                forall|j: int| 0 <= j < i ==> scales@[j] == b@[4 + j],
            decreases 12 - i,
        {
            scales[i] = b[4 + i];
            i = i + 1;
        }
        assert(scales@ =~= b@.subrange(4, 16));
        let mut qs: [u8; 128] = [0u8;128];
        let mut i: usize = 0;
        while i < 128
            invariant
                i <= 128,
                b@.len() == 144,
                forall|j: int| 0 <= j < i ==> qs@[j] == b@[16 + j],
            decreases 128 - i,
        {
            qs[i] = b[16 + i];
            i = i + 1;
        }
        assert(qs@ =~= b@.subrange(16, 144));
        BlockQ4K { d: read_word(b, 0), dmin: read_word(b, 2), scales, qs }
    }
}

impl Block for BlockQ8K {
    open spec fn bytes() -> nat {
        292
    }

    open spec fn is_held(self, b: Seq<u8>) -> bool {
        &&& self.d == le_value(b.subrange(0, 4))
        &&& forall|i: int| 0 <= i < 256 ==> #[trigger] self.qs@[i] == signed_8(b[4 + i])
        &&& forall|i: int|
            0 <= i < 16 ==> #[trigger] self.bsums@[i] == signed_16(word_at(b, 260 + 2 * i))
    }

    fn size() -> (n: usize) {
        292
    }

    fn read(b: &[u8]) -> (r: Self) {
        let mut qs: [i8; 256] = [0i8;256];
        let mut i: usize = 0;
        while i < 256
            invariant
                i <= 256,
                b@.len() == 292,
                forall|j: int| 0 <= j < i ==> #[trigger] qs@[j] == signed_8(b@[4 + j]),
            decreases 256 - i,
        {
            qs[i] = to_signed_8(b[4 + i]);
            i = i + 1;
        }
        let mut bsums: [i16; 16] = [0i16;16];
        let mut i: usize = 0;
        while i < 16
            invariant
                i <= 16,
                b@.len() == 292,
                forall|j: int|
                    0 <= j < i ==> #[trigger] bsums@[j] == signed_16(word_at(b@, 260 + 2 * j)),
            decreases 16 - i,
        {
            bsums[i] = to_signed_16(read_word(b, 260 + 2 * i));
            i = i + 1;
        }
        proof {
            lemma_pow256();
        }
        let d: u32 = le_u64(slice_subrange(b, 0, 4)) as u32;
        BlockQ8K { d, qs, bsums }
    }
}

impl Block for BlockIQ2XXS {
    open spec fn bytes() -> nat {
        66
    }

    open spec fn is_held(self, b: Seq<u8>) -> bool {
        &&& self.d == word_at(b, 0)
        &&& forall|i: int| 0 <= i < 32 ==> #[trigger] self.qs@[i] == word_at(b, 2 + 2 * i)
    }

    fn size() -> (n: usize) {
        66
    }

    fn read(b: &[u8]) -> (r: Self) {
        let mut qs: [u16; 32] = [0u16;32];
        let mut i: usize = 0;
        while i < 32
            invariant
                i <= 32,
                b@.len() == 66,
                forall|j: int| 0 <= j < i ==> #[trigger] qs@[j] == word_at(b@, 2 + 2 * j),
            decreases 32 - i,
        {
            qs[i] = read_word(b, 2 + 2 * i);
            i = i + 1;
        }
        BlockIQ2XXS { d: read_word(b, 0), qs }
    }
}

/// The bytes of block number `i`.
pub open spec fn block_bytes(b: Seq<u8>, size: nat, i: int) -> Seq<u8> {
    b.subrange(i * size, i * size + size)
}

/// The blocks that some bytes hold, one after the other.
pub fn blocks<T: Block>(bytes: &[u8]) -> (out: Vec<T>)
    requires
        bytes@.len() % T::bytes() == 0,
    ensures
        out@.len() * T::bytes() == bytes@.len(),
        forall|i: int|
            0 <= i < out@.len() ==> (#[trigger] out@[i]).is_held(
                block_bytes(bytes@, T::bytes(), i),
            ),
{
    let size: usize = T::size();
    let mut out: Vec<T> = Vec::new();
    let mut pos: usize = 0;
    assert(0 * size == 0);
    while pos < bytes.len()
        invariant
            size == T::bytes(),
            size > 0,
            bytes@.len() % size as nat == 0,
            pos <= bytes@.len(),
            pos == out@.len() * size,
            forall|i: int|
                0 <= i < out@.len() ==> (#[trigger] out@[i]).is_held(
                    block_bytes(bytes@, size as nat, i),
                ),
        decreases bytes@.len() - pos,
    {
        let ghost k = out@.len() as int;
        proof {
            lemma_room(bytes@.len() as int, size as int, k);
            assert((k + 1) * size == k * size + size) by (nonlinear_arith);
        }
        out.push(T::read(slice_subrange(bytes, pos, pos + size)));
        pos = pos + size;
    }
    out
}

/// A multiple of `size` that exceeds `k * size` leaves room for one more.
proof fn lemma_room(n: int, size: int, k: int)
    requires
        size > 0,
        n % size == 0,
        k * size < n,
    ensures
        k * size + size <= n,
{
    let q = n / size;
    vstd::arithmetic::div_mod::lemma_fundamental_div_mod(n, size);
    assert(size * q == q * size) by (nonlinear_arith);
    assert(k < q) by (nonlinear_arith)
        requires
            k * size < q * size,
            size > 0,
    ;
    assert(k * size + size <= q * size) by (nonlinear_arith)
        requires
            k + 1 <= q,
            size > 0,
    ;
}

} // verus!
