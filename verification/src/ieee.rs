//! The order of single-precision numbers, on their bits.

use vstd::prelude::*;

verus! {

/// The bits of one.
pub const ONE: u32 = 0x3F80_0000;

/// The bits of negative infinity.
pub const NEG_INFINITY: u32 = 0xFF80_0000;

/// The sign bit.
pub open spec fn negative(b: u32) -> bool {
    b >= 0x8000_0000
}

/// The bits without the sign.
pub open spec fn magnitude(b: u32) -> int {
    if negative(b) {
        b - 0x8000_0000
    } else {
        b as int
    }
}

/// The bits are those of no number.
pub open spec fn nan(b: u32) -> bool {
    magnitude(b) > 0x7F80_0000
}

/// A position on the number line: numbers compare as their positions do, and
/// both zeros have position zero.
pub open spec fn line(b: u32) -> int {
    if negative(b) {
        -magnitude(b)
    } else {
        magnitude(b)
    }
}

/// `a > b` in floating point: false where one of them is no number.
pub open spec fn above(a: u32, b: u32) -> bool {
    !nan(a) && !nan(b) && line(a) > line(b)
}

/// `a >= b` in floating point: false where one of them is no number.
pub open spec fn at_least(a: u32, b: u32) -> bool {
    !nan(a) && !nan(b) && line(a) >= line(b)
}

/// Whether the bits are those of no number.
pub fn is_nan(b: u32) -> (r: bool)
    ensures
        r == nan(b),
{
    if b >= 0x8000_0000 {
        b - 0x8000_0000 > 0x7F80_0000
    } else {
        b > 0x7F80_0000
    }
}

/// `a > b` in floating point.
pub fn is_above(a: u32, b: u32) -> (r: bool)
    ensures
        r == above(a, b),
{
    if is_nan(a) || is_nan(b) {
        return false;
    }
    place(a) > place(b)
}

/// `a >= b` in floating point.
pub fn is_at_least(a: u32, b: u32) -> (r: bool)
    ensures
        r == at_least(a, b),
{
    if is_nan(a) || is_nan(b) {
        return false;
    }
    place(a) >= place(b)
}

/// The position of a number on the number line.
pub(crate) fn place(b: u32) -> (r: i64)
    ensures
        r == line(b),
{
    if b >= 0x8000_0000 {
        -((b - 0x8000_0000) as i64)
    } else {
        b as i64
    }
}

/// The order is irreflexive and transitive.
pub proof fn lemma_above_strict(a: u32, b: u32, c: u32)
    ensures
        !above(a, a),
        above(a, b) && above(b, c) ==> above(a, c),
{
}

} // verus!
