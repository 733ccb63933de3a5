//! Half-precision numbers and the 8-bit E4M3 format, on their bits.
//!
//! A half-precision number is given by its 16 bits and a single-precision
//! number by its 32 bits. The conversions are stated over the numbers that the
//! bits stand for.

use crate::ieee::{magnitude, nan, negative};
use crate::rounding::{
    distance, increasing, is_nearest, lemma_nearest_is_top, lemma_nearest_of_neighbours,
    lemma_nearest_unique, lemma_p2_add, lemma_p2_monotonic, lemma_p2_positive, lemma_rounds,
    lemma_split, lemma_times_one, p2,
};
use vstd::prelude::*;

verus! {

/// The number that the magnitude bits of a half-precision number stand for, in
/// units of 2^-24. The bits of infinity stand for 65536 here, the number that
/// would come next.
pub open spec fn half_value(m: int) -> nat {
    if m < 1024 {
        m as nat
    } else {
        ((1024 + m % 1024) as nat) * p2((m / 1024 - 1) as nat)
    }
}

/// The number that the magnitude bits of a single-precision number stand for,
/// in units of 2^-149. The bits of infinity stand for the number that would come
/// next.
pub open spec fn single_value(m: int) -> nat {
    if m < 0x80_0000 {
        m as nat
    } else {
        ((0x80_0000 + m % 0x80_0000) as nat) * p2((m / 0x80_0000 - 1) as nat)
    }
}

/// A half-precision number in the units of single precision.
pub open spec fn scaled_half(m: int) -> nat {
    half_value(m) * p2(125)
}

/// What the half-precision magnitudes stand for, in the units of single
/// precision.
pub open spec fn half_values() -> spec_fn(int) -> nat {
    |m: int| scaled_half(m)
}

/// The half-precision magnitude `r` is nearest to the number `v` of single
/// precision, and even where two are equally near.
pub open spec fn is_nearest_half(v: nat, r: int) -> bool {
    is_nearest(half_values(), 0x7c00, v, r)
}

/// The magnitude bits of a half-precision number.
pub open spec fn half_magnitude(h: u16) -> int {
    h as int % 0x8000
}

pub open spec fn half_negative(h: u16) -> bool {
    h >= 0x8000
}

/// The bits of `h` are those of no number.
pub open spec fn half_nan(h: u16) -> bool {
    half_magnitude(h) > 0x7c00
}

/// `b` is `h` in single precision: the same number exactly. Infinity stays
/// infinity, and what is no number keeps its payload.
pub open spec fn is_widened(h: u16, b: u32) -> bool {
    let m = half_magnitude(h);
    &&& negative(b) == half_negative(h)
    &&& m < 0x7c00 ==> magnitude(b) < 0x7f80_0000 && single_value(magnitude(b)) == scaled_half(m)
    &&& m >= 0x7c00 ==> magnitude(b) == 0x7f80_0000 + (m - 0x7c00) * 0x2000
}

/// `h` is `b` in half precision: the nearest number, the even one of two that
/// are equally near. What is no number becomes the quiet one.
pub open spec fn is_narrowed(b: u32, h: u16) -> bool {
    &&& half_negative(h) == negative(b)
    &&& nan(b) ==> half_magnitude(h) == 0x7e00
    &&& !nan(b) ==> is_nearest_half(single_value(magnitude(b)), half_magnitude(h))
}

/// Half to single precision.
pub fn f16_to_f32(h: u16) -> (b: u32)
    ensures
        is_widened(h, b),
{
    let sign: u32 = if h >= 0x8000 {
        0x8000_0000
    } else {
        0
    };
    let a: u32 = h as u32 % 0x8000;
    let exp: u32 = a / 1024;
    let mant: u32 = a % 1024;
    if exp == 31 {
        return sign + 0x7f80_0000 + mant * 0x2000;
    }
    if exp > 0 {
        let b: u32 = (exp + 112) * 0x80_0000 + mant * 0x2000;
        proof {
            let e = exp as int;
            assert(b % 0x80_0000 == mant * 0x2000 && b / 0x80_0000 == e + 112) by {
                lemma_split(b as int, e + 112, mant * 0x2000, 0x80_0000);
            }
            lemma_p2_add((e - 1) as nat, 112);
            lemma_p2_add(13, 112);
            let x = p2((e - 1) as nat);
            let y = p2(112);
            let n = (1024 + mant) as nat;
            assert(p2(13) == 0x2000) by {
                reveal_with_fuel(p2, 14);
            }
            assert((0x80_0000 + mant * 0x2000) as nat == n * 0x2000);
            assert(n * 0x2000 * (x * y) == n * x * (0x2000 * y)) by (nonlinear_arith);
        }
        return sign + b;
    }
    if mant == 0 {
        assert(half_value(0) == 0 && 0 * p2(125) == 0);
        return sign;
    }
    let mut m: u32 = mant;
    let mut e: u32 = 113;
    let ghost mut k: nat = 0;
    proof {
        lemma_times_one(mant as int);
    }
    while m < 1024
        invariant
            0 < m < 2048,
            e == 113 - k,
            k <= 10,
            m == mant * p2(k),
            m >= p2(k),
            mant >= 1,
        decreases 2048 - m,
    {
        proof {
            if k >= 10 {
                reveal_with_fuel(p2, 11);
                assert(p2(10) == 1024);
            }
            let x = p2(k);
            assert(mant * (2 * x) == 2 * (mant * x)) by (nonlinear_arith);
            k = k + 1;
        }
        m = m * 2;
        e = e - 1;
    }
    let b: u32 = e * 0x80_0000 + (m - 1024) * 0x2000;
    proof {
        assert(b % 0x80_0000 == (m - 1024) * 0x2000 && b / 0x80_0000 == e) by {
            lemma_split(b as int, e as int, (m - 1024) * 0x2000, 0x80_0000);
        }
        assert(p2(13) == 0x2000) by {
            reveal_with_fuel(p2, 14);
        }
        lemma_p2_add(13, (e - 1) as nat);
        lemma_p2_add(k, (12 + e) as nat);
        let x = p2(k);
        let y = p2((e - 1) as nat);
        assert((0x80_0000 + (m - 1024) * 0x2000) as nat == m * 0x2000);
        assert(p2(125) == x * (0x2000 * y));
        assert(mant * x * 0x2000 * y == mant * (x * (0x2000 * y))) by (nonlinear_arith);
    }
    sign + b
}

/// A half-precision number is below the next one by the unit of its exponent.
proof fn lemma_half_step(m: int)
    requires
        0 <= m < 0x7c00,
    ensures
        half_value(m + 1) == half_value(m) + (if m < 1024 {
            1
        } else {
            p2((m / 1024 - 1) as nat)
        }),
        half_value(m) < half_value(m + 1),
{
    if m >= 1024 {
        let q = m / 1024;
        let x = p2((q - 1) as nat);
        lemma_p2_positive((q - 1) as nat);
        if m % 1024 == 1023 {
            assert((m + 1) / 1024 == q + 1 && (m + 1) % 1024 == 0);
            assert(p2(q as nat) == 2 * x);
            assert(half_value(m + 1) == 1024 * p2(q as nat));
            assert(half_value(m) == 2047 * x);
        } else {
            assert((m + 1) / 1024 == q && (m + 1) % 1024 == m % 1024 + 1);
            let n = (1024 + m % 1024) as nat;
            assert((n + 1) * x == n * x + x) by (nonlinear_arith);
        }
    } else if m == 1023 {
        assert((m + 1) / 1024 == 1 && (m + 1) % 1024 == 0);
        lemma_times_one(1024);
    }
}

proof fn lemma_half_monotonic(a: int, b: int)
    requires
        0 <= a < b <= 0x7c00,
    ensures
        half_value(a) < half_value(b),
    decreases b - a,
{
    lemma_half_step(b - 1);
    if a < b - 1 {
        lemma_half_monotonic(a, b - 1);
    }
}

proof fn lemma_scaled_monotonic(a: int, b: int)
    requires
        0 <= a < b <= 0x7c00,
    ensures
        scaled_half(a) < scaled_half(b),
{
    lemma_half_monotonic(a, b);
    lemma_p2_positive(125);
    let (x, y, s) = (half_value(a), half_value(b), p2(125));
    assert(x < y && s > 0 ==> x * s < y * s) by (nonlinear_arith);
}

/// Larger magnitudes stand for larger numbers.
pub proof fn lemma_half_increasing()
    ensures
        increasing(half_values(), 0x7c00),
{
    assert forall|a: int, b: int| 0 <= a < b <= 0x7c00 implies #[trigger] half_values()(a)
        < #[trigger] half_values()(b) by {
        lemma_scaled_monotonic(a, b);
    }
}

/// Two to the power of `k`.
fn two_to(k: u32) -> (r: u32)
    requires
        k < 32,
    ensures
        r == p2(k as nat),
{
    let mut r: u32 = 1;
    let mut i: u32 = 0;
    while i < k
        invariant
            i <= k < 32,
            r == p2(i as nat),
            r <= 0x8000_0000,
        decreases k - i,
    {
        proof {
            if i < 31 {
                lemma_p2_monotonic((i + 1) as nat, 31);
                assert(p2(31) == 0x8000_0000) by {
                    reveal_with_fuel(p2, 32);
                }
            }
        }
        r = r * 2;
        i = i + 1;
    }
    r
}

/// Single to half precision.
pub fn f32_to_f16(b: u32) -> (h: u16)
    ensures
        is_narrowed(b, h),
{
    let sign: u16 = if b >= 0x8000_0000 {
        0x8000
    } else {
        0
    };
    let a: u32 = b % 0x8000_0000;
    if a > 0x7f80_0000 {
        return sign + 0x7e00;
    }
    sign + nearest_half(a)
}

/// The half-precision magnitude nearest to a single-precision one.
fn nearest_half(a: u32) -> (r: u16)
    requires
        a <= 0x7f80_0000,
    ensures
        r <= 0x7c00,
        is_nearest_half(single_value(a as int), r as int),
{
    let e: u32 = a / 0x80_0000;
    if e >= 143 {
        proof {
            lemma_large_rounds_to_infinity(a as int);
        }
        return 0x7c00;
    }
    if e < 102 {
        proof {
            lemma_small_rounds_to_zero(a as int);
        }
        return 0;
    }
    if e <= 112 {
        return nearest_subnormal(a);
    }
    let mant: u32 = a % 0x80_0000;
    let q: u32 = (e - 112) * 1024 + mant / 0x2000;
    let rem: u32 = mant % 0x2000;
    proof {
        lemma_normal_rounds(a as int);
    }
    if rem > 0x1000 || (rem == 0x1000 && q % 2 == 1) {
        return (q + 1) as u16;
    }
    q as u16
}

fn nearest_subnormal(a: u32) -> (r: u16)
    requires
        102 <= a / 0x80_0000 <= 112,
    ensures
        r <= 0x7c00,
        is_nearest_half(single_value(a as int), r as int),
{
    let full: u32 = 0x80_0000 + a % 0x80_0000;
    let shift: u32 = 126 - a / 0x80_0000;
    let d: u32 = two_to(shift);
    proof {
        lemma_subnormal_rounds(a as int, d as int);
    }
    let q: u32 = full / d;
    let rem: u32 = full % d;
    if rem > d / 2 || (rem == d / 2 && q % 2 == 1) {
        return (q + 1) as u16;
    }
    q as u16
}

proof fn lemma_normal_rounds(a: int)
    requires
        113 <= a / 0x80_0000 <= 142,
    ensures
        ({
            let mant = a % 0x80_0000;
            let q = (a / 0x80_0000 - 112) * 1024 + mant / 0x2000;
            let rem = mant % 0x2000;
            is_nearest_half(
                single_value(a),
                if rem > 0x1000 || (rem == 0x1000 && q % 2 == 1) {
                    q + 1
                } else {
                    q
                },
            )
        }),
{
    let e = a / 0x80_0000;
    let mant = a % 0x80_0000;
    let k = (e - 112) * 1024 + mant / 0x2000;
    let rem = (mant % 0x2000) as nat;
    let u = p2((e - 1) as nat);
    let n = (1024 + mant / 0x2000) as nat;
    assert(k / 1024 == e - 112 && k % 1024 == mant / 0x2000);
    lemma_p2_positive((e - 1) as nat);
    lemma_p2_add((e - 113) as nat, 125);
    lemma_p2_add(13, (e - 1) as nat);
    assert(p2(13) == 0x2000) by {
        reveal_with_fuel(p2, 14);
    }
    let x = p2((e - 113) as nat);
    let y = p2(125);
    assert(x * y == 0x2000 * u);
    assert(scaled_half(k) == n * 0x2000 * u) by {
        assert(n * x * y == n * (x * y)) by (nonlinear_arith);
        assert(n * (0x2000 * u) == n * 0x2000 * u) by (nonlinear_arith);
    }
    lemma_half_step(k);
    let hv = half_value(k);
    assert((hv + x) * y == hv * y + x * y) by (nonlinear_arith);
    assert(0x80_0000 + mant == n * 0x2000 + rem);
    lemma_half_increasing();
    lemma_rounds(half_values(), 0x7c00, single_value(a), k, n, 0x2000, rem, u);
}

proof fn lemma_subnormal_rounds(a: int, d: int)
    requires
        102 <= a / 0x80_0000 <= 112,
        d == p2((126 - a / 0x80_0000) as nat),
    ensures
        d > 0,
        ({
            let full = 0x80_0000 + a % 0x80_0000;
            let q = full / d;
            let rem = full % d;
            &&& 0 <= q < 1024
            &&& is_nearest_half(
                single_value(a),
                if rem > d / 2 || (rem == d / 2 && q % 2 == 1) {
                    q + 1
                } else {
                    q
                },
            )
        }),
{
    let e = a / 0x80_0000;
    let full = 0x80_0000 + a % 0x80_0000;
    let u = p2((e - 1) as nat);
    let shift = (126 - e) as nat;
    lemma_p2_positive((e - 1) as nat);
    lemma_p2_positive(shift);
    lemma_p2_add(shift, (e - 1) as nat);
    lemma_p2_monotonic(14, shift);
    assert(p2(14) == 0x4000) by {
        reveal_with_fuel(p2, 15);
    }
    let q = full / d;
    let rem = full % d;
    vstd::arithmetic::div_mod::lemma_fundamental_div_mod(full, d);
    assert(q * d == d * q) by (nonlinear_arith);
    assert(0 <= rem < d && 0 <= q) by {
        vstd::arithmetic::div_mod::lemma_mod_bound(full, d);
        vstd::arithmetic::div_mod::lemma_div_pos_is_pos(full, d);
    }
    assert(q < 1024) by (nonlinear_arith)
        requires
            full < 0x100_0000,
            full == d * q + rem,
            rem >= 0,
            d >= 0x4000,
    ;
    assert(d % 2 == 0) by {
        assert(p2(shift) == 2 * p2((shift - 1) as nat));
    }
    assert(p2(125) == d * u);
    let (n, dn) = (q as nat, d as nat);
    assert(scaled_half(q) == n * dn * u) by {
        assert(n * (dn * u) == n * dn * u) by (nonlinear_arith);
    }
    lemma_half_step(q);
    assert((n + 1) * (dn * u) == n * dn * u + dn * u) by (nonlinear_arith);
    lemma_half_increasing();
    lemma_rounds(half_values(), 0x7c00, single_value(a), q, n, dn, rem as nat, u);
}

proof fn lemma_small_rounds_to_zero(a: int)
    requires
        0 <= a,
        a / 0x80_0000 < 102,
    ensures
        is_nearest_half(single_value(a), 0),
{
    let e = a / 0x80_0000;
    let v = single_value(a);
    lemma_p2_positive(125);
    lemma_p2_positive(124);
    assert(p2(125) == 2 * p2(124));
    assert(half_value(0) == 0 && half_value(1) == 1);
    assert(scaled_half(0) == 0 && scaled_half(1) == p2(125)) by {
        assert(0 * p2(125) == 0 && 1 * p2(125) == p2(125));
    }
    assert(v < p2(124)) by {
        assert(p2(24) == 0x100_0000) by {
            reveal_with_fuel(p2, 25);
        }
        if e == 0 {
            lemma_p2_monotonic(24, 124);
        } else {
            let u = p2((e - 1) as nat);
            let n = (0x80_0000 + a % 0x80_0000) as nat;
            lemma_p2_add(24, (e - 1) as nat);
            lemma_p2_monotonic((e + 23) as nat, 124);
            lemma_p2_positive((e - 1) as nat);
            assert(n * u < 0x100_0000 * u) by (nonlinear_arith)
                requires
                    n < 0x100_0000,
                    u > 0,
            ;
        }
    }
    lemma_half_increasing();
    lemma_nearest_of_neighbours(half_values(), 0x7c00, v, 0, 0);
}

proof fn lemma_large_rounds_to_infinity(a: int)
    requires
        143 <= a / 0x80_0000,
    ensures
        is_nearest_half(single_value(a), 0x7c00),
{
    let e = a / 0x80_0000;
    let v = single_value(a);
    let u = p2((e - 1) as nat);
    let n = (0x80_0000 + a % 0x80_0000) as nat;
    assert(p2(23) == 0x80_0000 && p2(10) == 1024) by {
        reveal_with_fuel(p2, 24);
    }
    lemma_p2_add(23, (e - 1) as nat);
    lemma_p2_monotonic(165, (e + 22) as nat);
    lemma_p2_positive((e - 1) as nat);
    assert(n * u >= 0x80_0000 * u) by (nonlinear_arith)
        requires
            n >= 0x80_0000,
            u > 0,
    ;
    lemma_p2_add(10, 30);
    lemma_p2_add(40, 125);
    assert(half_value(0x7c00) == 1024 * p2(30)) by {
        assert(0x7c00int / 1024 == 31 && 0x7c00int % 1024 == 0);
    }
    assert(scaled_half(0x7c00) == p2(165));
    assert(v >= scaled_half(0x7c00));
    lemma_half_increasing();
    lemma_nearest_is_top(half_values(), 0x7c00, v);
}

/// Converting a half-precision number to single precision and back gives it
/// back.
pub proof fn lemma_half_round_trip(h: u16, b: u32, r: u16)
    requires
        !half_nan(h),
        is_widened(h, b),
        is_narrowed(b, r),
    ensures
        r == h,
{
    let m = half_magnitude(h);
    let q = half_magnitude(r);
    if m == 0x7c00 {
        lemma_large_rounds_to_infinity(magnitude(b));
        lemma_half_increasing();
        lemma_nearest_unique(half_values(), 0x7c00, single_value(magnitude(b)), q, m);
    } else if m != q {
        if m < q {
            lemma_scaled_monotonic(m, q);
        } else {
            lemma_scaled_monotonic(q, m);
        }
        assert(distance(single_value(magnitude(b)), half_values()(m)) == 0);
    }
}

/// There is one narrowed form of every number.
pub proof fn lemma_narrowed_unique(b: u32, h: u16, k: u16)
    requires
        is_narrowed(b, h),
        is_narrowed(b, k),
    ensures
        h == k,
{
    if !nan(b) {
        lemma_half_increasing();
        lemma_nearest_unique(
            half_values(),
            0x7c00,
            single_value(magnitude(b)),
            half_magnitude(h),
            half_magnitude(k),
        );
    }
}

/// Larger single-precision magnitudes stand for larger numbers.
pub proof fn lemma_single_monotonic(a: int, b: int)
    requires
        0 <= a < b <= 0x7f80_0000,
    ensures
        single_value(a) < single_value(b),
    decreases b - a,
{
    let m = b - 1;
    if m >= 0x80_0000 {
        let q = m / 0x80_0000;
        let x = p2((q - 1) as nat);
        lemma_p2_positive((q - 1) as nat);
        if m % 0x80_0000 == 0x7f_ffff {
            assert(b / 0x80_0000 == q + 1 && b % 0x80_0000 == 0);
            assert(p2(q as nat) == 2 * x);
            assert(single_value(b) == 0x80_0000 * p2(q as nat));
            assert(single_value(m) == 0xff_ffff * x);
        } else {
            assert(b / 0x80_0000 == q && b % 0x80_0000 == m % 0x80_0000 + 1);
            let n = (0x80_0000 + m % 0x80_0000) as nat;
            assert((n + 1) * x == n * x + x) by (nonlinear_arith);
        }
    } else if m == 0x7f_ffff {
        assert(b / 0x80_0000 == 1 && b % 0x80_0000 == 0);
        lemma_times_one(0x80_0000);
    }
    if a < m {
        lemma_single_monotonic(a, m);
    }
}

/// There is one widened form of every number.
pub proof fn lemma_widened_unique(h: u16, a: u32, b: u32)
    requires
        is_widened(h, a),
        is_widened(h, b),
    ensures
        a == b,
{
    if half_magnitude(h) < 0x7c00 {
        if magnitude(a) < magnitude(b) {
            lemma_single_monotonic(magnitude(a), magnitude(b));
        } else if magnitude(b) < magnitude(a) {
            lemma_single_monotonic(magnitude(b), magnitude(a));
        }
    }
}

/// Round every number of a slice to half precision and back.
pub fn round_inplace(x: &mut [u32])
    ensures
        final(x)@.len() == old(x)@.len(),
        forall|i: int|
            #![trigger final(x)@[i]]
            0 <= i < old(x)@.len() ==> is_rounded(old(x)@[i], final(x)@[i]),
{
    let mut i: usize = 0;
    let n: usize = x.len();
    while i < n
        invariant
            i <= n == x@.len() == old(x)@.len(),
            forall|j: int| 0 <= j < i ==> is_rounded(old(x)@[j], #[trigger] x@[j]),
            forall|j: int| i <= j < n ==> old(x)@[j] == #[trigger] x@[j],
        decreases n - i,
    {
        let h: u16 = f32_to_f16(x[i]);
        x[i] = f16_to_f32(h);
        i = i + 1;
    }
}

/// `r` is `b` rounded to half precision.
pub open spec fn is_rounded(b: u32, r: u32) -> bool {
    exists|h: u16| is_narrowed(b, h) && #[trigger] is_widened(h, r)
}

/// Rounding twice is rounding once.
pub proof fn lemma_rounding_idempotent(b: u32, r: u32, s: u32)
    requires
        is_rounded(b, r),
        is_rounded(r, s),
    ensures
        s == r,
{
    let h = choose|h: u16| is_narrowed(b, h) && #[trigger] is_widened(h, r);
    let k = choose|k: u16| is_narrowed(r, k) && #[trigger] is_widened(k, s);
    if !nan(b) {
        lemma_half_round_trip(h, r, k);
    }
    assert(h == k);
    lemma_widened_unique(h, r, s);
}

/// The number that an E4M3 code stands for, in units of 2^-149.
pub open spec fn e4m3_value(code: int) -> nat {
    if code < 8 {
        (code as nat) * p2(140)
    } else {
        ((8 + code % 8) as nat) * p2((code / 8 + 139) as nat)
    }
}

/// The E4M3 code in the low seven bits of a number.
pub open spec fn e4m3_code(i: i32) -> int {
    i as int % 128
}

/// The bits of the number that an E4M3 code stands for: an exponent of four
/// bits and a mantissa of three.
pub fn e4m3fn_value(i: i32) -> (b: u32)
    ensures
        b < 0x7f80_0000,
        single_value(b as int) == e4m3_value(e4m3_code(i)),
{
    let code: u32 = (i as i64 % 128 + 128) as u32 % 128;
    assert(code == e4m3_code(i));
    let exp: u32 = code / 8;
    let mant: u32 = code % 8;
    if exp > 0 {
        let b: u32 = (exp + 120) * 0x80_0000 + mant * 0x10_0000;
        proof {
            lemma_split(b as int, exp + 120, mant * 0x10_0000, 0x80_0000);
            assert(p2(20) == 0x10_0000) by {
                reveal_with_fuel(p2, 21);
            }
            lemma_p2_add(20, (exp + 119) as nat);
            let n = (8 + mant) as nat;
            let x = p2((exp + 119) as nat);
            assert((0x80_0000 + mant * 0x10_0000) as nat == n * 0x10_0000);
            assert(n * 0x10_0000 * x == n * (0x10_0000 * x)) by (nonlinear_arith);
        }
        return b;
    }
    let (e, m): (u32, u32) = if mant == 0 {
        (0, 0)
    } else if mant == 1 {
        (118, 0)
    } else if mant < 4 {
        (119, (mant - 2) * 0x40_0000)
    } else {
        (120, (mant - 4) * 0x20_0000)
    };
    let b: u32 = e * 0x80_0000 + m;
    proof {
        lemma_split(b as int, e as int, m as int, 0x80_0000);
        assert(p2(21) == 0x20_0000 && p2(22) == 0x40_0000 && p2(23) == 0x80_0000) by {
            reveal_with_fuel(p2, 24);
        }
        lemma_p2_add(23, 117);
        lemma_p2_add(22, 118);
        lemma_p2_add(21, 119);
        assert(0 * p2(140) == 0 && 1 * p2(140) == p2(140));
        assert(e4m3_value(code as int) == (mant as nat) * p2(140));
        if mant == 1 {
            assert(single_value(b as int) == 0x80_0000 * p2(117));
        } else if mant >= 2 && mant < 4 {
            let (n, x) = (mant as nat, p2(118));
            assert((0x80_0000 + m) as nat == n * 0x40_0000);
            assert(n * 0x40_0000 * x == n * (0x40_0000 * x)) by (nonlinear_arith);
        } else if mant >= 4 {
            let (n, x) = (mant as nat, p2(119));
            assert((0x80_0000 + m) as nat == n * 0x20_0000);
            assert(n * 0x20_0000 * x == n * (0x20_0000 * x)) by (nonlinear_arith);
        }
    }
    b
}

/// The bits of 448, the largest number of the format.
pub const E4M3_MAX: u32 = 0x43E0_0000;

/// The magnitude that is decoded: at most 448. What is no number counts as 448.
pub open spec fn clamped(b: u32) -> int {
    if magnitude(b) > E4M3_MAX {
        E4M3_MAX as int
    } else {
        magnitude(b)
    }
}

/// `code` is the largest E4M3 code whose number is not above that of the
/// single-precision magnitude `m`.
pub open spec fn is_floor_code(m: int, code: int) -> bool {
    &&& 0 <= code <= 126
    &&& e4m3_value(code) <= single_value(m)
    &&& forall|c: int| code < c <= 126 ==> #[trigger] e4m3_value(c) > single_value(m)
}

/// `r` is `b` in the E4M3 format: of the same sign, with zero and what is no
/// number positive, and the number of the largest code not above it.
pub open spec fn is_e4m3(b: u32, r: u32) -> bool {
    &&& negative(r) == (negative(b) && !nan(b) && magnitude(b) != 0)
    &&& magnitude(r) < 0x7f80_0000
    &&& exists|code: int| #[trigger]
        is_floor_code(clamped(b), code) && single_value(magnitude(r)) == e4m3_value(code)
}

proof fn lemma_e4m3_step(code: int)
    requires
        0 <= code < 127,
    ensures
        e4m3_value(code) < e4m3_value(code + 1),
{
    lemma_p2_positive(140);
    let q = code / 8;
    if code >= 8 {
        let x = p2((q + 139) as nat);
        lemma_p2_positive((q + 139) as nat);
        if code % 8 == 7 {
            assert((code + 1) / 8 == q + 1 && (code + 1) % 8 == 0);
            assert(p2((q + 140) as nat) == 2 * x);
            assert(e4m3_value(code + 1) == 8 * p2((q + 140) as nat));
            assert(e4m3_value(code) == 15 * x);
        } else {
            assert((code + 1) / 8 == q && (code + 1) % 8 == code % 8 + 1);
            let n = (8 + code % 8) as nat;
            assert((n + 1) * x == n * x + x) by (nonlinear_arith);
        }
    } else if code == 7 {
        assert((code + 1) / 8 == 1 && (code + 1) % 8 == 0);
        assert(e4m3_value(8) == 8 * p2(140));
        assert(e4m3_value(7) == 7 * p2(140));
    } else {
        let (n, x) = (code as nat, p2(140));
        assert((n + 1) * x == n * x + x) by (nonlinear_arith);
    }
}

/// Larger codes stand for larger numbers.
pub proof fn lemma_e4m3_monotonic(a: int, b: int)
    requires
        0 <= a < b <= 127,
    ensures
        e4m3_value(a) < e4m3_value(b),
    decreases b - a,
{
    lemma_e4m3_step(b - 1);
    if a < b - 1 {
        lemma_e4m3_monotonic(a, b - 1);
    }
}

/// Decode through the E4M3 format: the largest number of the format that is not
/// above the given one in magnitude.
pub fn e4m3fn_dequant(b: u32) -> (r: u32)
    ensures
        is_e4m3(b, r),
{
    let a: u32 = b % 0x8000_0000;
    let minus: bool = b > 0x8000_0000 && a <= 0x7f80_0000;
    let m: u32 = if a > E4M3_MAX {
        E4M3_MAX
    } else {
        a
    };
    let mut lo: i32 = 0;
    let mut hi: i32 = 126;
    assert(e4m3_value(0) == 0) by {
        assert(0 * p2(140) == 0);
    }
    while lo < hi
        invariant
            0 <= lo <= hi <= 126,
            m == clamped(b),
            m <= E4M3_MAX,
            e4m3_value(lo as int) <= single_value(m as int),
            forall|c: int| hi < c <= 126 ==> #[trigger] e4m3_value(c) > single_value(m as int),
        decreases hi - lo,
    {
        let mid: i32 = (lo + hi + 1) / 2;
        let v: u32 = e4m3fn_value(mid);
        proof {
            if v < m {
                lemma_single_monotonic(v as int, m as int);
            } else if m < v {
                lemma_single_monotonic(m as int, v as int);
            }
        }
        if v <= m {
            lo = mid;
        } else {
            assert forall|c: int| mid - 1 < c <= 126 implies #[trigger] e4m3_value(c)
                > single_value(m as int) by {
                if mid < c <= hi {
                    lemma_e4m3_monotonic(mid as int, c);
                }
            }
            hi = mid - 1;
        }
    }
    let v: u32 = e4m3fn_value(lo);
    assert(is_floor_code(clamped(b), lo as int));
    if minus {
        v + 0x8000_0000
    } else {
        v
    }
}

/// There is one such code.
pub proof fn lemma_floor_code_unique(m: int, a: int, b: int)
    requires
        is_floor_code(m, a),
        is_floor_code(m, b),
    ensures
        a == b,
{
}

/// Decoding twice is decoding once: the numbers of the format stay, and so do
/// their signs unless they are zero.
pub proof fn lemma_e4m3_idempotent(b: u32, r: u32, s: u32)
    requires
        is_e4m3(b, r),
        is_e4m3(r, s),
        magnitude(r) <= E4M3_MAX,
    ensures
        magnitude(s) == magnitude(r),
        magnitude(r) != 0 ==> s == r,
{
    let c = choose|c: int| #[trigger]
        is_floor_code(clamped(b), c) && single_value(magnitude(r)) == e4m3_value(c);
    let d = choose|d: int| #[trigger]
        is_floor_code(clamped(r), d) && single_value(magnitude(s)) == e4m3_value(d);
    assert(is_floor_code(clamped(r), c)) by {
        assert forall|k: int| c < k <= 126 implies #[trigger] e4m3_value(k) > e4m3_value(c) by {
            lemma_e4m3_monotonic(c, k);
        }
    }
    assert(c == d);
    if magnitude(r) < magnitude(s) {
        lemma_single_monotonic(magnitude(r), magnitude(s));
    } else if magnitude(s) < magnitude(r) {
        lemma_single_monotonic(magnitude(s), magnitude(r));
    }
}

/// What half-precision bits stand for: up to twice the smallest normal number the
/// bits themselves, in units of 2^-24, and a number with the next exponent is twice
/// the number; the bits of one stand for one.
pub proof fn lemma_half_numbers(m: int)
    requires
        0 <= m,
    ensures
        m < 2048 ==> half_value(m) == m,
        m >= 1024 ==> half_value(m + 1024) == 2 * half_value(m),
        half_value(0x3c00) == 0x100_0000,
{
    if 1024 <= m {
        let q = m / 1024;
        assert((m + 1024) / 1024 == q + 1 && (m + 1024) % 1024 == m % 1024);
        let (x, n) = (p2((q - 1) as nat), (1024 + m % 1024) as nat);
        assert(p2(q as nat) == 2 * x);
        assert(n * (2 * x) == 2 * (n * x)) by (nonlinear_arith);
        if m < 2048 {
            lemma_times_one(m);
        }
    }
    assert(p2(14) == 16384) by {
        reveal_with_fuel(p2, 15);
    }
    assert(0x3c00int / 1024 == 15 && 0x3c00int % 1024 == 0);
    assert(half_value(0x3c00) == 1024 * p2(14));
}

/// What single-precision bits stand for, in units of 2^-149, in the same way; and one
/// is the same number in both precisions.
pub proof fn lemma_single_numbers(m: int)
    requires
        0 <= m,
    ensures
        m < 0x100_0000 ==> single_value(m) == m,
        m >= 0x80_0000 ==> single_value(m + 0x80_0000) == 2 * single_value(m),
        single_value(0x3f80_0000) == scaled_half(0x3c00),
{
    if 0x80_0000 <= m {
        let q = m / 0x80_0000;
        assert((m + 0x80_0000) / 0x80_0000 == q + 1 && (m + 0x80_0000) % 0x80_0000 == m
            % 0x80_0000);
        let (x, n) = (p2((q - 1) as nat), (0x80_0000 + m % 0x80_0000) as nat);
        assert(p2(q as nat) == 2 * x);
        assert(n * (2 * x) == 2 * (n * x)) by (nonlinear_arith);
        if m < 0x100_0000 {
            lemma_times_one(m);
        }
    }
    lemma_half_numbers(0);
    assert(p2(126) == 2 * p2(125));
    assert(single_value(0x3f80_0000) == 0x80_0000 * p2(126));
}

/// What E4M3 codes stand for: below sixteen, so many times 2^-9, and the number of the
/// code eight further on is twice the number; code 0x38 stands for one, and the
/// largest for 448.
pub proof fn lemma_e4m3_numbers(code: int)
    requires
        0 <= code,
    ensures
        code < 16 ==> e4m3_value(code) == code * p2(140),
        code >= 8 ==> e4m3_value(code + 8) == 2 * e4m3_value(code),
        e4m3_value(0x38) == single_value(0x3f80_0000),
        e4m3_value(126) == 448 * single_value(0x3f80_0000),
        e4m3_value(126) == single_value(E4M3_MAX as int),
{
    if code >= 8 {
        let q = code / 8;
        assert((code + 8) / 8 == q + 1 && (code + 8) % 8 == code % 8);
        let (x, n) = (p2((q + 139) as nat), (8 + code % 8) as nat);
        assert(p2((q + 140) as nat) == 2 * x);
        assert(n * (2 * x) == 2 * (n * x)) by (nonlinear_arith);
        if code < 16 {
            assert(q == 1);
        }
    }
    lemma_p2_add(126, 20);
    lemma_p2_add(126, 28);
    lemma_p2_add(126, 8);
    assert(p2(20) == 0x10_0000 && p2(28) == 0x1000_0000 && p2(8) == 256) by {
        reveal_with_fuel(p2, 29);
    }
    let x = p2(126);
    assert(single_value(0x3f80_0000) == 0x80_0000 * x);
    assert(e4m3_value(0x38) == 8 * p2(146));
    assert(e4m3_value(126) == 14 * p2(154));
    assert(0x43E0_0000int / 0x80_0000 == 135 && 0x43E0_0000int % 0x80_0000 == 0x60_0000);
    assert(single_value(0x43E0_0000) == 0xE0_0000 * p2(134));
}

/// Rounding to half precision gives a closest number: no other is closer, and an
/// equally close one is not preferred to an even one.
pub proof fn lemma_narrowed_closest(b: u32, h: u16, other: int)
    requires
        is_narrowed(b, h),
        !nan(b),
        0 <= other <= 0x7c00,
    ensures
        ({
            let v = single_value(magnitude(b)) as int;
            let (x, y) = (
                half_value(half_magnitude(h)) * p2(125) - v,
                half_value(other) * p2(125) - v,
            );
            &&& (x >= 0 && y >= 0 ==> x <= y)
            &&& (x >= 0 && y < 0 ==> x <= -y)
            &&& (x < 0 && y >= 0 ==> -x <= y)
            &&& (x < 0 && y < 0 ==> -x <= -y)
            &&& half_negative(h) == (b >= 0x8000_0000)
        }),
{
    let r = half_magnitude(h);
    let v = single_value(magnitude(b));
    let f = half_values();
    assert(f(r) == scaled_half(r) && f(other) == scaled_half(other));
    if other != r {
        assert(distance(v, f(r)) <= distance(v, f(other)));
    }
}

/// Infinities stay infinities and what is no number stays none, in both directions;
/// what is too large for half precision becomes infinite, with its sign.
pub proof fn lemma_special_numbers(h: u16, b: u32)
    ensures
        is_widened(h, b) ==> (h == 0x7c00 ==> b == 0x7f80_0000) && (h == 0xfc00 ==> b
            == 0xff80_0000) && (half_nan(h) <==> nan(b)) && (h == 0 ==> b == 0) && (h == 0x8000
            ==> b == 0x8000_0000),
        is_narrowed(b, h) && nan(b) ==> half_nan(h),
        is_narrowed(b, h) && !nan(b) ==> !half_nan(h),
        half_nan(h) <==> 0x7c00 < h < 0x8000 || 0xfc00 < h,
{
    if is_widened(h, b) && half_magnitude(h) == 0 {
        assert(scaled_half(0) == 0) by {
            assert(0 * p2(125) == 0);
        }
        if magnitude(b) > 0 {
            lemma_single_monotonic(0, magnitude(b));
        }
    }
}

/// The E4M3 number of a number is the largest that is not beyond it, up to 448, and has
/// its sign; no other E4M3 number lies between the two.
pub proof fn lemma_e4m3_floor(b: u32, r: u32, other: int)
    requires
        is_e4m3(b, r),
        !nan(b),
        0 <= other <= 126,
    ensures
        single_value(magnitude(r)) <= single_value(magnitude(b)),
        e4m3_value(other) <= single_value(magnitude(b)) ==> e4m3_value(other) <= single_value(
            magnitude(r),
        ),
        magnitude(b) > 0 ==> (r >= 0x8000_0000 <==> b >= 0x8000_0000),
        magnitude(b) == 0 ==> r < 0x8000_0000,
{
    let code = choose|code: int| #[trigger]
        is_floor_code(clamped(b), code) && single_value(magnitude(r)) == e4m3_value(code);
    if magnitude(b) > E4M3_MAX {
        lemma_single_monotonic(E4M3_MAX as int, magnitude(b));
        lemma_e4m3_numbers(0);
        if other < 126 {
            lemma_e4m3_monotonic(other, 126);
        }
    }
    if other > code {
        assert(e4m3_value(other) > single_value(clamped(b)));
    } else if other < code {
        lemma_e4m3_monotonic(other, code);
    }
}

} // verus!
