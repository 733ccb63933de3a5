//! Double to single precision, on the bits.

use crate::half::{lemma_single_monotonic, single_value};
use crate::ieee::{magnitude, negative};
use crate::rounding::{
    increasing, is_nearest, lemma_nearest_is_top, lemma_nearest_of_neighbours,
    lemma_nearest_unique, lemma_p2_add, lemma_p2_monotonic, lemma_p2_positive, lemma_rounds,
    lemma_split, lemma_times_one, p2,
};
use vstd::prelude::*;

verus! {

/// Two to the power of 52.
pub const TWO_52: u64 = 0x10_0000_0000_0000;

/// The number that the magnitude bits of a double-precision number stand for, in
/// units of 2^-1074. The bits of infinity stand for the number that would come
/// next.
pub open spec fn double_value(m: int) -> nat {
    if m < TWO_52 {
        m as nat
    } else {
        ((TWO_52 + m % TWO_52 as int) as nat) * p2((m / TWO_52 as int - 1) as nat)
    }
}

/// A single-precision number in the units of double precision.
pub open spec fn scaled_single(m: int) -> nat {
    single_value(m) * p2(925)
}

/// What the single-precision magnitudes stand for, in the units of double
/// precision.
pub open spec fn single_values() -> spec_fn(int) -> nat {
    |m: int| scaled_single(m)
}

/// The magnitude bits of a double-precision number.
pub open spec fn double_magnitude(b: u64) -> int {
    b as int % 0x8000_0000_0000_0000
}

pub open spec fn double_negative(b: u64) -> bool {
    b >= 0x8000_0000_0000_0000
}

/// The bits are those of no number.
pub open spec fn double_nan(b: u64) -> bool {
    double_magnitude(b) > 0x7ff0_0000_0000_0000
}

/// `r` is `b` in single precision: the nearest number, the even one of two that
/// are equally near. What is no number becomes the quiet one.
pub open spec fn is_single(b: u64, r: u32) -> bool {
    &&& negative(r) == double_negative(b)
    &&& double_nan(b) ==> magnitude(r) == 0x7fc0_0000
    &&& !double_nan(b) ==> is_nearest(
        single_values(),
        0x7f80_0000,
        double_value(double_magnitude(b)),
        magnitude(r),
    )
}

proof fn lemma_scaled_step(m: int)
    requires
        0 <= m < 0x7f80_0000,
    ensures
        scaled_single(m + 1) == scaled_single(m) + (if m < 0x80_0000 {
            p2(925)
        } else {
            p2((m / 0x80_0000 - 1) as nat) * p2(925)
        }),
{
    let s = p2(925);
    if m >= 0x80_0000 {
        let q = m / 0x80_0000;
        let x = p2((q - 1) as nat);
        if m % 0x80_0000 == 0x7f_ffff {
            assert((m + 1) / 0x80_0000 == q + 1 && (m + 1) % 0x80_0000 == 0);
            assert(p2(q as nat) == 2 * x);
            assert(single_value(m + 1) == 0x80_0000 * p2(q as nat));
            assert(single_value(m) == 0xff_ffff * x);
        } else {
            assert((m + 1) / 0x80_0000 == q && (m + 1) % 0x80_0000 == m % 0x80_0000 + 1);
            let n = (0x80_0000 + m % 0x80_0000) as nat;
            assert((n + 1) * x == n * x + x) by (nonlinear_arith);
        }
        let v = single_value(m);
        assert(single_value(m + 1) == v + x);
        assert((v + x) * s == v * s + x * s) by (nonlinear_arith);
    } else {
        if m == 0x7f_ffff {
            assert((m + 1) / 0x80_0000 == 1 && (m + 1) % 0x80_0000 == 0);
            lemma_times_one(0x80_0000);
        }
        let n = m as nat;
        assert(single_value(m + 1) == n + 1);
        assert((n + 1) * s == n * s + s) by (nonlinear_arith);
    }
}

/// Larger magnitudes stand for larger numbers.
pub proof fn lemma_single_increasing()
    ensures
        increasing(single_values(), 0x7f80_0000),
{
    lemma_p2_positive(925);
    assert forall|a: int, b: int| 0 <= a < b <= 0x7f80_0000 implies #[trigger] single_values()(a)
        < #[trigger] single_values()(b) by {
        lemma_single_monotonic(a, b);
        let (x, y, s) = (single_value(a), single_value(b), p2(925));
        assert(x < y && s > 0 ==> x * s < y * s) by (nonlinear_arith);
    }
}

/// Two to the power of `k`.
fn two_to(k: u64) -> (r: u64)
    requires
        k < 64,
    ensures
        r == p2(k as nat),
{
    let mut r: u64 = 1;
    let mut i: u64 = 0;
    while i < k
        invariant
            i <= k < 64,
            r == p2(i as nat),
            r <= 0x8000_0000_0000_0000,
        decreases k - i,
    {
        proof {
            lemma_p2_monotonic((i + 1) as nat, 63);
            lemma_powers();
        }
        r = r * 2;
        i = i + 1;
    }
    r
}

/// The powers of two that bound the formats.
proof fn lemma_powers()
    ensures
        p2(23) == 0x80_0000,
        p2(29) == 0x2000_0000,
        p2(30) == 0x4000_0000,
        p2(52) == TWO_52,
        p2(53) == 2 * TWO_52,
        p2(63) == 0x8000_0000_0000_0000,
{
    reveal_with_fuel(p2, 33);
    lemma_p2_add(31, 32);
    lemma_p2_add(26, 26);
}

/// The number in single precision.
pub open spec fn single_of(b: u64) -> u32 {
    choose|r: u32| is_single(b, r)
}

/// Double to single precision.
pub fn f64_to_f32(b: u64) -> (r: u32)
    ensures
        is_single(b, r),
        r == single_of(b),
{
    let r: u32 = narrowed(b);
    proof {
        lemma_single_unique(b, r, single_of(b));
    }
    r
}

fn narrowed(b: u64) -> (r: u32)
    ensures
        is_single(b, r),
{
    let sign: u32 = if b >= 0x8000_0000_0000_0000 {
        0x8000_0000
    } else {
        0
    };
    let a: u64 = b % 0x8000_0000_0000_0000;
    if a > 0x7ff0_0000_0000_0000 {
        return sign + 0x7fc0_0000;
    }
    sign + nearest_single(a)
}

/// The single-precision magnitude nearest to a double-precision one.
fn nearest_single(a: u64) -> (r: u32)
    requires
        a <= 0x7ff0_0000_0000_0000,
    ensures
        r <= 0x7f80_0000,
        is_nearest(single_values(), 0x7f80_0000, double_value(a as int), r as int),
{
    let e: u64 = a / TWO_52;
    if e >= 1151 {
        proof {
            lemma_large_rounds_to_infinity(a as int);
        }
        return 0x7f80_0000;
    }
    if e < 873 {
        proof {
            lemma_small_rounds_to_zero(a as int);
        }
        return 0;
    }
    if e <= 896 {
        return nearest_subnormal(a);
    }
    let mant: u64 = a % TWO_52;
    let q: u64 = (e - 896) * 0x80_0000 + mant / 0x2000_0000;
    let rem: u64 = mant % 0x2000_0000;
    proof {
        lemma_normal_rounds(a as int);
    }
    if rem > 0x1000_0000 || (rem == 0x1000_0000 && q % 2 == 1) {
        return (q + 1) as u32;
    }
    q as u32
}

fn nearest_subnormal(a: u64) -> (r: u32)
    requires
        873 <= a / TWO_52 <= 896,
    ensures
        r <= 0x7f80_0000,
        is_nearest(single_values(), 0x7f80_0000, double_value(a as int), r as int),
{
    let full: u64 = TWO_52 + a % TWO_52;
    let shift: u64 = 926 - a / TWO_52;
    let d: u64 = two_to(shift);
    proof {
        lemma_subnormal_rounds(a as int, d as int);
    }
    let q: u64 = full / d;
    let rem: u64 = full % d;
    if rem > d / 2 || (rem == d / 2 && q % 2 == 1) {
        return (q + 1) as u32;
    }
    q as u32
}

proof fn lemma_normal_rounds(a: int)
    requires
        897 <= a / TWO_52 as int <= 1150,
    ensures
        ({
            let mant = a % TWO_52 as int;
            let q = (a / TWO_52 as int - 896) * 0x80_0000 + mant / 0x2000_0000;
            let rem = mant % 0x2000_0000;
            is_nearest(
                single_values(),
                0x7f80_0000,
                double_value(a),
                if rem > 0x1000_0000 || (rem == 0x1000_0000 && q % 2 == 1) {
                    q + 1
                } else {
                    q
                },
            )
        }),
{
    let e = a / TWO_52 as int;
    let mant = a % TWO_52 as int;
    let k = (e - 896) * 0x80_0000 + mant / 0x2000_0000;
    let rem = (mant % 0x2000_0000) as nat;
    let u = p2((e - 1) as nat);
    let n = (0x80_0000 + mant / 0x2000_0000) as nat;
    lemma_split(k, e - 896, mant / 0x2000_0000, 0x80_0000);
    lemma_p2_positive((e - 1) as nat);
    lemma_p2_add((e - 897) as nat, 925);
    lemma_p2_add(29, (e - 1) as nat);
    lemma_powers();
    let x = p2((e - 897) as nat);
    let y = p2(925);
    assert(x * y == 0x2000_0000 * u);
    assert(scaled_single(k) == n * 0x2000_0000 * u) by {
        assert(single_value(k) == n * x);
        assert(n * x * y == n * (x * y)) by (nonlinear_arith);
        assert(n * (0x2000_0000 * u) == n * 0x2000_0000 * u) by (nonlinear_arith);
    }
    lemma_scaled_step(k);
    assert(TWO_52 + mant == n * 0x2000_0000 + rem);
    lemma_single_increasing();
    lemma_rounds(single_values(), 0x7f80_0000, double_value(a), k, n, 0x2000_0000, rem, u);
}

proof fn lemma_subnormal_rounds(a: int, d: int)
    requires
        873 <= a / TWO_52 as int <= 896,
        d == p2((926 - a / TWO_52 as int) as nat),
    ensures
        d > 0,
        ({
            let full = TWO_52 + a % TWO_52 as int;
            let q = full / d;
            let rem = full % d;
            &&& 0 <= q < 0x80_0000
            &&& is_nearest(
                single_values(),
                0x7f80_0000,
                double_value(a),
                if rem > d / 2 || (rem == d / 2 && q % 2 == 1) {
                    q + 1
                } else {
                    q
                },
            )
        }),
{
    let e = a / TWO_52 as int;
    let full = TWO_52 + a % TWO_52 as int;
    let u = p2((e - 1) as nat);
    let shift = (926 - e) as nat;
    lemma_p2_positive((e - 1) as nat);
    lemma_p2_positive(shift);
    lemma_p2_add(shift, (e - 1) as nat);
    lemma_p2_monotonic(30, shift);
    lemma_powers();
    let q = full / d;
    let rem = full % d;
    vstd::arithmetic::div_mod::lemma_fundamental_div_mod(full, d);
    assert(q * d == d * q) by (nonlinear_arith);
    assert(0 <= rem < d && 0 <= q) by {
        vstd::arithmetic::div_mod::lemma_mod_bound(full, d);
        vstd::arithmetic::div_mod::lemma_div_pos_is_pos(full, d);
    }
    assert(q < 0x80_0000) by (nonlinear_arith)
        requires
            full < 0x20_0000_0000_0000,
            full == d * q + rem,
            rem >= 0,
            d >= 0x4000_0000,
    ;
    assert(d % 2 == 0) by {
        assert(p2(shift) == 2 * p2((shift - 1) as nat));
    }
    assert(p2(925) == d * u);
    let (n, dn) = (q as nat, d as nat);
    assert(scaled_single(q) == n * dn * u) by {
        assert(n * (dn * u) == n * dn * u) by (nonlinear_arith);
    }
    lemma_scaled_step(q);
    lemma_single_increasing();
    lemma_rounds(single_values(), 0x7f80_0000, double_value(a), q, n, dn, rem as nat, u);
}

proof fn lemma_small_rounds_to_zero(a: int)
    requires
        0 <= a,
        a / (TWO_52 as int) < 873,
    ensures
        is_nearest(single_values(), 0x7f80_0000, double_value(a), 0),
{
    let e = a / TWO_52 as int;
    let v = double_value(a);
    lemma_p2_positive(925);
    lemma_p2_positive(924);
    lemma_powers();
    assert(p2(925) == 2 * p2(924));
    assert(single_value(0) == 0 && single_value(1) == 1);
    assert(scaled_single(0) == 0 && scaled_single(1) == p2(925)) by {
        assert(0 * p2(925) == 0 && 1 * p2(925) == p2(925));
    }
    assert(v < p2(924)) by {
        if e == 0 {
            lemma_p2_monotonic(53, 924);
        } else {
            let u = p2((e - 1) as nat);
            let n = (TWO_52 + a % TWO_52 as int) as nat;
            lemma_p2_add(53, (e - 1) as nat);
            lemma_p2_monotonic((e + 52) as nat, 924);
            lemma_p2_positive((e - 1) as nat);
            assert(n * u < 0x20_0000_0000_0000 * u) by (nonlinear_arith)
                requires
                    n < 0x20_0000_0000_0000,
                    u > 0,
            ;
        }
    }
    lemma_single_increasing();
    lemma_nearest_of_neighbours(single_values(), 0x7f80_0000, v, 0, 0);
}

proof fn lemma_large_rounds_to_infinity(a: int)
    requires
        1151 <= a / TWO_52 as int,
    ensures
        is_nearest(single_values(), 0x7f80_0000, double_value(a), 0x7f80_0000),
{
    let e = a / TWO_52 as int;
    let v = double_value(a);
    let u = p2((e - 1) as nat);
    let n = (TWO_52 + a % TWO_52 as int) as nat;
    lemma_powers();
    lemma_p2_add(52, (e - 1) as nat);
    lemma_p2_monotonic(1202, (e + 51) as nat);
    lemma_p2_positive((e - 1) as nat);
    assert(n * u >= 0x10_0000_0000_0000 * u) by (nonlinear_arith)
        requires
            n >= 0x10_0000_0000_0000,
            u > 0,
    ;
    lemma_p2_add(23, 254);
    lemma_p2_add(277, 925);
    assert(single_value(0x7f80_0000) == 0x80_0000 * p2(254)) by {
        assert(0x7f80_0000int / 0x80_0000 == 255 && 0x7f80_0000int % 0x80_0000 == 0);
    }
    assert(scaled_single(0x7f80_0000) == p2(1202));
    lemma_single_increasing();
    lemma_nearest_is_top(single_values(), 0x7f80_0000, v);
}

/// There is one single-precision form of every number.
pub proof fn lemma_single_unique(b: u64, r: u32, s: u32)
    requires
        is_single(b, r),
        is_single(b, s),
    ensures
        r == s,
{
    if !double_nan(b) {
        lemma_single_increasing();
        lemma_nearest_unique(
            single_values(),
            0x7f80_0000,
            double_value(double_magnitude(b)),
            magnitude(r),
            magnitude(s),
        );
    }
}

/// What double-precision bits stand for: up to twice the smallest normal number the
/// bits themselves, in units of 2^-1074, and a number with the next exponent is twice
/// the number.
pub proof fn lemma_double_numbers(m: int)
    requires
        0 <= m,
    ensures
        m < 0x20_0000_0000_0000 ==> double_value(m) == m,
        m >= 0x10_0000_0000_0000 ==> double_value(m + 0x10_0000_0000_0000) == 2 * double_value(m),
{
    let t = 0x10_0000_0000_0000int;
    if t <= m {
        let q = m / t;
        assert((m + t) / t == q + 1 && (m + t) % t == m % t);
        let (x, n) = (p2((q - 1) as nat), (t + m % t) as nat);
        assert(p2(q as nat) == 2 * x);
        assert(n * (2 * x) == 2 * (n * x)) by (nonlinear_arith);
        if m < 2 * t {
            lemma_times_one(m);
        }
    }
}

/// Rounding to single precision gives a closest number, of the same sign; what is no
/// number stays none.
pub proof fn lemma_single_closest(b: u64, r: u32, other: int)
    requires
        is_single(b, r),
        0 <= other <= 0x7f80_0000,
    ensures
        r >= 0x8000_0000 <==> b >= 0x8000_0000_0000_0000,
        double_nan(b) ==> magnitude(r) > 0x7f80_0000,
        !double_nan(b) ==> {
            let v = double_value(double_magnitude(b)) as int;
            let (x, y) = (
                single_value(magnitude(r)) * p2(925) - v,
                single_value(other) * p2(925) - v,
            );
            &&& (x >= 0 && y >= 0 ==> x <= y)
            &&& (x >= 0 && y < 0 ==> x <= -y)
            &&& (x < 0 && y >= 0 ==> -x <= y)
            &&& (x < 0 && y < 0 ==> -x <= -y)
        },
{
    if !double_nan(b) {
        let v = double_value(double_magnitude(b));
        let f = single_values();
        let m = magnitude(r);
        assert(f(m) == scaled_single(m) && f(other) == scaled_single(other));
        if other != m {
            assert(crate::rounding::distance(v, f(m)) <= crate::rounding::distance(v, f(other)));
        }
    }
}

/// One is the same number in both precisions.
pub proof fn lemma_double_one()
    ensures
        double_value(0x3ff0_0000_0000_0000) == scaled_single(0x3f80_0000),
{
    assert(0x3ff0_0000_0000_0000int / 0x10_0000_0000_0000 == 1023);
    assert(0x3ff0_0000_0000_0000int % 0x10_0000_0000_0000 == 0);
    lemma_p2_add(97, 925);
    lemma_p2_add(29, 97);
    assert(p2(29) == 0x2000_0000) by {
        reveal_with_fuel(p2, 30);
    }
    assert(p2(1022) == p2(97) * p2(925));
    assert(p2(126) == p2(29) * p2(97));
    let (x, y) = (p2(97), p2(925));
    assert(double_value(0x3ff0_0000_0000_0000) == 0x10_0000_0000_0000 * p2(1022));
    assert(single_value(0x3f80_0000) == 0x80_0000 * p2(126));
    assert(0x10_0000_0000_0000 * (x * y) == (0x80_0000 * (0x2000_0000 * x)) * y)
        by (nonlinear_arith);
}

} // verus!
