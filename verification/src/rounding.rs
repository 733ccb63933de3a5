//! Rounding to the nearest number of a format.
//!
//! The magnitudes of a format are numbered from zero up; a function gives the
//! number that each stands for, and larger magnitudes stand for larger numbers.

use vstd::prelude::*;

verus! {

/// Two to the power of `n`.
pub open spec fn p2(n: nat) -> nat
    decreases n,
{
    if n == 0 {
        1
    } else {
        2 * p2((n - 1) as nat)
    }
}

pub proof fn lemma_p2_add(a: nat, b: nat)
    ensures
        p2(a + b) == p2(a) * p2(b),
        p2(a) > 0,
    decreases b,
{
    if b > 0 {
        lemma_p2_add(a, (b - 1) as nat);
        assert(p2(a) * (2 * p2((b - 1) as nat)) == 2 * (p2(a) * p2((b - 1) as nat)))
            by (nonlinear_arith);
    } else {
        lemma_p2_positive(a);
        lemma_times_one(p2(a) as int);
    }
}

pub proof fn lemma_times_one(a: int)
    ensures
        a * p2(0) == a,
{
    assert(p2(0) == 1);
    assert(a * 1 == a);
}

pub proof fn lemma_p2_positive(a: nat)
    ensures
        p2(a) > 0,
    decreases a,
{
    if a > 0 {
        lemma_p2_positive((a - 1) as nat);
    }
}

pub proof fn lemma_p2_monotonic(a: nat, b: nat)
    requires
        a <= b,
    ensures
        p2(a) <= p2(b),
    decreases b - a,
{
    if a < b {
        lemma_p2_monotonic(a + 1, b);
        lemma_p2_positive(a);
    }
}

pub proof fn lemma_split(b: int, q: int, r: int, d: int)
    requires
        b == q * d + r,
        0 <= r < d,
    ensures
        b / d == q,
        b % d == r,
{
    vstd::arithmetic::div_mod::lemma_fundamental_div_mod_converse(b, d, q, r);
}

/// How far two numbers are apart.
pub open spec fn distance(a: nat, b: nat) -> nat {
    if a >= b {
        (a - b) as nat
    } else {
        (b - a) as nat
    }
}

/// Larger magnitudes up to `top` stand for larger numbers.
pub open spec fn increasing(value: spec_fn(int) -> nat, top: int) -> bool {
    forall|a: int, b: int| 0 <= a < b <= top ==> #[trigger] value(a) < #[trigger] value(b)
}

/// The magnitude `r` is nearest to the number `v`, and even where two are equally
/// near.
pub open spec fn is_nearest(value: spec_fn(int) -> nat, top: int, v: nat, r: int) -> bool {
    &&& 0 <= r <= top
    &&& forall|h: int|
        0 <= h <= top && h != r ==> distance(v, value(r)) < distance(v, #[trigger] value(h)) || (
        distance(v, value(r)) == distance(v, value(h)) && r % 2 == 0)
}

/// Between two neighbours, the nearer one is nearest of all.
pub proof fn lemma_nearest_of_neighbours(
    value: spec_fn(int) -> nat,
    top: int,
    v: nat,
    k: int,
    r: int,
)
    requires
        increasing(value, top),
        0 <= k < top,
        value(k) <= v <= value(k + 1),
        r == k || r == k + 1,
        r == k ==> distance(v, value(k)) < distance(v, value(k + 1)) || (distance(v, value(k))
            == distance(v, value(k + 1)) && k % 2 == 0),
        r == k + 1 ==> distance(v, value(k + 1)) < distance(v, value(k)) || (distance(v, value(k))
            == distance(v, value(k + 1)) && k % 2 == 1),
    ensures
        is_nearest(value, top, v, r),
{
    assert forall|h: int| 0 <= h <= top && h != r implies distance(v, value(r)) < distance(
        v,
        #[trigger] value(h),
    ) || (distance(v, value(r)) == distance(v, value(h)) && r % 2 == 0) by {
        if h < k {
            assert(value(h) < value(k));
        } else if h > k + 1 {
            assert(value(k + 1) < value(h));
        }
        assert(value(k) < value(k + 1));
    }
}

/// Beyond the largest number, it is nearest.
pub proof fn lemma_nearest_is_top(value: spec_fn(int) -> nat, top: int, v: nat)
    requires
        increasing(value, top),
        0 <= top,
        value(top) <= v,
    ensures
        is_nearest(value, top, v, top),
{
    assert forall|h: int| 0 <= h <= top && h != top implies distance(v, value(top)) < distance(
        v,
        #[trigger] value(h),
    ) by {
        assert(value(h) < value(top));
    }
}

/// The nearest magnitude is unique.
pub proof fn lemma_nearest_unique(value: spec_fn(int) -> nat, top: int, v: nat, a: int, b: int)
    requires
        increasing(value, top),
        is_nearest(value, top, v, a),
        is_nearest(value, top, v, b),
    ensures
        a == b,
{
    if a != b {
        let (lo, hi) = if a < b {
            (a, b)
        } else {
            (b, a)
        };
        assert(distance(v, value(a)) == distance(v, value(b)));
        assert(value(lo) < value(hi));
        // Both even and equally near: the one between them is nearer.
        assert(lo % 2 == 0 && hi % 2 == 0);
        assert(value(lo) < value(lo + 1));
        assert(value(lo + 1) < value(hi));
        assert(distance(v, value(lo + 1)) < distance(v, value(lo)));
    }
}

/// A number between two neighbours, in parts of their distance: `rem` of `d`
/// parts of size `u` above the lower one. It rounds up beyond the middle, and in
/// the middle to even.
pub proof fn lemma_rounds(
    value: spec_fn(int) -> nat,
    top: int,
    v: nat,
    k: int,
    n: nat,
    d: nat,
    rem: nat,
    u: nat,
)
    requires
        increasing(value, top),
        0 <= k < top,
        u > 0,
        0 <= rem < d,
        d % 2 == 0,
        v == (n * d + rem) * u,
        value(k) == n * d * u,
        value(k + 1) == n * d * u + d * u,
        n % 2 == k % 2,
    ensures
        is_nearest(
            value,
            top,
            v,
            if rem > d / 2 || (rem == d / 2 && n % 2 == 1) {
                k + 1
            } else {
                k
            },
        ),
{
    let nd = n * d;
    let half = (d / 2) as nat;
    let r = if rem > half || (rem == half && n % 2 == 1) {
        k + 1
    } else {
        k
    };
    assert(d == 2 * half);
    assert((nd + rem) * u == nd * u + rem * u) by (nonlinear_arith);
    assert(d * u == rem * u + (d - rem) * u) by (nonlinear_arith);
    assert(rem < d && u > 0 ==> (d - rem) * u > 0) by (nonlinear_arith);
    assert(rem * u >= 0) by (nonlinear_arith)
        requires
            rem >= 0,
            u > 0,
    ;
    let low = rem * u;
    let high = (d - rem) * u;
    if rem > half {
        assert(low > high) by (nonlinear_arith)
            requires
                low == rem * u,
                high == (d - rem) * u,
                rem > d - rem,
                u > 0,
        ;
    } else if rem < half {
        assert(low < high) by (nonlinear_arith)
            requires
                low == rem * u,
                high == (d - rem) * u,
                rem < d - rem,
                u > 0,
        ;
    } else {
        assert(d - rem == rem);
    }
    lemma_nearest_of_neighbours(value, top, v, k, r);
}

} // verus!
