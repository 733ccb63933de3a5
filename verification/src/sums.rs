//! Finite sums of integers.

use vstd::prelude::*;

verus! {

/// The sum of `f` over the indices from `lo` up to, but without, `hi`.
pub open spec fn total(f: spec_fn(int) -> int, lo: int, hi: int) -> int
    decreases hi - lo,
{
    if lo >= hi {
        0
    } else {
        total(f, lo, hi - 1) + f(hi - 1)
    }
}

/// A sum can be split anywhere.
pub proof fn lemma_total_split(f: spec_fn(int) -> int, lo: int, mid: int, hi: int)
    requires
        lo <= mid <= hi,
    ensures
        total(f, lo, hi) == total(f, lo, mid) + total(f, mid, hi),
    decreases hi - mid,
{
    if mid < hi {
        lemma_total_split(f, lo, mid, hi - 1);
    }
}

/// Equal terms, possibly at shifted indices, have equal sums.
pub proof fn lemma_total_shift(
    f: spec_fn(int) -> int,
    g: spec_fn(int) -> int,
    lo: int,
    hi: int,
    by: int,
)
    requires
        forall|i: int| lo <= i < hi ==> #[trigger] f(i) == g(i + by),
    ensures
        total(f, lo, hi) == total(g, lo + by, hi + by),
    decreases hi - lo,
{
    if lo < hi {
        lemma_total_shift(f, g, lo, hi - 1, by);
    }
}

/// A common factor can be taken out.
pub proof fn lemma_total_factor(
    f: spec_fn(int) -> int,
    g: spec_fn(int) -> int,
    k: int,
    lo: int,
    hi: int,
)
    requires
        forall|i: int| lo <= i < hi ==> #[trigger] f(i) == k * g(i),
    ensures
        total(f, lo, hi) == k * total(g, lo, hi),
    decreases hi - lo,
{
    if lo < hi {
        lemma_total_factor(f, g, k, lo, hi - 1);
        let (a, b) = (total(g, lo, hi - 1), g(hi - 1));
        assert(k * (a + b) == k * a + k * b) by (nonlinear_arith);
    } else {
        assert(k * 0 == 0);
    }
}

/// Sums are linear.
pub proof fn lemma_total_linear(
    h: spec_fn(int) -> int,
    f: spec_fn(int) -> int,
    g: spec_fn(int) -> int,
    a: int,
    c: int,
    lo: int,
    hi: int,
)
    requires
        forall|i: int| lo <= i < hi ==> #[trigger] h(i) == a * f(i) + c * g(i),
    ensures
        total(h, lo, hi) == a * total(f, lo, hi) + c * total(g, lo, hi),
    decreases hi - lo,
{
    if lo < hi {
        lemma_total_linear(h, f, g, a, c, lo, hi - 1);
        let (x, y) = (total(f, lo, hi - 1), total(g, lo, hi - 1));
        let (u, v) = (f(hi - 1), g(hi - 1));
        assert(h(hi - 1) == a * u + c * v);
        assert(a * (x + u) == a * x + a * u) by (nonlinear_arith);
        assert(c * (y + v) == c * y + c * v) by (nonlinear_arith);
    } else {
        assert(a * 0 == 0 && c * 0 == 0);
    }
}

/// Equal terms have equal sums.
pub proof fn lemma_total_same(f: spec_fn(int) -> int, g: spec_fn(int) -> int, lo: int, hi: int)
    requires
        forall|i: int| lo <= i < hi ==> #[trigger] f(i) == g(i),
    ensures
        total(f, lo, hi) == total(g, lo, hi),
{
    lemma_total_shift(f, g, lo, hi, 0);
}

/// A sum of one term is the term; an empty sum is nothing.
pub proof fn lemma_total_small(f: spec_fn(int) -> int, i: int)
    ensures
        total(f, i, i) == 0,
        total(f, i, i + 1) == f(i),
{
    reveal_with_fuel(total, 3);
}

} // verus!
