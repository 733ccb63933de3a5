//! Sampling.
//!
//! The greedy choice, and the decisions of a draw. Logits and probabilities are
//! single-precision numbers, given by their bits; the arithmetic on them is the
//! caller's.

use crate::bytes::{wrap_to_i32, wrapped_i32};
use crate::ieee::{
    above, at_least, is_above, is_at_least, is_nan, line, nan, place, NEG_INFINITY, ONE,
};
use rand::{RngCore, SeedableRng};
use rand_xoshiro::SplitMix64;
use vstd::prelude::*;
use vstd::slice::slice_to_vec;

verus! {

/// `r` is where the greedy choice falls: the first of the highest logits. What
/// is no number is passed over, but for the first logit, which is then chosen
/// because nothing is above it.
pub open spec fn is_argmax(logits: Seq<u32>, r: int) -> bool {
    &&& 0 <= r < logits.len()
    &&& nan(logits[0]) ==> r == 0
    &&& !nan(logits[0]) ==> !nan(logits[r])
    &&& forall|j: int| 0 <= j < logits.len() ==> !above(#[trigger] logits[j], logits[r])
    &&& forall|j: int|
        0 <= j < r ==> nan(#[trigger] logits[j]) || above(logits[r], logits[j])
}

/// The greedy choice.
pub open spec fn argmax_of(logits: Seq<u32>) -> int {
    choose|r: int| is_argmax(logits, r)
}

/// The greedy choice is unique.
pub proof fn lemma_argmax_unique(logits: Seq<u32>, a: int, b: int)
    requires
        is_argmax(logits, a),
        is_argmax(logits, b),
    ensures
        a == b,
{
    if a < b {
        assert(nan(logits[a]) || above(logits[b], logits[a]));
    } else if b < a {
        assert(nan(logits[b]) || above(logits[a], logits[b]));
    }
}

/// The token with the highest logit, the first of several.
pub fn argmax(logits: &[u32]) -> (r: i32)
    requires
        logits.len() > 0,
    ensures
        is_argmax(logits@, argmax_of(logits@)),
        r == wrapped_i32(argmax_of(logits@)),
        logits.len() <= i32::MAX ==> r == argmax_of(logits@),
{
    let mut best: usize = 0;
    let mut i: usize = 1;
    while i < logits.len()
        invariant
            1 <= i <= logits.len(),
            is_argmax(logits@.take(i as int), best as int),
        decreases logits.len() - i,
    {
        let ghost seen = logits@.take(i as int);
        let ghost more = logits@.take(i + 1);
        let ghost before = best as int;
        assert(forall|j: int| 0 <= j < i ==> more[j] == #[trigger] seen[j]);
        if is_above(logits[i], logits[best]) {
            best = i;
        }
        assert(is_argmax(more, best as int)) by {
            assert(more[before] == seen[before]);
            assert forall|j: int| 0 <= j < more.len() implies !above(
                #[trigger] more[j],
                more[best as int],
            ) by {
                if j < i {
                    assert(!above(seen[j], seen[before]));
                }
            }
            assert forall|j: int| 0 <= j < best implies nan(#[trigger] more[j]) || above(
                more[best as int],
                more[j],
            ) by {
                if j < i {
                    assert(!above(seen[j], seen[before]));
                }
            }
        }
        i = i + 1;
    }
    assert(logits@.take(i as int) =~= logits@);
    proof {
        lemma_argmax_unique(logits@, best as int, argmax_of(logits@));
    }
    wrap_to_i32(best)
}

/// Index `j` may be chosen: its id is not excluded, and its logit is a number
/// above negative infinity.
pub open spec fn eligible(logits: Seq<u32>, excluded: i32, j: int) -> bool {
    wrapped_i32(j) != excluded && above(logits[j], NEG_INFINITY)
}

/// `r` is the first of the highest logits that may be chosen.
pub open spec fn is_argmax_excluding(logits: Seq<u32>, excluded: i32, r: int) -> bool {
    &&& 0 <= r < logits.len()
    &&& eligible(logits, excluded, r)
    &&& forall|j: int|
        0 <= j < logits.len() && eligible(logits, excluded, j) ==> !above(
            #[trigger] logits[j],
            logits[r],
        )
    &&& forall|j: int|
        0 <= j < r && eligible(logits, excluded, j) ==> above(logits[r], #[trigger] logits[j])
}

/// The token with the highest logit other than an excluded one; `-1` where none
/// may be chosen.
pub fn argmax_excluding(logits: &[u32], excluded_id: i32) -> (r: i32)
    ensures
        (exists|k: int|
            is_argmax_excluding(logits@, excluded_id, k) && r == wrapped_i32(k)) || (r == -1
            && forall|j: int| 0 <= j < logits@.len() ==> !eligible(logits@, excluded_id, j)),
{
    let mut best: i32 = -1;
    let mut best_v: u32 = NEG_INFINITY;
    let ghost mut at: Option<int> = None;
    let mut i: usize = 0;
    while i < logits.len()
        invariant
            i <= logits.len(),
            !nan(best_v),
            match at {
                None => best == -1 && best_v == NEG_INFINITY && forall|j: int|
                    0 <= j < i ==> !eligible(logits@, excluded_id, j),
                Some(k) => is_argmax_excluding(logits@.take(i as int), excluded_id, k) && best
                    == wrapped_i32(k) && best_v == logits@[k],
            },
        decreases logits.len() - i,
    {
        let v: u32 = logits[i];
        let id: i32 = wrap_to_i32(i);
        let ghost seen = logits@.take(i as int);
        let ghost more = logits@.take(i + 1);
        assert(forall|j: int| 0 <= j < i ==> more[j] == #[trigger] seen[j]);
        assert(forall|j: int|
            0 <= j < i ==> eligible(more, excluded_id, j) == eligible(logits@, excluded_id, j));
        let ghost before = at;
        if id != excluded_id && is_above(v, best_v) {
            best = id;
            best_v = v;
            proof {
                at = Some(i as int);
            }
        }
        proof {
            match at {
                Some(k) => {
                    assert(more[k] == best_v);
                    assert forall|j: int|
                        0 <= j < more.len() && eligible(more, excluded_id, j) implies !above(
                        #[trigger] more[j],
                        more[k],
                    ) by {
                        if j < i {
                            assert(more[j] == seen[j]);
                            assert(eligible(seen, excluded_id, j));
                        }
                    }
                    assert forall|j: int|
                        0 <= j < k && eligible(more, excluded_id, j) implies above(
                        more[k],
                        #[trigger] more[j],
                    ) by {
                        assert(more[j] == seen[j]);
                        assert(eligible(seen, excluded_id, j));
                    }
                },
                None => {},
            }
        }
        i = i + 1;
    }
    assert(logits@.take(i as int) =~= logits@);
    best
}

/// Excluding an id that no token has changes nothing for logits that are all
/// numbers above negative infinity.
pub proof fn lemma_excluding_none(logits: Seq<u32>, excluded: i32, r: int)
    requires
        forall|j: int| 0 <= j < logits.len() ==> #[trigger] eligible(logits, excluded, j),
        is_argmax_excluding(logits, excluded, r),
    ensures
        is_argmax(logits, r),
{
    assert(eligible(logits, excluded, 0));
    assert forall|j: int| 0 <= j < logits.len() implies !above(#[trigger] logits[j], logits[r]) by {
        assert(eligible(logits, excluded, j));
    }
    assert forall|j: int| 0 <= j < r implies nan(#[trigger] logits[j]) || above(
        logits[r],
        logits[j],
    ) by {
        assert(eligible(logits, excluded, j));
    }
}

/// Where a value stands in a ranking: numbers by their size, and what is no number
/// behind them all.
pub open spec fn rank_key(b: u32) -> int {
    if nan(b) {
        -0x8000_0000
    } else {
        line(b)
    }
}

fn rank_of(b: u32) -> (r: i64)
    ensures
        r == rank_key(b),
{
    if is_nan(b) {
        return -0x8000_0000;
    }
    place(b)
}

/// Index `a` is ranked before index `b`: its value is higher, or equal and its
/// index lower.
pub open spec fn ahead(values: Seq<u32>, a: int, b: int) -> bool {
    rank_key(values[a]) > rank_key(values[b]) || (rank_key(values[a]) == rank_key(values[b]) && a
        < b)
}

/// `order` lists the indices from `lo` up to, but without, `hi` by their values,
/// the highest first, the earlier of two equal ones first.
pub open spec fn is_order(values: Seq<u32>, lo: int, hi: int, order: Seq<usize>) -> bool {
    &&& order.len() == hi - lo
    &&& forall|p: int| 0 <= p < order.len() ==> lo <= #[trigger] order[p] < hi
    &&& sorted_desc(values, order)
}

pub open spec fn sorted_desc(values: Seq<u32>, order: Seq<usize>) -> bool {
    forall|p: int, q: int|
        0 <= p < q < order.len() ==> ahead(
            values,
            #[trigger] order[p] as int,
            #[trigger] order[q] as int,
        )
}

/// The indices of `values` from the highest value to the lowest, equal values in
/// index order, and what is no number last.
pub fn ranking(values: &[u32]) -> (order: Vec<usize>)
    ensures
        is_order(values@, 0, values@.len() as int, order@),
{
    sorted_range(values, 0, values.len())
}

fn sorted_range(values: &[u32], lo: usize, hi: usize) -> (order: Vec<usize>)
    requires
        lo <= hi <= values@.len(),
    ensures
        is_order(values@, lo as int, hi as int, order@),
    decreases hi - lo,
{
    if hi - lo <= 1 {
        let mut one: Vec<usize> = Vec::new();
        if lo < hi {
            one.push(lo);
        }
        return one;
    }
    let mid: usize = lo + (hi - lo) / 2;
    let a: Vec<usize> = sorted_range(values, lo, mid);
    let b: Vec<usize> = sorted_range(values, mid, hi);
    merged(values, &a, &b, Ghost(lo as int), Ghost(mid as int), Ghost(hi as int))
}

/// Every entry of `out` comes before the entries of `rest` from `from` on.
spec fn ahead_of(values: Seq<u32>, out: Seq<usize>, rest: Seq<usize>, from: int) -> bool {
    forall|p: int, q: int|
        0 <= p < out.len() && from <= q < rest.len() ==> ahead(
            values,
            #[trigger] out[p] as int,
            #[trigger] rest[q] as int,
        )
}

fn merged(
    values: &[u32],
    a: &Vec<usize>,
    b: &Vec<usize>,
    lo: Ghost<int>,
    mid: Ghost<int>,
    hi: Ghost<int>,
) -> (out: Vec<usize>)
    requires
        0 <= lo@ <= mid@ <= hi@ <= values@.len(),
        is_order(values@, lo@, mid@, a@),
        is_order(values@, mid@, hi@, b@),
    ensures
        is_order(values@, lo@, hi@, out@),
{
    let mut out: Vec<usize> = Vec::new();
    let mut i: usize = 0;
    let mut j: usize = 0;
    while i < a.len() || j < b.len()
        invariant
            0 <= lo@ <= mid@ <= hi@ <= values@.len(),
            is_order(values@, lo@, mid@, a@),
            is_order(values@, mid@, hi@, b@),
            i <= a@.len(),
            j <= b@.len(),
            out@.len() == i + j,
            forall|p: int| 0 <= p < out@.len() ==> lo@ <= #[trigger] out@[p] < hi@,
            sorted_desc(values@, out@),
            ahead_of(values@, out@, a@, i as int),
            ahead_of(values@, out@, b@, j as int),
        decreases a@.len() - i + b@.len() - j,
    {
        let ghost done = out@;
        let take_b: bool = i >= a.len() || (j < b.len() && rank_of(values[b[j]]) > rank_of(
            values[a[i]],
        ));
        if take_b {
            let x: usize = b[j];
            out.push(x);
            proof {
                assert forall|q: int| i <= q < a@.len() implies ahead(
                    values@,
                    x as int,
                    #[trigger] a@[q] as int,
                ) by {
                    if q > i {
                        assert(ahead(values@, a@[i as int] as int, a@[q] as int));
                    }
                }
                lemma_push_order(values@, done, x, a@, i as int, b@, j as int);
            }
            j = j + 1;
        } else {
            let x: usize = a[i];
            out.push(x);
            proof {
                assert forall|q: int| j <= q < b@.len() implies ahead(
                    values@,
                    x as int,
                    #[trigger] b@[q] as int,
                ) by {
                    if q > j {
                        assert(ahead(values@, b@[j as int] as int, b@[q] as int));
                    }
                }
                lemma_push_order(values@, done, x, b@, j as int, a@, i as int);
            }
            i = i + 1;
        }
    }
    out
}

/// Appending the head of `own`, which comes before what is left of `other`,
/// keeps the order.
proof fn lemma_push_order(
    values: Seq<u32>,
    out: Seq<usize>,
    x: usize,
    other: Seq<usize>,
    i: int,
    own: Seq<usize>,
    j: int,
)
    requires
        0 <= j < own.len(),
        x == own[j],
        sorted_desc(values, out),
        sorted_desc(values, own),
        ahead_of(values, out, other, i),
        ahead_of(values, out, own, j),
        forall|q: int|
            i <= q < other.len() ==> ahead(values, x as int, #[trigger] other[q] as int),
    ensures
        sorted_desc(values, out.push(x)),
        ahead_of(values, out.push(x), other, i),
        ahead_of(values, out.push(x), own, j + 1),
{
    let next = out.push(x);
    assert forall|p: int, q: int| 0 <= p < q < next.len() implies ahead(
        values,
        #[trigger] next[p] as int,
        #[trigger] next[q] as int,
    ) by {
        if q < out.len() {
            assert(ahead(values, out[p] as int, out[q] as int));
        } else {
            assert(ahead(values, out[p] as int, own[j] as int));
        }
    }
    assert forall|p: int, q: int|
        0 <= p < next.len() && i <= q < other.len() implies ahead(
        values,
        #[trigger] next[p] as int,
        #[trigger] other[q] as int,
    ) by {
        if p < out.len() {
            assert(ahead(values, out[p] as int, other[q] as int));
        }
    }
    assert forall|p: int, q: int|
        0 <= p < next.len() && j + 1 <= q < own.len() implies ahead(
        values,
        #[trigger] next[p] as int,
        #[trigger] own[q] as int,
    ) by {
        if p < out.len() {
            assert(ahead(values, out[p] as int, own[q] as int));
        } else {
            assert(ahead(values, own[j] as int, own[q] as int));
        }
    }
}

/// `after` has the first `cut` values of `before`, in the given order, and zero for
/// the others.
pub open spec fn kept(before: Seq<u32>, after: Seq<u32>, order: Seq<usize>, cut: int) -> bool {
    &&& after.len() == before.len()
    &&& forall|p: int|
        0 <= p < order.len() ==> after[#[trigger] order[p] as int] == if p < cut {
            before[order[p] as int]
        } else {
            0
        }
}

/// Set to zero the values that are ranked at `cut` or behind; the others stay.
/// This is what truncation to the highest values does.
pub fn drop_tail(values: &mut [u32], order: &[usize], cut: usize)
    requires
        is_order(old(values)@, 0, old(values)@.len() as int, order@),
        cut <= order@.len(),
    ensures
        kept(old(values)@, final(values)@, order@, cut as int),
{
    let ghost start = values@;
    let mut p: usize = cut;
    while p < order.len()
        invariant
            cut <= p <= order@.len(),
            values@.len() == start.len(),
            is_order(start, 0, start.len() as int, order@),
            forall|q: int| cut <= q < p ==> values@[#[trigger] order@[q] as int] == 0,
            forall|q: int|
                0 <= q < cut ==> values@[#[trigger] order@[q] as int] == start[order@[q] as int],
        decreases order@.len() - p,
    {
        proof {
            assert forall|q: int| 0 <= q < order@.len() && q != p implies order@[q]
                != order@[p as int] by {
                if q < p {
                    assert(ahead(start, order@[q] as int, order@[p as int] as int));
                } else {
                    assert(ahead(start, order@[p as int] as int, order@[q] as int));
                }
            }
        }
        values[order[p]] = 0;
        p = p + 1;
    }
}

/// What a sample goes through.
#[derive(Debug, Clone, Copy, PartialEq, Eq, Structural)]
pub struct SamplePlan {
    /// The choice is greedy and nothing else is done.
    pub greedy: bool,
    /// Only so many of the highest probabilities are kept.
    pub top_k: Option<usize>,
    /// Only the highest probabilities that together reach a threshold are kept.
    pub nucleus: bool,
    /// Only probabilities that are not far below the highest are kept.
    pub min_p: bool,
}

/// What a sample of `n` logits goes through, given the bits of the temperature
/// and of the two thresholds.
pub open spec fn plan_of(
    temperature: u32,
    top_k: i32,
    top_p: u32,
    min_p: u32,
    n: int,
) -> SamplePlan {
    SamplePlan {
        greedy: at_least(0, temperature),
        top_k: if 0 < top_k < n {
            Some(top_k as usize)
        } else {
            None
        },
        nucleus: at_least(top_p, 0) && above(ONE, top_p),
        min_p: above(min_p, 0),
    }
}

/// What a sample goes through. Without a positive temperature the choice is
/// greedy.
pub fn plan_sample(temperature: u32, top_k: i32, top_p: u32, min_p: u32, n: usize) -> (p:
    SamplePlan)
    ensures
        p == plan_of(temperature, top_k, top_p, min_p, n as int),
{
    SamplePlan {
        greedy: is_at_least(0, temperature),
        top_k: if top_k > 0 && (top_k as usize) < n {
            Some(top_k as usize)
        } else {
            None
        },
        nucleus: is_at_least(top_p, 0) && is_above(ONE, top_p),
        min_p: is_above(min_p, 0),
    }
}

/// `cut` is the number of sums it takes to reach the threshold, or all.
pub open spec fn is_nucleus_cut(sums: Seq<u32>, top_p: u32, cut: int) -> bool {
    &&& 0 <= cut <= sums.len()
    &&& forall|i: int| 0 <= i < cut - 1 ==> !at_least(#[trigger] sums[i], top_p)
    &&& cut < sums.len() ==> cut > 0 && at_least(sums[cut - 1], top_p)
}

/// How many of the highest probabilities are kept, given the sums of the first
/// one, the first two, and so on: as many as it takes to reach the threshold, or
/// all.
pub fn nucleus_cut(sums: &[u32], top_p: u32) -> (cut: usize)
    ensures
        is_nucleus_cut(sums@, top_p, cut as int),
{
    let mut i: usize = 0;
    while i < sums.len()
        invariant
            i <= sums@.len(),
            forall|j: int| 0 <= j < i ==> !at_least(#[trigger] sums@[j], top_p),
        decreases sums@.len() - i,
    {
        if is_at_least(sums[i], top_p) {
            return i + 1;
        }
        i = i + 1;
    }
    sums.len()
}

/// The values with zero for those below a cutoff.
pub open spec fn not_below(values: Seq<u32>, cutoff: u32) -> Seq<u32> {
    values.map_values(
        |v: u32|
            if above(cutoff, v) {
                0u32
            } else {
                v
            },
    )
}

/// Set to zero the values below a cutoff; the others stay.
pub fn drop_below(values: &mut [u32], cutoff: u32)
    ensures
        final(values)@ == not_below(old(values)@, cutoff),
{
    let n: usize = values.len();
    let mut i: usize = 0;
    while i < n
        invariant
            i <= n == values@.len() == old(values)@.len(),
            forall|j: int|
                0 <= j < i ==> #[trigger] values@[j] == if above(cutoff, old(values)@[j]) {
                    0
                } else {
                    old(values)@[j]
                },
            forall|j: int| i <= j < n ==> #[trigger] values@[j] == old(values)@[j],
        decreases n - i,
    {
        if is_above(cutoff, values[i]) {
            values[i] = 0;
        }
        i = i + 1;
    }
    assert(values@ =~= not_below(old(values)@, cutoff));
}

/// The token that a draw falls on, given what is left of the drawn number after
/// the first probability is taken off, after the second, and so on: the first
/// where nothing is left, or the last.
pub fn drawn_token(rest: &[u32]) -> (r: i32)
    requires
        rest@.len() > 0,
    ensures
        exists|k: int| #[trigger]
            is_drawn(rest@, k) && r == wrapped_i32(k),
{
    let mut i: usize = 0;
    while i < rest.len() - 1
        invariant
            i < rest@.len(),
            forall|j: int| 0 <= j < i ==> !at_least(0, #[trigger] rest@[j]),
        decreases rest@.len() - i,
    {
        if is_at_least(0, rest[i]) {
            assert(is_drawn(rest@, i as int));
            return wrap_to_i32(i);
        }
        i = i + 1;
    }
    assert(is_drawn(rest@, i as int));
    wrap_to_i32(i)
}

/// Index `k` is the first where nothing is left, or the last of all.
pub open spec fn is_drawn(rest: Seq<u32>, k: int) -> bool {
    &&& 0 <= k < rest.len()
    &&& forall|j: int| 0 <= j < k ==> !at_least(0, #[trigger] rest[j])
    &&& at_least(0, rest[k]) || k == rest.len() - 1
}

/// What the generator's state moves on by with each number.
pub const SPLIT_MIX_STEP: u64 = 0x9e37_79b9_7f4a_7c15;

/// The state of the generator after one number.
pub open spec fn split_mix_moved(state: u64) -> u64 {
    ((state + SPLIT_MIX_STEP) % 0x1_0000_0000_0000_0000) as u64
}

/// The low 64 bits of a product.
pub open spec fn low_product(a: u64, b: u64) -> u64 {
    ((a * b) % 0x1_0000_0000_0000_0000) as u64
}

/// The first 64-bit number of the SplitMix64 generator in a state.
pub open spec fn split_mix_first(state: u64) -> u64 {
    let x = split_mix_moved(state);
    let y = low_product(x ^ (x >> 30), 0xbf58_476d_1ce4_e5b9);
    let z = low_product(y ^ (y >> 27), 0x94d0_49bb_1331_11eb);
    z ^ (z >> 31)
}

/// `rand_xoshiro`'s `SplitMix64::next_u64`, on a generator just seeded. The
/// generator's state is one 64-bit number, at first the seed; the state moves on
/// by a step, and the result is the moved state, mixed by two multiplications.
#[verifier::external_body]
fn first_u64(seed: u64) -> (r: u64)
    ensures
        r == split_mix_first(seed),
{
    SplitMix64::seed_from_u64(seed).next_u64()
}

/// `rand_xoshiro`'s `SplitMix64::next_u64`, on a generator just seeded that has
/// given one 32-bit number. The generator's state is one 64-bit number, at first
/// the seed, and a number of either width moves it on by the same step; so the
/// result is the first number of a generator seeded with the moved state.
#[verifier::external_body]
fn u64_after_u32(seed: u64) -> (r: u64)
    ensures
        r == split_mix_first(split_mix_moved(seed)),
{
    let mut prng = SplitMix64::seed_from_u64(seed);
    prng.next_u32();
    prng.next_u64()
}

/// The seed for the next sample. Sampling draws one 32-bit number from the
/// generator, or none where the choice is greedy; the next number after that is
/// the new seed, so that the caller's cursor moves deterministically.
pub fn next_seed(seed: u64, drawn: bool) -> (r: u64)
    ensures
        r == if drawn {
            split_mix_first(split_mix_moved(seed))
        } else {
            split_mix_first(seed)
        },
{
    if drawn {
        u64_after_u32(seed)
    } else {
        first_u64(seed)
    }
}

/// What a sample needs next from the caller, who does the arithmetic.
#[derive(Debug, Clone, Copy, PartialEq, Eq, Structural)]
pub enum SampleAction {
    /// The probabilities: the values over the temperature, through softmax.
    Soften,
    /// The sums of the first value in the order, the first two, and so on.
    Accumulate,
    /// The highest value times the second threshold.
    Cutoff,
    /// The sum of all values.
    Total,
    /// What is left of a drawn part of the sum after each value in turn is taken
    /// off.
    Draw,
    /// Nothing more: the token is chosen.
    Finish,
}

/// A sample in progress: temperature, then the highest values, then those that
/// together reach a threshold, then those not far below the highest, then a draw.
#[derive(Debug)]
pub struct Sampler {
    values: Vec<u32>,
    order: Vec<usize>,
    plan: SamplePlan,
    top_p: u32,
    next: SampleAction,
    token: i32,
    drawn: bool,
    done: Vec<SampleAction>,
    sum: u32,
}

/// What is left of some probabilities when only the `k` highest are kept.
pub open spec fn truncated(before: Seq<u32>, k: Option<usize>, after: Seq<u32>) -> bool {
    match k {
        Some(k) => exists|order: Seq<usize>| #[trigger]
            is_order(before, 0, before.len() as int, order) && kept(before, after, order, k as int),
        None => after == before,
    }
}

/// What follows the truncation to the highest values.
pub open spec fn after_top_k(plan: SamplePlan) -> SampleAction {
    if plan.nucleus {
        SampleAction::Accumulate
    } else {
        after_nucleus(plan)
    }
}

/// What follows the truncation to the values that reach the threshold.
pub open spec fn after_nucleus(plan: SamplePlan) -> SampleAction {
    if plan.min_p {
        SampleAction::Cutoff
    } else {
        SampleAction::Total
    }
}

/// The stages that come before one of them.
pub open spec fn stages_before(plan: SamplePlan, due: SampleAction) -> Seq<SampleAction> {
    let nucleus = if plan.nucleus {
        seq![SampleAction::Accumulate]
    } else {
        seq![]
    };
    let min_p = if plan.min_p {
        seq![SampleAction::Cutoff]
    } else {
        seq![]
    };
    match due {
        SampleAction::Soften => seq![],
        SampleAction::Accumulate => seq![SampleAction::Soften],
        SampleAction::Cutoff => seq![SampleAction::Soften] + nucleus,
        SampleAction::Total => seq![SampleAction::Soften] + nucleus + min_p,
        _ => seq![SampleAction::Soften] + nucleus + min_p + seq![SampleAction::Total],
    }
}

impl Sampler {
    /// The logits at first, then what is left of the probabilities.
    pub closed spec fn weights(&self) -> Seq<u32> {
        self.values@
    }

    /// The order in which sums are needed.
    pub closed spec fn ranked(&self) -> Seq<usize> {
        self.order@
    }

    pub closed spec fn plan(&self) -> SamplePlan {
        self.plan
    }

    /// The threshold that sums are held against.
    pub closed spec fn threshold(&self) -> u32 {
        self.top_p
    }

    pub closed spec fn due(&self) -> SampleAction {
        self.next
    }

    /// The token, once it is chosen.
    pub closed spec fn chosen(&self) -> i32 {
        self.token
    }

    /// The sum of the values, once it was computed.
    pub closed spec fn total(&self) -> u32 {
        self.sum
    }

    /// The stages gone through so far, in order.
    pub closed spec fn stages(&self) -> Seq<SampleAction> {
        self.done@
    }

    /// A number was drawn.
    pub closed spec fn has_drawn(&self) -> bool {
        self.drawn
    }

    pub open spec fn wf(&self) -> bool {
        &&& self.weights().len() > 0
        &&& match self.plan().top_k {
            Some(k) => k < self.weights().len(),
            None => true,
        }
        &&& self.has_drawn() ==> self.due() == SampleAction::Finish
        &&& self.due() != SampleAction::Finish ==> self.stages() == stages_before(
            self.plan(),
            self.due(),
        )
        &&& self.due() != SampleAction::Finish ==> !self.plan().greedy
        &&& self.due() == SampleAction::Finish && !self.plan().greedy ==> self.stages().len() > 0
            && (self.stages().last() == SampleAction::Total || self.stages().last()
            == SampleAction::Draw)
        &&& self.due() == SampleAction::Finish && !self.has_drawn() ==> self.chosen()
            == wrapped_i32(argmax_of(self.weights()))
        &&& self.has_drawn() <==> self.stages().contains(SampleAction::Draw)
        &&& self.due() == SampleAction::Draw || self.has_drawn() ==> !at_least(0, self.total())
        &&& self.due() == SampleAction::Finish && !self.plan().greedy && !self.has_drawn()
            ==> at_least(0, self.total())
        &&& self.due() == SampleAction::Accumulate ==> self.plan().nucleus
        &&& self.due() == SampleAction::Cutoff ==> self.plan().min_p
        &&& self.due() == SampleAction::Accumulate ==> is_order(
            self.weights(),
            0,
            self.weights().len() as int,
            self.ranked(),
        )
    }

    /// The sample has the same plan as another, and as many values.
    pub open spec fn same_sample(&self, other: &Sampler) -> bool {
        &&& self.plan() == other.plan()
        &&& self.threshold() == other.threshold()
        &&& self.weights().len() == other.weights().len()
    }

    /// Start a sample. Without a positive temperature it is over at once: the
    /// token is the greedy choice, the logits stay as they are, and nothing is
    /// drawn, whatever the other settings are.
    pub fn start(logits: &[u32], temperature: u32, top_k: i32, top_p: u32, min_p: u32) -> (s: Self)
        requires
            logits@.len() > 0,
        ensures
            s.wf(),
            s.weights() == logits@,
            s.plan() == plan_of(temperature, top_k, top_p, min_p, logits@.len() as int),
            s.threshold() == top_p,
            s.stages() == Seq::<SampleAction>::empty(),
            !s.has_drawn(),
            if at_least(0, temperature) {
                s.due() == SampleAction::Finish && s.chosen() == wrapped_i32(argmax_of(logits@))
            } else {
                s.due() == SampleAction::Soften
            },
    {
        let plan: SamplePlan = plan_sample(temperature, top_k, top_p, min_p, logits.len());
        let (next, token): (SampleAction, i32) = if plan.greedy {
            (SampleAction::Finish, argmax(logits))
        } else {
            (SampleAction::Soften, 0)
        };
        Sampler {
            values: slice_to_vec(logits),
            order: Vec::new(),
            plan,
            top_p,
            next,
            token,
            drawn: false,
            done: Vec::new(),
            sum: 0,
        }
    }

    pub fn action(&self) -> (a: SampleAction)
        ensures
            a == self.due(),
    {
        self.next
    }

    /// The values, to compute with.
    pub fn values(&self) -> (v: &[u32])
        ensures
            v@ == self.weights(),
    {
        self.values.as_slice()
    }

    /// The order in which sums are needed.
    pub fn order(&self) -> (v: &[usize])
        ensures
            v@ == self.ranked(),
    {
        self.order.as_slice()
    }

    pub fn token(&self) -> (t: i32)
        ensures
            t == self.chosen(),
    {
        self.token
    }

    pub fn drawn(&self) -> (r: bool)
        ensures
            r == self.has_drawn(),
    {
        self.drawn
    }

    /// The probabilities were computed: the highest are kept.
    pub fn softened(&mut self, probs: &[u32])
        requires
            old(self).wf(),
            old(self).due() == SampleAction::Soften,
            probs@.len() == old(self).weights().len(),
        ensures
            final(self).wf(),
            final(self).same_sample(old(self)),
            final(self).stages() == old(self).stages().push(SampleAction::Soften),
            !final(self).has_drawn(),
            final(self).due() == after_top_k(old(self).plan()),
            truncated(probs@, old(self).plan().top_k, final(self).weights()),
    {
        self.done.push(SampleAction::Soften);
        self.values = slice_to_vec(probs);
        if let Some(k) = self.plan.top_k {
            let order: Vec<usize> = ranking(probs);
            drop_tail(self.values.as_mut_slice(), order.as_slice(), k);
            assert(kept(probs@, self.values@, order@, k as int));
        }
        if self.plan.nucleus {
            self.order = ranking(self.values.as_slice());
            self.next = SampleAction::Accumulate;
        } else if self.plan.min_p {
            self.next = SampleAction::Cutoff;
        } else {
            self.next = SampleAction::Total;
        }
        assert(self.stages() =~= stages_before(self.plan(), self.due()));
    }

    /// The sums were computed: the values that together reach the threshold are
    /// kept.
    pub fn accumulated(&mut self, sums: &[u32])
        requires
            old(self).wf(),
            old(self).due() == SampleAction::Accumulate,
            sums@.len() == old(self).weights().len(),
        ensures
            final(self).wf(),
            final(self).same_sample(old(self)),
            final(self).stages() == old(self).stages().push(SampleAction::Accumulate),
            !final(self).has_drawn(),
            final(self).due() == after_nucleus(old(self).plan()),
            exists|cut: int| #[trigger]
                is_nucleus_cut(sums@, old(self).threshold(), cut) && kept(
                    old(self).weights(),
                    final(self).weights(),
                    old(self).ranked(),
                    cut,
                ),
    {
        self.done.push(SampleAction::Accumulate);
        let cut: usize = nucleus_cut(sums, self.top_p);
        drop_tail(self.values.as_mut_slice(), self.order.as_slice(), cut);
        assert(is_nucleus_cut(sums@, old(self).threshold(), cut as int));
        self.next = if self.plan.min_p {
            SampleAction::Cutoff
        } else {
            SampleAction::Total
        };
        assert(self.stages() =~= stages_before(self.plan(), self.due()));
    }

    /// The cutoff was computed: values below it are dropped.
    pub fn cut_off(&mut self, cutoff: u32)
        requires
            old(self).wf(),
            old(self).due() == SampleAction::Cutoff,
        ensures
            final(self).wf(),
            final(self).same_sample(old(self)),
            final(self).stages() == old(self).stages().push(SampleAction::Cutoff),
            !final(self).has_drawn(),
            final(self).due() == SampleAction::Total,
            final(self).weights() == not_below(old(self).weights(), cutoff),
    {
        self.done.push(SampleAction::Cutoff);
        drop_below(self.values.as_mut_slice(), cutoff);
        self.next = SampleAction::Total;
        assert(self.stages() =~= stages_before(self.plan(), self.due()));
    }

    /// The sum of the values was computed: a number is to be drawn, or, where the
    /// sum is not above zero, the greedy choice is taken and nothing is drawn.
    pub fn totalled(&mut self, sum: u32)
        requires
            old(self).wf(),
            old(self).due() == SampleAction::Total,
        ensures
            final(self).wf(),
            final(self).same_sample(old(self)),
            final(self).stages() == old(self).stages().push(SampleAction::Total),
            !final(self).has_drawn(),
            final(self).weights() == old(self).weights(),
            final(self).total() == sum,
            if at_least(0, sum) {
                final(self).due() == SampleAction::Finish && final(self).chosen() == wrapped_i32(
                    argmax_of(old(self).weights()),
                )
            } else {
                final(self).due() == SampleAction::Draw
            },
    {
        self.done.push(SampleAction::Total);
        self.sum = sum;
        if is_at_least(0, sum) {
            self.token = argmax(self.values.as_slice());
            self.next = SampleAction::Finish;
        } else {
            self.next = SampleAction::Draw;
            assert(self.stages() =~= stages_before(self.plan(), self.due()));
        }
    }

    /// A number was drawn, and the values taken off it in turn: the token is
    /// where nothing is left, or the last.
    pub fn drew(&mut self, rest: &[u32])
        requires
            old(self).wf(),
            old(self).due() == SampleAction::Draw,
            rest@.len() == old(self).weights().len(),
        ensures
            final(self).wf(),
            final(self).same_sample(old(self)),
            final(self).stages() == old(self).stages().push(SampleAction::Draw),
            final(self).has_drawn(),
            final(self).weights() == old(self).weights(),
            final(self).due() == SampleAction::Finish,
            final(self).total() == old(self).total(),
            exists|k: int| #[trigger]
                is_drawn(rest@, k) && final(self).chosen() == wrapped_i32(k),
    {
        self.done.push(SampleAction::Draw);
        self.token = drawn_token(rest);
        self.drawn = true;
        self.next = SampleAction::Finish;
    }
}

} // verus!
