//! What the stages of a sample amount to.

use crate::half::{lemma_single_monotonic, single_value};
use crate::ieee::{above, at_least, magnitude, nan, NEG_INFINITY};
use crate::moe::{before, is_ranking, lemma_topk_ranks, padded, topk};
use crate::sampler::{
    ahead, eligible, is_argmax, is_argmax_excluding, is_drawn, is_nucleus_cut, is_order, kept,
    not_below, plan_of, truncated, SampleAction, Sampler,
};
use vstd::prelude::*;
use vstd::set_lib::{lemma_int_range, lemma_subset_equality, set_int_range};

verus! {

/// The number that single-precision bits stand for, in units of 2^-149. The bits of
/// the infinities stand for the numbers that would come next.
pub open spec fn number(b: u32) -> int {
    if b >= 0x8000_0000 {
        -(single_value(b - 0x8000_0000) as int)
    } else {
        single_value(b as int) as int
    }
}

/// Comparing bits is comparing the numbers that they stand for; what is no number
/// is neither above nor below anything.
pub proof fn lemma_order_of_numbers(a: u32, b: u32)
    ensures
        nan(a) || nan(b) ==> !above(a, b) && !at_least(a, b),
        !nan(a) && !nan(b) ==> (above(a, b) <==> number(a) > number(b)),
        !nan(a) && !nan(b) ==> (at_least(a, b) <==> number(a) >= number(b)),
        nan(a) <==> 0x7f80_0000 < a < 0x8000_0000 || 0xff80_0000 < a,
{
    if !nan(a) && !nan(b) {
        let (x, y) = (magnitude(a), magnitude(b));
        if x < y {
            lemma_single_monotonic(x, y);
        } else if y < x {
            lemma_single_monotonic(y, x);
        }
        if x > 0 {
            lemma_single_monotonic(0, x);
        }
        if y > 0 {
            lemma_single_monotonic(0, y);
        }
    }
}

/// The greedy choice is the first of the highest: no logit is higher, and every
/// logit before it is lower.
pub proof fn lemma_greedy_is_highest(logits: Seq<u32>, r: int, j: int)
    requires
        is_argmax(logits, r),
        0 <= j < logits.len(),
        !nan(logits[0]),
        !nan(logits[j]),
    ensures
        0 <= r < logits.len(),
        number(logits[j]) <= number(logits[r]),
        j < r ==> number(logits[j]) < number(logits[r]),
{
    lemma_order_of_numbers(logits[j], logits[r]);
    lemma_order_of_numbers(logits[r], logits[j]);
}

/// The greedy choice other than an excluded token is never that token, and no other
/// token of a finite logit is higher.
pub proof fn lemma_excluding_is_highest(logits: Seq<u32>, excluded: i32, r: int, j: int)
    requires
        is_argmax_excluding(logits, excluded, r),
        logits.len() <= i32::MAX,
        0 <= j < logits.len(),
        j != excluded,
        !nan(logits[j]),
        number(logits[j]) > number(0xff80_0000),
    ensures
        0 <= r < logits.len(),
        r != excluded,
        number(logits[j]) <= number(logits[r]),
        j < r ==> number(logits[j]) < number(logits[r]),
{
    lemma_order_of_numbers(logits[j], NEG_INFINITY);
    assert(eligible(logits, excluded, j));
    lemma_order_of_numbers(logits[j], logits[r]);
    lemma_order_of_numbers(logits[r], logits[j]);
}

/// Each setting of a sample decides its own stage, and nothing else does: the
/// choice is greedy exactly without a positive temperature; top-k applies exactly
/// where it is positive and below the number of tokens; the nucleus exactly for a
/// threshold from zero up to but without one; min-p exactly for a positive one.
pub proof fn lemma_plan_settings(temperature: u32, top_k: i32, top_p: u32, min_p: u32, n: int)
    ensures
        ({
            let plan = plan_of(temperature, top_k, top_p, min_p, n);
            &&& plan.greedy <==> temperature == 0 || 0x8000_0000 <= temperature <= 0xff80_0000
            &&& plan.top_k is Some <==> 0 < top_k < n
            &&& plan.top_k is Some ==> plan.top_k->0 == top_k
            &&& plan.nucleus <==> top_p < 0x3f80_0000 || top_p == 0x8000_0000
            &&& plan.min_p <==> 0 < min_p <= 0x7f80_0000
        }),
{
}

/// A sample that is not greedy has gone through the stages that its settings ask
/// for, in order, before a number is drawn: softmax; the nucleus exactly for a
/// threshold from zero up to one; the cutoff exactly for a positive min-p; the sum.
pub proof fn lemma_stages_taken(
    s: &Sampler,
    temperature: u32,
    top_k: i32,
    top_p: u32,
    min_p: u32,
    n: int,
)
    requires
        s.wf(),
        s.plan() == plan_of(temperature, top_k, top_p, min_p, n),
        s.due() == SampleAction::Draw,
    ensures
        s.stages().contains(SampleAction::Cutoff) <==> 0 < min_p <= 0x7f80_0000,
        s.stages().contains(SampleAction::Accumulate) <==> top_p < 0x3f80_0000 || top_p
            == 0x8000_0000,
        s.stages().len() >= 2,
        s.stages()[0] == SampleAction::Soften,
        s.stages().last() == SampleAction::Total,
        forall|i: int, j: int|
            0 <= i < j < s.stages().len() && #[trigger] s.stages()[j] == SampleAction::Accumulate
                ==> #[trigger] s.stages()[i] != SampleAction::Cutoff,
{
    lemma_plan_settings(temperature, top_k, top_p, min_p, n);
    let all = s.stages();
    let plan = s.plan();
    if plan.nucleus {
        assert(all[1] == SampleAction::Accumulate);
    }
    if plan.min_p {
        assert(all[all.len() - 2] == SampleAction::Cutoff);
    }
}

/// A sample that is due to be summed, drawn or accumulated has the stages of its
/// settings behind it: the sum is never due with a cutoff left out.
pub proof fn lemma_cutoff_before_sum(
    s: &Sampler,
    temperature: u32,
    top_k: i32,
    top_p: u32,
    min_p: u32,
    n: int,
)
    requires
        s.wf(),
        s.plan() == plan_of(temperature, top_k, top_p, min_p, n),
        s.due() == SampleAction::Total,
    ensures
        0 < min_p <= 0x7f80_0000 ==> s.stages().last() == SampleAction::Cutoff,
        !(0 < min_p <= 0x7f80_0000) ==> !s.stages().contains(SampleAction::Cutoff),
{
    lemma_plan_settings(temperature, top_k, top_p, min_p, n);
}

/// What a cutoff leaves: every value is kept or set to zero, and it is set to zero
/// exactly if it is a number below the cutoff.
pub proof fn lemma_cutoff(values: Seq<u32>, cutoff: u32, i: int)
    requires
        0 <= i < values.len(),
        !nan(cutoff),
        !nan(values[i]),
    ensures
        not_below(values, cutoff).len() == values.len(),
        number(values[i]) < number(cutoff) ==> not_below(values, cutoff)[i] == 0,
        number(values[i]) >= number(cutoff) ==> not_below(values, cutoff)[i] == values[i],
{
    lemma_order_of_numbers(cutoff, values[i]);
}

/// The indices that are ranked before `i`: those of higher values, and those of
/// equal values that come earlier. What is no number is behind all numbers.
pub open spec fn higher(values: Seq<u32>, i: int) -> Set<int> {
    Set::new(
        |j: int|
            0 <= j < values.len() && if nan(values[i]) {
                !nan(values[j]) || j < i
            } else {
                !nan(values[j]) && (number(values[j]) > number(values[i]) || (number(values[j])
                    == number(values[i]) && j < i))
            },
    )
}

proof fn lemma_ahead_is_higher(values: Seq<u32>, j: int, i: int)
    requires
        0 <= i < values.len(),
        0 <= j < values.len(),
    ensures
        ahead(values, j, i) == higher(values, i).contains(j),
{
    lemma_order_of_numbers(values[j], values[i]);
    lemma_order_of_numbers(values[i], values[j]);
}

/// An order lists every index once.
pub proof fn lemma_order_complete(values: Seq<u32>, order: Seq<usize>, i: int) -> (p: int)
    requires
        is_order(values, 0, values.len() as int, order),
        0 <= i < values.len(),
    ensures
        0 <= p < order.len(),
        order[p] == i,
{
    let o = order.map_values(|x: usize| x as int);
    let n = values.len() as int;
    assert(o.no_duplicates()) by {
        assert forall|p: int, q: int| 0 <= p < q < o.len() implies o[p] != o[q] by {
            assert(ahead(values, order[p] as int, order[q] as int));
        }
    }
    o.unique_seq_to_set();
    lemma_int_range(0, n);
    assert(o.to_set().subset_of(set_int_range(0, n))) by {
        assert forall|x: int| o.to_set().contains(x) implies set_int_range(0, n).contains(x) by {
            let p = choose|p: int| 0 <= p < o.len() && o[p] == x;
            assert(0 <= order[p] < n);
        }
    }
    vstd::seq_lib::seq_to_set_is_finite::<int>(o);
    lemma_subset_equality(o.to_set(), set_int_range(0, n));
    assert(o.to_set().contains(i));
    choose|p: int| 0 <= p < o.len() && o[p] == i
}

/// The position of an index in an order is the number of indices ranked before it.
pub proof fn lemma_order_ranks(values: Seq<u32>, order: Seq<usize>, p: int)
    requires
        is_order(values, 0, values.len() as int, order),
        0 <= p < order.len(),
    ensures
        higher(values, order[p] as int).finite(),
        higher(values, order[p] as int).len() == p,
{
    let front = order.take(p).map_values(|x: usize| x as int);
    let i = order[p] as int;
    assert(front.no_duplicates()) by {
        assert forall|a: int, b: int| 0 <= a < b < front.len() implies front[a] != front[b] by {
            assert(ahead(values, order[a] as int, order[b] as int));
        }
    }
    front.unique_seq_to_set();
    vstd::seq_lib::seq_to_set_is_finite::<int>(front);
    assert(front.to_set() =~= higher(values, i)) by {
        assert forall|x: int| front.to_set().contains(x) implies higher(values, i).contains(x) by {
            let q = choose|q: int| 0 <= q < front.len() && front[q] == x;
            assert(ahead(values, order[q] as int, order[p] as int));
            lemma_ahead_is_higher(values, x, i);
        }
        assert forall|x: int| higher(values, i).contains(x) implies front.to_set().contains(x) by {
            let q = lemma_order_complete(values, order, x);
            lemma_ahead_is_higher(values, x, i);
            if q >= p {
                if q > p {
                    assert(ahead(values, order[p] as int, order[q] as int));
                }
            }
            assert(front[q] == x);
        }
    }
}

/// Truncation to the `k` highest keeps a value exactly if fewer than `k` values are
/// ranked before it; without it all values are kept.
pub proof fn lemma_top_k_keeps(before: Seq<u32>, k: Option<usize>, after: Seq<u32>, i: int)
    requires
        truncated(before, k, after),
        0 <= i < before.len(),
    ensures
        after.len() == before.len(),
        k is None ==> after[i] == before[i],
        k is Some ==> after[i] == if higher(before, i).len() < k->0 {
            before[i]
        } else {
            0
        },
{
    if let Some(n) = k {
        let order = choose|order: Seq<usize>| #[trigger]
            is_order(before, 0, before.len() as int, order) && kept(
                before,
                after,
                order,
                n as int,
            );
        let p = lemma_order_complete(before, order, i);
        lemma_order_ranks(before, order, p);
    }
}

/// The nucleus keeps the values up to the first at which the sum reaches the
/// threshold, and all where no sum does.
pub proof fn lemma_nucleus(sums: Seq<u32>, top_p: u32, cut: int, first: int)
    requires
        is_nucleus_cut(sums, top_p, cut),
        !nan(top_p),
        forall|i: int| 0 <= i < sums.len() ==> !nan(#[trigger] sums[i]),
        0 <= first <= sums.len(),
        forall|i: int| 0 <= i < first ==> number(#[trigger] sums[i]) < number(top_p),
        first < sums.len() ==> number(sums[first]) >= number(top_p),
    ensures
        cut == if first < sums.len() {
            first + 1
        } else {
            sums.len() as int
        },
{
    assert forall|i: int| 0 <= i < sums.len() implies at_least(#[trigger] sums[i], top_p) == (
    number(sums[i]) >= number(top_p)) by {
        lemma_order_of_numbers(sums[i], top_p);
    }
    if first < sums.len() {
        assert(at_least(sums[first], top_p));
        if cut - 1 > first {
            assert(!at_least(sums[first], top_p));
        }
        if cut <= first {
            assert(number(sums[cut - 1]) < number(top_p));
        }
    } else if cut < sums.len() {
        assert(number(sums[cut - 1]) < number(top_p));
    }
}

/// A draw falls on the first token at which nothing is left of the drawn number,
/// and on the last where something always is.
pub proof fn lemma_draw(rest: Seq<u32>, k: int, first: int)
    requires
        is_drawn(rest, k),
        forall|i: int| 0 <= i < rest.len() ==> !nan(#[trigger] rest[i]),
        0 <= first <= rest.len(),
        forall|i: int| 0 <= i < first ==> number(#[trigger] rest[i]) > number(0),
        first < rest.len() ==> number(rest[first]) <= number(0),
    ensures
        k == if first < rest.len() {
            first
        } else {
            rest.len() - 1
        },
{
    assert forall|i: int| 0 <= i < rest.len() implies at_least(0, #[trigger] rest[i]) == (number(
        rest[i],
    ) <= number(0)) by {
        lemma_order_of_numbers(0, rest[i]);
    }
    if first < rest.len() {
        assert(at_least(0, rest[first]));
        if k < first {
            assert(number(rest[k]) > number(0));
        }
        if k > first {
            assert(!at_least(0, rest[first]));
        }
    } else {
        assert(number(rest[k]) > number(0));
    }
}

/// Of the experts, those selected have no lower scores than those left out, each
/// comes once, and they are listed from the highest score down, equal ones in index
/// order.
pub proof fn lemma_selection(score: Seq<u32>, k: int, p: int, x: int)
    requires
        0 < k <= score.len(),
        forall|i: int| 0 <= i < score.len() ==> !nan(#[trigger] score[i]),
        0 <= p < k,
        0 <= x < score.len(),
    ensures
        ({
            let chosen = topk(score, k, score.len() as int);
            &&& chosen.len() == k
            &&& 0 <= chosen[p] < score.len()
            &&& !chosen.contains(x) ==> number(score[x]) <= number(score[chosen[p]])
            &&& !chosen.contains(x) && number(score[x]) == number(score[chosen[p]]) ==> chosen[p]
                < x
            &&& forall|q: int|
                p < q < k ==> number(score[chosen[p]]) >= number(score[#[trigger] chosen[q]])
                    && chosen[p] != chosen[q]
            &&& forall|q: int|
                p < q < k && number(score[chosen[p]]) == number(score[#[trigger] chosen[q]])
                    ==> chosen[p] < chosen[q]
        }),
{
    let n = score.len() as int;
    let chosen = topk(score, k, n);
    lemma_topk_ranks(score, k, n);
    assert(is_ranking(score, k, n, chosen));
    let c = chosen[p];
    if !chosen.contains(x) {
        assert(before(score, chosen[p], x));
        lemma_order_of_numbers(score[x], score[c]);
        lemma_order_of_numbers(score[c], score[x]);
    }
    assert forall|q: int| p < q < k implies number(score[c]) >= number(score[#[trigger] chosen[q]])
        && c != chosen[q] && (number(score[c]) == number(score[chosen[q]]) ==> c < chosen[q]) by {
        assert(before(score, chosen[p], chosen[q]));
        lemma_order_of_numbers(score[chosen[q]], score[c]);
        lemma_order_of_numbers(score[c], score[chosen[q]]);
    }
}

/// A sample is over at once exactly without a positive temperature; otherwise it is
/// over behind the sum, where that is nothing, or behind a draw, and a number is drawn
/// exactly where the sum is not nothing.
pub proof fn lemma_sample_over(
    s: &Sampler,
    temperature: u32,
    top_k: i32,
    top_p: u32,
    min_p: u32,
    n: int,
)
    requires
        s.wf(),
        s.plan() == plan_of(temperature, top_k, top_p, min_p, n),
        s.due() == SampleAction::Finish,
        !nan(temperature),
        !nan(s.total()),
    ensures
        s.stages().len() == 0 ==> number(temperature) <= number(0),
        number(temperature) > number(0) && !s.stages().contains(SampleAction::Draw) ==> number(
            s.total(),
        ) <= number(0),
        s.stages().contains(SampleAction::Draw) ==> number(s.total()) > number(0),
        s.has_drawn() <==> s.stages().contains(SampleAction::Draw),
{
    lemma_order_of_numbers(0, temperature);
    lemma_order_of_numbers(0, s.total());
}

/// A sample that is still going on has a positive temperature.
pub proof fn lemma_sample_going_on(
    s: &Sampler,
    temperature: u32,
    top_k: i32,
    top_p: u32,
    min_p: u32,
    n: int,
)
    requires
        s.wf(),
        s.plan() == plan_of(temperature, top_k, top_p, min_p, n),
        s.due() != SampleAction::Finish,
        !nan(temperature),
    ensures
        number(temperature) > number(0),
{
    lemma_order_of_numbers(0, temperature);
}

/// A selection is listed as indices, with -1 for what is not there.
pub proof fn lemma_padded(ranked: Seq<int>, k: int, m: int)
    requires
        0 <= m < k,
        forall|i: int| 0 <= i < ranked.len() ==> 0 <= #[trigger] ranked[i] <= i32::MAX,
    ensures
        padded(ranked, k).len() == k,
        m < ranked.len() ==> padded(ranked, k)[m] == ranked[m],
        m >= ranked.len() ==> padded(ranked, k)[m] == -1,
{
}

} // verus!
