//! Expert selection.
//!
//! Scores are single-precision numbers, given by their bits.

use crate::ieee::{above, is_above, line, nan};
use vstd::prelude::*;

verus! {

/// Where index `i` goes into a ranking: before the first entry, from `from` on,
/// that it is above.
pub open spec fn slot(score: Seq<u32>, ranked: Seq<int>, i: int, from: int) -> int
    decreases ranked.len() - from,
{
    if from < 0 || from >= ranked.len() || above(score[i], score[ranked[from]]) {
        from
    } else {
        slot(score, ranked, i, from + 1)
    }
}

/// A ranking of at most `k` entries with index `i` put in its place.
pub open spec fn ranked_with(score: Seq<u32>, ranked: Seq<int>, i: int, k: int) -> Seq<int> {
    let j = slot(score, ranked, i, 0);
    if j >= k {
        ranked
    } else if ranked.len() < k {
        ranked.insert(j, i)
    } else {
        ranked.insert(j, i).take(k)
    }
}

/// The ranking of the first `n` scores: indices of the `k` highest, the highest
/// first, the earlier of two equal ones first.
pub open spec fn topk(score: Seq<u32>, k: int, n: int) -> Seq<int>
    decreases n,
{
    if n <= 0 {
        seq![]
    } else {
        ranked_with(score, topk(score, k, n - 1), n - 1, k)
    }
}

/// A ranking as `k` numbers, with `-1` for the entries that are not there.
pub open spec fn padded(ranked: Seq<int>, k: int) -> Seq<i32> {
    Seq::new(
        k as nat,
        |m: int|
            if m < ranked.len() {
                ranked[m] as i32
            } else {
                -1i32
            },
    )
}

/// All entries are indices below `n`, and there are at most `k`.
spec fn in_range(ranked: Seq<int>, k: int, n: int) -> bool {
    ranked.len() <= k && forall|m: int| 0 <= m < ranked.len() ==> 0 <= #[trigger] ranked[m] < n
}

proof fn lemma_slot_bound(score: Seq<u32>, ranked: Seq<int>, i: int, from: int)
    requires
        0 <= from <= ranked.len(),
    ensures
        from <= slot(score, ranked, i, from) <= ranked.len(),
    decreases ranked.len() - from,
{
    if from < ranked.len() && !above(score[i], score[ranked[from]]) {
        lemma_slot_bound(score, ranked, i, from + 1);
    }
}

/// Descending top-k indices of `score`, the earlier of two equal ones first.
pub fn topk_desc(score: &[u32], k: usize, idx: &mut [i32])
    requires
        old(idx)@.len() == k,
        score@.len() <= i32::MAX,
    ensures
        final(idx)@ == padded(topk(score@, k as int, score@.len() as int), k as int),
{
    let mut c: usize = 0;
    while c < k
        invariant
            c <= k == idx@.len(),
            forall|m: int| 0 <= m < c ==> idx@[m] == -1,
        decreases k - c,
    {
        idx[c] = -1;
        c = c + 1;
    }
    let ghost mut ranked: Seq<int> = seq![];
    assert(idx@ =~= padded(ranked, k as int));
    let n: usize = score.len();
    let mut i: usize = 0;
    while i < n
        invariant
            i <= n == score@.len(),
            n <= i32::MAX,
            idx@.len() == k,
            idx@ == padded(ranked, k as int),
            in_range(ranked, k as int, i as int),
            ranked == topk(score@, k as int, i as int),
        decreases n - i,
    {
        let ghost j0 = slot(score@, ranked, i as int, 0);
        proof {
            lemma_slot_bound(score@, ranked, i as int, 0);
        }
        let mut j: usize = 0;
        while j < k && !(idx[j] < 0 || is_above(score[i], score[idx[j] as usize]))
            invariant
                j <= k,
                i < n == score@.len(),
                n <= i32::MAX,
                idx@.len() == k,
                idx@ == padded(ranked, k as int),
                in_range(ranked, k as int, i as int),
                j <= ranked.len(),
                j0 == slot(score@, ranked, i as int, j as int),
            decreases k - j,
        {
            j = j + 1;
        }
        if j < k {
            assert(j == j0);
            let mut m: usize = k - 1;
            while m > j
                invariant
                    j <= m < k,
                    idx@.len() == k,
                    forall|p: int| 0 <= p <= j ==> idx@[p] == padded(ranked, k as int)[p],
                    forall|p: int| j < p <= m ==> idx@[p] == padded(ranked, k as int)[p],
                    forall|p: int| m < p < k ==> idx@[p] == padded(ranked, k as int)[p - 1],
                decreases m,
            {
                idx[m] = idx[m - 1];
                m = m - 1;
            }
            idx[j] = i as i32;
        }
        proof {
            let next = ranked_with(score@, ranked, i as int, k as int);
            if j < k {
                assert(idx@ =~= padded(next, k as int));
            } else {
                assert(j0 >= k) by {
                    lemma_slot_bound(score@, ranked, i as int, j as int);
                }
            }
            ranked = next;
        }
        i = i + 1;
    }
}

/// Entry `a` is ranked before entry `b`: its score is higher, or equal and its
/// index lower.
pub open spec fn before(score: Seq<u32>, a: int, b: int) -> bool {
    line(score[a]) > line(score[b]) || (line(score[a]) == line(score[b]) && a < b)
}

/// `ranked` is the ranking of the `k` highest of the first `n` scores.
pub open spec fn is_ranking(score: Seq<u32>, k: int, n: int, ranked: Seq<int>) -> bool {
    &&& ranked.len() == if n < k {
        n
    } else {
        k
    }
    &&& forall|m: int| 0 <= m < ranked.len() ==> 0 <= #[trigger] ranked[m] < n
    &&& forall|p: int, q: int|
        0 <= p < q < ranked.len() ==> before(score, #[trigger] ranked[p], #[trigger] ranked[q])
    &&& forall|x: int, q: int|
        0 <= x < n && !ranked.contains(x) && 0 <= q < ranked.len() ==> #[trigger] before(
            score,
            ranked[q],
            x,
        )
}

proof fn lemma_slot_position(score: Seq<u32>, ranked: Seq<int>, i: int, from: int)
    requires
        0 <= from <= ranked.len(),
        forall|m: int| 0 <= m < ranked.len() ==> 0 <= #[trigger] ranked[m] < i,
        i < score.len(),
        forall|x: int| 0 <= x < score.len() ==> !nan(#[trigger] score[x]),
        forall|p: int| 0 <= p < from ==> before(score, #[trigger] ranked[p], i),
    ensures
        ({
            let j = slot(score, ranked, i, from);
            &&& from <= j <= ranked.len()
            &&& forall|p: int| 0 <= p < j ==> before(score, #[trigger] ranked[p], i)
            &&& j < ranked.len() ==> before(score, i, ranked[j])
        }),
    decreases ranked.len() - from,
{
    if from < ranked.len() && !above(score[i], score[ranked[from]]) {
        assert(!nan(score[i]) && !nan(score[ranked[from]]));
        lemma_slot_position(score, ranked, i, from + 1);
    }
}

/// Where there are no more scores than asked for, none is left out.
proof fn lemma_topk_complete(score: Seq<u32>, k: int, n: int, x: int)
    requires
        0 <= x < n <= k,
    ensures
        topk(score, k, n).contains(x),
        topk(score, k, n).len() == n,
    decreases n,
{
    let i = n - 1;
    let r = topk(score, k, i);
    if i > 0 {
        lemma_topk_complete(score, k, i, if x < i {
            x
        } else {
            0
        });
    }
    assert(r.len() == i);
    lemma_slot_bound(score, r, i, 0);
    let j = slot(score, r, i, 0);
    let next = r.insert(j, i);
    if x == i {
        assert(next[j] == x);
    } else {
        let w = choose|w: int| 0 <= w < r.len() && r[w] == x;
        assert(next[if w < j {
            w
        } else {
            w + 1
        }] == x);
    }
}

/// Where all scores are numbers, the result is the ranking: as many entries as
/// asked for or as there are scores, in descending order with equal scores in
/// index order, and nothing left out ranks before an entry.
pub proof fn lemma_topk_ranks(score: Seq<u32>, k: int, n: int)
    requires
        0 <= k,
        0 <= n <= score.len(),
        forall|x: int| 0 <= x < score.len() ==> !nan(#[trigger] score[x]),
    ensures
        is_ranking(score, k, n, topk(score, k, n)),
    decreases n,
{
    if n > 0 {
        let i = n - 1;
        let r = topk(score, k, i);
        lemma_topk_ranks(score, k, i);
        lemma_slot_position(score, r, i, 0);
        let j = slot(score, r, i, 0);
        let next = ranked_with(score, r, i, k);
        assert forall|p: int| j <= p < r.len() implies before(score, i, #[trigger] r[p]) by {
            if p > j {
                assert(before(score, r[j], r[p]));
            }
        }
        if j < k {
            let all = r.insert(j, i);
            assert(forall|p: int| 0 <= p < next.len() ==> next[p] == #[trigger] all[p]);
            assert(forall|p: int|
                0 <= p < all.len() ==> #[trigger] all[p] == if p < j {
                    r[p]
                } else if p == j {
                    i
                } else {
                    r[p - 1]
                });
            assert forall|p: int, q: int| 0 <= p < q < next.len() implies before(
                score,
                #[trigger] next[p],
                #[trigger] next[q],
            ) by {
                assert(next[p] == all[p] && next[q] == all[q]);
            }
            assert forall|x: int, q: int|
                0 <= x < n && !next.contains(x) && 0 <= q < next.len() implies #[trigger] before(
                score,
                next[q],
                x,
            ) by {
                assert(next[q] == all[q]);
                assert(next[j] == i);
                if r.contains(x) {
                    let w = choose|w: int| 0 <= w < r.len() && r[w] == x;
                    let a = if w < j {
                        w
                    } else {
                        w + 1
                    };
                    assert(all[a] == x);
                    if a < next.len() {
                        assert(next[a] == x);
                    }
                    assert(a == k && w == k - 1);
                    if q < j {
                        assert(before(score, r[q], r[w]));
                    } else if q > j {
                        assert(before(score, r[q - 1], r[w]));
                    }
                } else {
                    assert(x != i);
                    if q < j {
                        assert(before(score, r[q], x));
                    } else if q > j {
                        assert(before(score, r[q - 1], x));
                    } else if j < r.len() {
                        assert(before(score, r[j], x));
                    } else {
                        lemma_topk_complete(score, k, i, x);
                    }
                }
            }
        } else {
            assert forall|x: int, q: int|
                0 <= x < n && !r.contains(x) && 0 <= q < r.len() implies #[trigger] before(
                score,
                r[q],
                x,
            ) by {}
        }
    }
}

} // verus!
