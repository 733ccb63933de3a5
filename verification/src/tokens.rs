//! Helpers on token sequences.

use crate::api::Tokens;
use vstd::prelude::*;

verus! {

pub fn push(tv: &mut Tokens, token: i32)
    ensures
        final(tv)@ == old(tv)@.push(token),
{
    tv.push(token);
}

pub fn free(tv: &mut Tokens)
    ensures
        final(tv)@ == Seq::<i32>::empty(),
{
    tv.clear();
}

pub fn copy(dst: &mut Tokens, src: &Tokens)
    ensures
        final(dst)@ == src@,
{
    dst.copy_from(src);
}

pub fn starts_with(tokens: &Tokens, prefix: &Tokens) -> (r: bool)
    ensures
        r == (prefix@.len() <= tokens@.len() && tokens@.take(prefix@.len() as int) == prefix@),
{
    tokens.starts_with(prefix)
}

/// `n` is the length of the longest common prefix of `a` and `b`.
pub open spec fn is_common_prefix_len(a: Seq<i32>, b: Seq<i32>, n: int) -> bool {
    &&& 0 <= n <= a.len()
    &&& n <= b.len()
    &&& a.take(n) == b.take(n)
    &&& n < a.len() && n < b.len() ==> a[n] != b[n]
}

/// Length of the longest common prefix of two token slices.
pub fn common_prefix_len(a: &[i32], b: &[i32]) -> (n: usize)
    ensures
        is_common_prefix_len(a@, b@, n as int),
{
    let mut n: usize = 0;
    while n < a.len() && n < b.len() && a[n] == b[n]
        invariant
            n <= a.len(),
            n <= b.len(),
            forall|j: int| 0 <= j < n ==> a@[j] == b@[j],
        decreases a.len() - n,
    {
        n = n + 1;
    }
    assert(a@.take(n as int) =~= b@.take(n as int));
    n
}

/// No longer prefix is common.
pub proof fn lemma_common_prefix_longest(a: Seq<i32>, b: Seq<i32>, n: int, m: int)
    requires
        is_common_prefix_len(a, b, n),
        0 <= m <= a.len(),
        m <= b.len(),
        a.take(m) == b.take(m),
    ensures
        m <= n,
{
    if m > n {
        assert(a.take(m)[n] == a[n]);
        assert(b.take(m)[n] == b[n]);
    }
}

/// The common prefix does not depend on the order of the two sequences.
pub proof fn lemma_common_prefix_symmetric(a: Seq<i32>, b: Seq<i32>, n: int)
    ensures
        is_common_prefix_len(a, b, n) == is_common_prefix_len(b, a, n),
{
}

} // verus!
