//! Byte-level BPE engine.
//!
//! Merges the symbols of one byte-encoded piece greedily, by merge rank.

use super::byte_map::{
    byte_encode, encoded, lemma_encoded_concat, lemma_encoded_injective, lemma_symbol_width,
    symbol_of,
    utf8_len_from_first_byte, utf8_width,
};
use super::maps::{merge_ranks, merges_get, vocab_get, vocab_ids};
use super::pretok::joined;
use crate::bytes::append_bytes;
use ahash::AHashMap;
use vstd::prelude::*;
use vstd::slice::{slice_subrange, slice_to_vec};

verus! {

/// One pre-tokenized chunk that the BPE engine merges greedily.
pub struct Bpe<'a> {
    /// Pair of symbols to rank.
    pub merges: &'a AHashMap<(Vec<u8>, Vec<u8>), i32>,
    /// Piece to token id.
    pub vocab: &'a AHashMap<Vec<u8>, i32>,
}

/// The views of a list of byte strings.
pub open spec fn views(v: Seq<Vec<u8>>) -> Seq<Seq<u8>> {
    Seq::new(v.len(), |i: int| v[i]@)
}

/// One symbol for each byte of the piece.
pub open spec fn symbols(raw: Seq<u8>) -> Seq<Seq<u8>> {
    raw.map_values(|b: u8| symbol_of(b))
}

/// The rank of the pair at `i`; a pair without a merge ranks behind every pair
/// that has one.
pub open spec fn rank_at(
    syms: Seq<Seq<u8>>,
    ranks: Map<(Seq<u8>, Seq<u8>), i32>,
    i: int,
) -> i32 {
    if ranks.dom().contains((syms[i], syms[i + 1])) {
        ranks[(syms[i], syms[i + 1])]
    } else {
        i32::MAX
    }
}

/// The pair at `i` is the one to merge next: it has the lowest rank of all, and
/// no pair before it has the same.
pub open spec fn is_next_merge(
    syms: Seq<Seq<u8>>,
    ranks: Map<(Seq<u8>, Seq<u8>), i32>,
    i: int,
) -> bool {
    &&& 0 <= i < syms.len() - 1
    &&& rank_at(syms, ranks, i) < i32::MAX
    &&& forall|j: int|
        0 <= j < syms.len() - 1 ==> rank_at(syms, ranks, i) <= #[trigger] rank_at(syms, ranks, j)
    &&& forall|j: int|
        0 <= j < i ==> rank_at(syms, ranks, i) < #[trigger] rank_at(syms, ranks, j)
}

/// The symbols with those at `i` and `i + 1` made one.
pub open spec fn merge_at(syms: Seq<Seq<u8>>, i: int) -> Seq<Seq<u8>> {
    syms.update(i, syms[i] + syms[i + 1]).remove(i + 1)
}

/// The symbols that are left when nothing can be merged any more.
pub open spec fn merged(
    syms: Seq<Seq<u8>>,
    ranks: Map<(Seq<u8>, Seq<u8>), i32>,
) -> Seq<Seq<u8>>
    decreases syms.len(),
{
    if exists|i: int| is_next_merge(syms, ranks, i) {
        merged(merge_at(syms, choose|i: int| is_next_merge(syms, ranks, i)), ranks)
    } else {
        syms
    }
}

/// The ids of some bytes, each looked up as its own symbol; those that have none
/// are skipped.
pub open spec fn byte_tokens(bytes: Seq<u8>, ids: Map<Seq<u8>, i32>) -> Seq<i32>
    decreases bytes.len(),
{
    if bytes.len() == 0 {
        seq![]
    } else if ids.dom().contains(symbol_of(bytes.last())) {
        byte_tokens(bytes.drop_last(), ids).push(ids[symbol_of(bytes.last())])
    } else {
        byte_tokens(bytes.drop_last(), ids)
    }
}

/// The bytes that a symbol is the byte-encoded form of; no others have the same.
pub open spec fn decoded(sym: Seq<u8>) -> Seq<u8> {
    choose|bytes: Seq<u8>| encoded(bytes) == sym
}

/// The ids that stand for a symbol: its own, or else one for each of the bytes
/// that it encodes.
pub open spec fn symbol_tokens(sym: Seq<u8>, ids: Map<Seq<u8>, i32>) -> Seq<i32> {
    if ids.dom().contains(sym) {
        seq![ids[sym]]
    } else {
        byte_tokens(decoded(sym), ids)
    }
}

/// The ids that stand for a list of symbols.
pub open spec fn tokens_of(syms: Seq<Seq<u8>>, ids: Map<Seq<u8>, i32>) -> Seq<i32>
    decreases syms.len(),
{
    if syms.len() == 0 {
        seq![]
    } else {
        tokens_of(syms.drop_last(), ids) + symbol_tokens(syms.last(), ids)
    }
}

/// The ids of one piece of text.
pub open spec fn piece_tokens(
    raw: Seq<u8>,
    ranks: Map<(Seq<u8>, Seq<u8>), i32>,
    ids: Map<Seq<u8>, i32>,
) -> Seq<i32> {
    tokens_of(merged(symbols(raw), ranks), ids)
}

/// The pair to merge next is unique.
pub proof fn lemma_next_merge_unique(
    syms: Seq<Seq<u8>>,
    ranks: Map<(Seq<u8>, Seq<u8>), i32>,
    i: int,
    j: int,
)
    requires
        is_next_merge(syms, ranks, i),
        is_next_merge(syms, ranks, j),
    ensures
        i == j,
{
    if i < j {
        assert(rank_at(syms, ranks, j) < rank_at(syms, ranks, i));
    } else if j < i {
        assert(rank_at(syms, ranks, i) < rank_at(syms, ranks, j));
    }
}

impl<'a> Bpe<'a> {
    /// Tokenize a single piece and push its token ids onto `out`.
    pub fn emit_piece(&self, raw: &[u8], out: &mut Vec<i32>)
        ensures
            final(out)@ == old(out)@ + piece_tokens(
                raw@,
                merge_ranks(*self.merges),
                vocab_ids(*self.vocab),
            ),
    {
        let ghost ranks = merge_ranks(*self.merges);
        let ghost ids = vocab_ids(*self.vocab);
        let mut syms: Vec<Vec<u8>> = split_symbols(raw);
        // Greedy merge.
        let mut more: bool = true;
        while more
            invariant
                ranks == merge_ranks(*self.merges),
                merged(views(syms@), ranks) == merged(symbols(raw@), ranks),
                !more ==> views(syms@) == merged(symbols(raw@), ranks),
            decreases syms.len() + (if more { 1int } else { 0int }),
        {
            match self.next_merge(&syms) {
                Some(i) => {
                    proof {
                        let c = choose|c: int| is_next_merge(views(syms@), ranks, c);
                        lemma_next_merge_unique(views(syms@), ranks, i as int, c);
                    }
                    let ghost before = views(syms@);
                    let mut both: Vec<u8> = slice_to_vec(syms[i].as_slice());
                    append_bytes(&mut both, syms[i + 1].as_slice());
                    syms.set(i, both);
                    syms.remove(i + 1);
                    assert(views(syms@) =~= merge_at(before, i as int));
                },
                None => {
                    more = false;
                },
            }
        }
        // Look up each surviving symbol.
        let mut k: usize = 0;
        proof {
            lemma_symbols_encoded(raw@);
            lemma_merged_encoded(symbols(raw@), ranks);
        }
        while k < syms.len()
            invariant
                k <= syms.len(),
                ids == vocab_ids(*self.vocab),
                all_encoded(views(syms@)),
                out@ == old(out)@ + tokens_of(views(syms@).take(k as int), ids),
            decreases syms.len() - k,
        {
            assert(is_encoded(views(syms@)[k as int]));
            self.emit_symbol(syms[k].as_slice(), out);
            k = k + 1;
            assert(views(syms@).take(k as int).drop_last() =~= views(syms@).take(k - 1));
            assert(out@ =~= old(out)@ + tokens_of(views(syms@).take(k as int), ids));
        }
        assert(views(syms@).take(k as int) =~= views(syms@));
    }

    /// The pair of symbols to merge next, by the index of its first.
    fn next_merge(&self, syms: &Vec<Vec<u8>>) -> (best: Option<usize>)
        ensures
            match best {
                Some(i) => is_next_merge(views(syms@), merge_ranks(*self.merges), i as int),
                None => forall|i: int|
                    !is_next_merge(views(syms@), merge_ranks(*self.merges), i),
            },
    {
        let ghost ranks = merge_ranks(*self.merges);
        let ghost vs = views(syms@);
        let mut best_i: Option<usize> = None;
        let mut best_rank: i32 = i32::MAX;
        let mut i: usize = 0;
        while i + 1 < syms.len()
            invariant
                i <= syms.len(),
                syms.len() > 0 ==> i < syms.len(),
                ranks == merge_ranks(*self.merges),
                vs == views(syms@),
                forall|j: int| 0 <= j < i ==> best_rank <= #[trigger] rank_at(vs, ranks, j),
                match best_i {
                    Some(b) => b < i && best_rank == rank_at(vs, ranks, b as int) && best_rank
                        < i32::MAX && forall|j: int|
                        0 <= j < b ==> best_rank < #[trigger] rank_at(vs, ranks, j),
                    None => best_rank == i32::MAX,
                },
            decreases syms.len() - i,
        {
            let left: Vec<u8> = slice_to_vec(syms[i].as_slice());
            let right: Vec<u8> = slice_to_vec(syms[i + 1].as_slice());
            if let Some(r) = merges_get(self.merges, left, right) {
                if r < best_rank {
                    best_rank = r;
                    best_i = Some(i);
                }
            }
            i = i + 1;
        }
        best_i
    }

    /// Push the id of a symbol, or else the ids of the bytes that it encodes. They
    /// are looked up as their symbols, which are the characters of the symbol.
    fn emit_symbol(&self, sym: &[u8], out: &mut Vec<i32>)
        requires
            is_encoded(sym@),
        ensures
            final(out)@ == old(out)@ + symbol_tokens(sym@, vocab_ids(*self.vocab)),
    {
        let ghost ids = vocab_ids(*self.vocab);
        let ghost bytes = decoded(sym@);
        if let Some(id) = vocab_get(self.vocab, sym) {
            out.push(id);
        } else {
            let mut off: usize = 0;
            let ghost mut k: int = 0;
            assert(bytes.take(0) =~= Seq::<u8>::empty());
            assert(out@ =~= old(out)@ + byte_tokens(bytes.take(0), ids));
            while off < sym.len()
                invariant
                    0 <= k <= bytes.len(),
                    sym@ == encoded(bytes),
                    off == encoded(bytes.take(k)).len(),
                    off <= sym.len(),
                    ids == vocab_ids(*self.vocab),
                    out@ == old(out)@ + byte_tokens(bytes.take(k), ids),
                decreases sym.len() - off,
            {
                proof {
                    lemma_symbol_at(bytes, k);
                }
                let n: usize = utf8_len_from_first_byte(sym[off]);
                let one: &[u8] = slice_subrange(sym, off, off + n);
                if let Some(id) = vocab_get(self.vocab, one) {
                    out.push(id);
                }
                off = off + n;
                proof {
                    k = k + 1;
                    assert(bytes.take(k).drop_last() =~= bytes.take(k - 1));
                    assert(out@ =~= old(out)@ + byte_tokens(bytes.take(k), ids));
                }
            }
            proof {
                lemma_encoded_end(bytes, k);
            }
        }
        assert(out@ =~= old(out)@ + symbol_tokens(sym@, ids));
    }
}

/// The byte-encoded form of some bytes.
pub open spec fn is_encoded(sym: Seq<u8>) -> bool {
    exists|bytes: Seq<u8>| encoded(bytes) == sym
}

spec fn all_encoded(syms: Seq<Seq<u8>>) -> bool {
    forall|i: int| 0 <= i < syms.len() ==> is_encoded(#[trigger] syms[i])
}

/// The symbol of byte `k` stands in the byte-encoded form behind the symbols of
/// the bytes before.
proof fn lemma_symbol_at(bytes: Seq<u8>, k: int)
    requires
        0 <= k <= bytes.len(),
        encoded(bytes.take(k)).len() < encoded(bytes).len(),
    ensures
        k < bytes.len(),
        ({
            let off = encoded(bytes.take(k)).len() as int;
            let sym = symbol_of(bytes[k]);
            &&& off + sym.len() <= encoded(bytes).len()
            &&& encoded(bytes).subrange(off, off + sym.len()) == sym
            &&& sym.len() == utf8_width(encoded(bytes)[off])
            &&& encoded(bytes.take(k + 1)).len() == off + sym.len()
        }),
{
    if k == bytes.len() {
        assert(bytes.take(k) =~= bytes);
    }
    let off = encoded(bytes.take(k)).len() as int;
    let sym = symbol_of(bytes[k]);
    lemma_encoded_concat(bytes.take(k + 1), bytes.skip(k + 1));
    assert(bytes.take(k + 1) + bytes.skip(k + 1) =~= bytes);
    assert(bytes.take(k + 1).drop_last() =~= bytes.take(k));
    lemma_symbol_width(bytes[k]);
    assert(encoded(bytes).subrange(off, off + sym.len()) =~= sym);
    assert(encoded(bytes)[off] == sym[0]);
}

/// Where the symbols of the first `k` bytes are all there is, there are no more
/// bytes.
proof fn lemma_encoded_end(bytes: Seq<u8>, k: int)
    requires
        0 <= k <= bytes.len(),
        encoded(bytes.take(k)).len() >= encoded(bytes).len(),
    ensures
        bytes.take(k) == bytes,
{
    if k < bytes.len() {
        lemma_encoded_concat(bytes.take(k), bytes.skip(k));
        assert(bytes.take(k) + bytes.skip(k) =~= bytes);
        lemma_symbol_width(bytes.skip(k).last());
        assert(encoded(bytes.skip(k)).len() > 0);
    }
    assert(bytes.take(k) =~= bytes);
}

proof fn lemma_encoded_one(b: u8)
    ensures
        encoded(seq![b]) == symbol_of(b),
{
    reveal_with_fuel(encoded, 2);
    assert(seq![b].drop_last() =~= Seq::<u8>::empty());
    assert(encoded(seq![b]) =~= symbol_of(b));
}

proof fn lemma_symbols_encoded(raw: Seq<u8>)
    ensures
        all_encoded(symbols(raw)),
{
    let syms = symbols(raw);
    assert forall|i: int| 0 <= i < syms.len() implies is_encoded(#[trigger] syms[i]) by {
        lemma_encoded_one(raw[i]);
    }
}

/// Every symbol that merging leaves is the byte-encoded form of some bytes.
proof fn lemma_merged_encoded(syms: Seq<Seq<u8>>, ranks: Map<(Seq<u8>, Seq<u8>), i32>)
    requires
        all_encoded(syms),
    ensures
        all_encoded(merged(syms, ranks)),
    decreases syms.len(),
{
    if exists|i: int| is_next_merge(syms, ranks, i) {
        let c = choose|i: int| is_next_merge(syms, ranks, i);
        let next = merge_at(syms, c);
        assert forall|i: int| 0 <= i < next.len() implies is_encoded(#[trigger] next[i]) by {
            if i < c {
                assert(next[i] == syms[i]);
            } else if i > c {
                assert(next[i] == syms[i + 1]);
            } else {
                assert(is_encoded(syms[c]) && is_encoded(syms[c + 1]));
                lemma_encoded_concat(decoded(syms[c]), decoded(syms[c + 1]));
            }
        }
        lemma_merged_encoded(next, ranks);
    }
}

/// Byte-encode a piece and cut it into one symbol per UTF-8 character.
fn split_symbols(raw: &[u8]) -> (syms: Vec<Vec<u8>>)
    ensures
        views(syms@) == symbols(raw@),
{
    let enc: Vec<u8> = byte_encode(raw);
    let mut syms: Vec<Vec<u8>> = Vec::new();
    let mut off: usize = 0;
    let ghost mut k: int = 0;
    while off < enc.len()
        invariant
            0 <= k <= raw@.len(),
            enc@ == encoded(raw@),
            off == encoded(raw@.take(k)).len(),
            off <= enc.len(),
            views(syms@) == symbols(raw@.take(k)),
        decreases enc.len() - off,
    {
        proof {
            lemma_symbol_at(raw@, k);
        }
        let mut n: usize = utf8_len_from_first_byte(enc[off]);
        if n > enc.len() - off {
            n = 1;
        }
        let ghost before = syms@;
        syms.push(slice_to_vec(slice_subrange(enc.as_slice(), off, off + n)));
        off = off + n;
        proof {
            k = k + 1;
            assert(views(syms@) =~= views(before).push(symbol_of(raw@[k - 1])));
            assert(symbols(raw@.take(k)) =~= symbols(raw@.take(k - 1)).push(
                symbol_of(raw@[k - 1]),
            ));
        }
    }
    proof {
        lemma_encoded_end(raw@, k);
    }
    syms
}

/// Joining a concatenation is concatenating what is joined.
pub proof fn lemma_joined_concat(a: Seq<Seq<u8>>, b: Seq<Seq<u8>>)
    ensures
        joined(a + b) == joined(a) + joined(b),
    decreases a.len(),
{
    if a.len() == 0 {
        assert(a + b =~= b);
        assert(joined(a) + joined(b) =~= joined(b));
    } else {
        lemma_joined_concat(a.drop_first(), b);
        assert((a + b).drop_first() =~= a.drop_first() + b);
        assert(joined(a + b) =~= joined(a) + joined(b));
    }
}

/// Joining one piece changes nothing.
pub proof fn lemma_joined_one(a: Seq<u8>)
    ensures
        joined(seq![a]) == a,
{
    reveal_with_fuel(joined, 2);
    assert(seq![a].drop_first() =~= Seq::<Seq<u8>>::empty());
    assert(a + Seq::<u8>::empty() =~= a);
}

proof fn lemma_merge_at_joins(syms: Seq<Seq<u8>>, i: int)
    requires
        0 <= i < syms.len() - 1,
    ensures
        joined(merge_at(syms, i)) == joined(syms),
{
    let head = syms.take(i);
    let tail = syms.skip(i + 2);
    let pair = seq![syms[i], syms[i + 1]];
    let both = seq![syms[i] + syms[i + 1]];
    assert(syms =~= head + (pair + tail));
    assert(merge_at(syms, i) =~= head + (both + tail));
    lemma_joined_concat(head, pair + tail);
    lemma_joined_concat(pair, tail);
    lemma_joined_concat(head, both + tail);
    lemma_joined_concat(both, tail);
    assert(pair =~= seq![syms[i]] + seq![syms[i + 1]]);
    lemma_joined_concat(seq![syms[i]], seq![syms[i + 1]]);
    lemma_joined_one(syms[i]);
    lemma_joined_one(syms[i + 1]);
    lemma_joined_one(syms[i] + syms[i + 1]);
}

/// Merging never changes the text: the symbols that are left, joined, are the
/// symbols of the start, joined.
pub proof fn lemma_merged_joins(syms: Seq<Seq<u8>>, ranks: Map<(Seq<u8>, Seq<u8>), i32>)
    ensures
        joined(merged(syms, ranks)) == joined(syms),
    decreases syms.len(),
{
    if exists|i: int| is_next_merge(syms, ranks, i) {
        let i = choose|i: int| is_next_merge(syms, ranks, i);
        lemma_merge_at_joins(syms, i);
        lemma_merged_joins(merge_at(syms, i), ranks);
    }
}

/// Merging goes on to the end: no pair that is left has a merge, but for pairs
/// of the highest rank, which are never merged.
pub proof fn lemma_merged_is_final(
    syms: Seq<Seq<u8>>,
    ranks: Map<(Seq<u8>, Seq<u8>), i32>,
    i: int,
)
    requires
        0 <= i < merged(syms, ranks).len() - 1,
    ensures
        rank_at(merged(syms, ranks), ranks, i) == i32::MAX,
    decreases syms.len(),
{
    if exists|c: int| is_next_merge(syms, ranks, c) {
        let c = choose|c: int| is_next_merge(syms, ranks, c);
        lemma_merged_is_final(merge_at(syms, c), ranks, i);
    } else if rank_at(syms, ranks, i) < i32::MAX {
        let c = lemma_lowest_rank(syms, ranks, syms.len() - 1, i);
        assert(is_next_merge(syms, ranks, c));
    }
}

/// Among the first `n` pairs, the first one of the lowest rank.
proof fn lemma_lowest_rank(
    syms: Seq<Seq<u8>>,
    ranks: Map<(Seq<u8>, Seq<u8>), i32>,
    n: int,
    i: int,
) -> (c: int)
    requires
        0 <= i < n <= syms.len() - 1,
    ensures
        0 <= c < n,
        forall|j: int| 0 <= j < n ==> rank_at(syms, ranks, c) <= #[trigger] rank_at(syms, ranks, j),
        forall|j: int| 0 <= j < c ==> rank_at(syms, ranks, c) < #[trigger] rank_at(syms, ranks, j),
    decreases n,
{
    if n == 1 {
        0
    } else {
        let c = lemma_lowest_rank(syms, ranks, n - 1, 0);
        if rank_at(syms, ranks, n - 1) < rank_at(syms, ranks, c) {
            n - 1
        } else {
            c
        }
    }
}

/// The symbols of a piece, joined, are its byte-encoded form.
pub proof fn lemma_symbols_join(raw: Seq<u8>)
    ensures
        joined(symbols(raw)) == encoded(raw),
    decreases raw.len(),
{
    if raw.len() > 0 {
        lemma_symbols_join(raw.drop_last());
        let last = seq![symbol_of(raw.last())];
        assert(symbols(raw) =~= symbols(raw.drop_last()) + last);
        lemma_joined_concat(symbols(raw.drop_last()), last);
        lemma_joined_one(symbol_of(raw.last()));
    }
}

/// A vocabulary that knows every byte's symbol.
pub open spec fn knows_bytes(ids: Map<Seq<u8>, i32>) -> bool {
    forall|b: u8| ids.dom().contains(#[trigger] symbol_of(b))
}

/// The index and the list of the vocabulary agree: each indexed form is the one
/// listed under its id.
pub open spec fn agrees(vocab: Seq<Seq<u8>>, ids: Map<Seq<u8>, i32>) -> bool {
    forall|s: Seq<u8>| #[trigger]
        ids.dom().contains(s) ==> 0 <= ids[s] < vocab.len() && vocab[ids[s] as int] == s
}

/// The listed forms of some ids.
pub open spec fn texts(vocab: Seq<Seq<u8>>, tokens: Seq<i32>) -> Seq<Seq<u8>> {
    tokens.map_values(|id: i32| vocab[id as int])
}

proof fn lemma_byte_tokens_text(
    bytes: Seq<u8>,
    ids: Map<Seq<u8>, i32>,
    vocab: Seq<Seq<u8>>,
)
    requires
        knows_bytes(ids),
        agrees(vocab, ids),
    ensures
        joined(texts(vocab, byte_tokens(bytes, ids))) == encoded(bytes),
    decreases bytes.len(),
{
    if bytes.len() > 0 {
        let front = bytes.drop_last();
        let sym = symbol_of(bytes.last());
        lemma_byte_tokens_text(front, ids, vocab);
        assert(ids.dom().contains(sym));
        let before = texts(vocab, byte_tokens(front, ids));
        assert(texts(vocab, byte_tokens(bytes, ids)) =~= before + seq![sym]);
        lemma_joined_concat(before, seq![sym]);
        lemma_joined_one(sym);
    } else {
        assert(texts(vocab, byte_tokens(bytes, ids)) =~= Seq::<Seq<u8>>::empty());
    }
}

proof fn lemma_tokens_of_text(
    syms: Seq<Seq<u8>>,
    ids: Map<Seq<u8>, i32>,
    vocab: Seq<Seq<u8>>,
)
    requires
        knows_bytes(ids),
        agrees(vocab, ids),
        all_encoded(syms),
    ensures
        joined(texts(vocab, tokens_of(syms, ids))) == joined(syms),
    decreases syms.len(),
{
    if syms.len() > 0 {
        let front = syms.drop_last();
        let sym = syms.last();
        assert(is_encoded(syms[syms.len() - 1]));
        lemma_tokens_of_text(front, ids, vocab);
        let a = texts(vocab, tokens_of(front, ids));
        let b = texts(vocab, symbol_tokens(sym, ids));
        assert(texts(vocab, tokens_of(syms, ids)) =~= a + b);
        lemma_joined_concat(a, b);
        if ids.dom().contains(sym) {
            assert(b =~= seq![sym]);
            lemma_joined_one(sym);
        } else {
            lemma_byte_tokens_text(decoded(sym), ids, vocab);
        }
        assert(syms =~= front + seq![sym]);
        lemma_joined_concat(front, seq![sym]);
        lemma_joined_one(sym);
    } else {
        assert(texts(vocab, tokens_of(syms, ids)) =~= Seq::<Seq<u8>>::empty());
    }
}

/// With a vocabulary that knows every byte's symbol, tokenizing loses nothing:
/// the texts of a piece's tokens, joined, are its byte-encoded form.
pub proof fn lemma_piece_round_trip(
    raw: Seq<u8>,
    ranks: Map<(Seq<u8>, Seq<u8>), i32>,
    ids: Map<Seq<u8>, i32>,
    vocab: Seq<Seq<u8>>,
)
    requires
        knows_bytes(ids),
        agrees(vocab, ids),
    ensures
        joined(texts(vocab, piece_tokens(raw, ranks, ids))) == encoded(raw),
{
    lemma_symbols_encoded(raw);
    lemma_merged_encoded(symbols(raw), ranks);
    lemma_tokens_of_text(merged(symbols(raw), ranks), ids, vocab);
    lemma_merged_joins(symbols(raw), ranks);
    lemma_symbols_join(raw);
}

/// A merge of the lowest rank goes first, and of several of that rank the one
/// farthest to the left: the two symbols become one, and merging goes on from there.
pub proof fn lemma_lowest_rank_first(
    syms: Seq<Seq<u8>>,
    ranks: Map<(Seq<u8>, Seq<u8>), i32>,
    c: int,
)
    requires
        0 <= c < syms.len() - 1,
        ranks.dom().contains((syms[c], syms[c + 1])),
        ranks[(syms[c], syms[c + 1])] < i32::MAX,
        forall|j: int|
            0 <= j < syms.len() - 1 && ranks.dom().contains((#[trigger] syms[j], syms[j + 1]))
                ==> ranks[(syms[c], syms[c + 1])] <= ranks[(syms[j], syms[j + 1])],
        forall|j: int|
            0 <= j < c && ranks.dom().contains((#[trigger] syms[j], syms[j + 1]))
                ==> ranks[(syms[c], syms[c + 1])] < ranks[(syms[j], syms[j + 1])],
    ensures
        merged(syms, ranks) == merged(
            syms.take(c).push(syms[c] + syms[c + 1]) + syms.skip(c + 2),
            ranks,
        ),
{
    assert(is_next_merge(syms, ranks, c)) by {
        assert forall|j: int| 0 <= j < syms.len() - 1 implies rank_at(syms, ranks, c)
            <= #[trigger] rank_at(syms, ranks, j) by {
            assert(syms[j] == syms[j]);
        }
        assert forall|j: int| 0 <= j < c implies rank_at(syms, ranks, c) < #[trigger] rank_at(
            syms,
            ranks,
            j,
        ) by {
            assert(syms[j] == syms[j]);
        }
    }
    let k = choose|i: int| is_next_merge(syms, ranks, i);
    lemma_next_merge_unique(syms, ranks, k, c);
    assert(merge_at(syms, c) =~= syms.take(c).push(syms[c] + syms[c + 1]) + syms.skip(c + 2));
}

/// Symbols of which no two neighbours have a merge stay as they are.
pub proof fn lemma_nothing_to_merge(syms: Seq<Seq<u8>>, ranks: Map<(Seq<u8>, Seq<u8>), i32>)
    requires
        forall|j: int|
            0 <= j < syms.len() - 1 ==> !ranks.dom().contains((#[trigger] syms[j], syms[j + 1])),
    ensures
        merged(syms, ranks) == syms,
{
    assert forall|i: int| !is_next_merge(syms, ranks, i) by {
        if 0 <= i < syms.len() - 1 {
            assert(!ranks.dom().contains((syms[i], syms[i + 1])));
        }
    }
}

/// The ids of symbols come one after the other: a symbol of the vocabulary gives its
/// own id, and the byte-encoded form of bytes that is not in the vocabulary the id of
/// each byte's symbol that is.
pub proof fn lemma_symbol_ids(
    front: Seq<Seq<u8>>,
    sym: Seq<u8>,
    bytes: Seq<u8>,
    b: u8,
    ids: Map<Seq<u8>, i32>,
)
    ensures
        tokens_of(Seq::<Seq<u8>>::empty(), ids) == Seq::<i32>::empty(),
        ids.dom().contains(sym) ==> tokens_of(front.push(sym), ids) == tokens_of(front, ids).push(
            ids[sym],
        ),
        !ids.dom().contains(encoded(bytes)) ==> tokens_of(front.push(encoded(bytes)), ids)
            == tokens_of(front, ids) + byte_tokens(bytes, ids),
        byte_tokens(Seq::<u8>::empty(), ids) == Seq::<i32>::empty(),
        ids.dom().contains(symbol_of(b)) ==> byte_tokens(bytes.push(b), ids) == byte_tokens(
            bytes,
            ids,
        ).push(ids[symbol_of(b)]),
        !ids.dom().contains(symbol_of(b)) ==> byte_tokens(bytes.push(b), ids) == byte_tokens(
            bytes,
            ids,
        ),
{
    assert(front.push(sym).drop_last() =~= front);
    assert(front.push(encoded(bytes)).drop_last() =~= front);
    assert(bytes.push(b).drop_last() =~= bytes);
    assert(tokens_of(front, ids) + seq![ids[sym]] =~= tokens_of(front, ids).push(ids[sym]));
    lemma_encoded_injective(bytes, decoded(encoded(bytes)));
}

/// A piece starts as one symbol for each of its bytes: the byte's code point in
/// UTF-8.
pub proof fn lemma_piece_symbols(raw: Seq<u8>, i: int)
    requires
        0 <= i < raw.len(),
    ensures
        symbols(raw).len() == raw.len(),
        symbols(raw)[i] == symbol_of(raw[i]),
{
}

} // verus!
