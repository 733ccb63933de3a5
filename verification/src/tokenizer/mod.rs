//! BPE tokenizer.
//!
//! * [`byte_map`]: GPT-2 byte to code point mapping
//! * [`pretok`]: pre-tokenizer (letters, digits, white space, CJK)
//! * [`bpe`]: greedy merge engine on byte-encoded pieces
//! * [`maps`]: the lookup tables
//! * [`load`]: the tokenizer of a model file

pub mod bpe;
pub mod byte_map;
pub mod load;
pub mod maps;
pub mod pretok;

use self::bpe::{
    agrees, knows_bytes, lemma_joined_concat, lemma_joined_one, lemma_piece_round_trip,
    piece_tokens, texts, views, Bpe,
};
use self::byte_map::{encoded, lemma_encoded_concat, utf8_len_from_first_byte, utf8_width};
use self::maps::{
    merge_ranks, merges_new, special_at, special_entries, special_len, special_new, vocab_ids,
    vocab_new,
};
use self::pretok::{
    breaks, joined, lemma_spans_join, lemma_spans_split, lemma_width_fits, spans, split_spans,
};
use crate::api::Tokens;
use crate::bytes::{is_at, stands_at};
use ahash::AHashMap;
use indexmap::IndexMap;
use vstd::prelude::*;
use vstd::slice::slice_subrange;
use vstd::string::*;
use vstd::utf8::{encode_utf8, valid_utf8};

verus! {

/// Vocabulary, merges and special tokens of a model.
#[derive(Debug)]
pub struct Tokenizer {
    /// Token id to byte-encoded form.
    pub vocab: Vec<Vec<u8>>,
    /// Byte-encoded form to token id.
    pub vocab_by_bytes: AHashMap<Vec<u8>, i32>,
    /// Special token name to token id, in order of precedence.
    pub special: IndexMap<String, i32>,
    /// Pair of symbols to merge rank.
    pub merges: AHashMap<(Vec<u8>, Vec<u8>), i32>,
    pub bos: i32,
    pub eos: i32,
    pub im_start: i32,
    pub im_end: i32,
    pub user_role: i32,
    pub assistant_role: i32,
    pub system_role: i32,
    pub think_start: i32,
    pub think_end: i32,
}

/// The ids of some pieces of text, one piece after the other.
pub open spec fn pieces_tokens(
    pieces: Seq<Seq<u8>>,
    ranks: Map<(Seq<u8>, Seq<u8>), i32>,
    ids: Map<Seq<u8>, i32>,
) -> Seq<i32>
    decreases pieces.len(),
{
    if pieces.len() == 0 {
        seq![]
    } else {
        pieces_tokens(pieces.drop_last(), ranks, ids) + piece_tokens(pieces.last(), ranks, ids)
    }
}

/// The first entry, from index `from` on, whose name stands at `pos`.
pub open spec fn special_match(
    entries: Seq<(Seq<char>, i32)>,
    from: int,
    bytes: Seq<u8>,
    pos: int,
) -> Option<int>
    decreases entries.len() - from,
{
    if from < 0 || from >= entries.len() {
        None
    } else if is_at(bytes, pos, encode_utf8(entries[from].0)) {
        Some(from)
    } else {
        special_match(entries, from + 1, bytes, pos)
    }
}

/// The first position, from `p` on and going on character by character, where a
/// special token's name stands; the end of the text where there is none.
pub open spec fn next_special(entries: Seq<(Seq<char>, i32)>, bytes: Seq<u8>, p: int) -> int
    decreases bytes.len() - p,
{
    if p < 0 || p >= bytes.len() {
        bytes.len() as int
    } else if special_match(entries, 0, bytes, p) is Some {
        p
    } else if p + utf8_width(bytes[p]) >= bytes.len() {
        bytes.len() as int
    } else {
        next_special(entries, bytes, p + utf8_width(bytes[p]))
    }
}

impl Tokenizer {
    pub open spec fn ranks(&self) -> Map<(Seq<u8>, Seq<u8>), i32> {
        merge_ranks(self.merges)
    }

    pub open spec fn ids(&self) -> Map<Seq<u8>, i32> {
        vocab_ids(self.vocab_by_bytes)
    }

    /// The special tokens, in order of precedence.
    pub open spec fn specials(&self) -> Seq<(Seq<char>, i32)> {
        special_entries(self.special)
    }

    /// The ids of a run of text that holds no special token.
    pub open spec fn run_tokens(&self, bytes: Seq<u8>) -> Seq<i32> {
        pieces_tokens(spans(bytes, 0), self.ranks(), self.ids())
    }

    /// The ids of plain text; none without a vocabulary.
    pub open spec fn plain_tokens(&self, bytes: Seq<u8>) -> Seq<i32> {
        if self.vocab@.len() == 0 {
            seq![]
        } else {
            self.run_tokens(bytes)
        }
    }

    /// The ids of rendered chat text from `pos` on: where a special token's name
    /// stands, its id; else the ids of the run up to the next such name.
    pub open spec fn rendered_tokens(&self, bytes: Seq<u8>, pos: int) -> Seq<i32>
        decreases bytes.len() - pos,
    {
        let entries = self.specials();
        if pos < 0 || pos >= bytes.len() {
            seq![]
        } else {
            match special_match(entries, 0, bytes, pos) {
                Some(i) => {
                    let width = encode_utf8(entries[i].0).len() as int;
                    if 0 < width <= bytes.len() - pos {
                        seq![entries[i].1] + self.rendered_tokens(bytes, pos + width)
                    } else {
                        seq![]
                    }
                },
                None => {
                    let next = next_special(entries, bytes, pos + 1);
                    if pos < next <= bytes.len() {
                        self.run_tokens(bytes.subrange(pos, next)) + self.rendered_tokens(
                            bytes,
                            next,
                        )
                    } else {
                        seq![]
                    }
                },
            }
        }
    }

    /// The ids of rendered chat text; without special tokens it is plain text.
    pub open spec fn chat_tokens(&self, bytes: Seq<u8>) -> Seq<i32> {
        if self.specials().len() == 0 {
            self.plain_tokens(bytes)
        } else {
            self.rendered_tokens(bytes, 0)
        }
    }

    /// No special token has an empty name.
    pub open spec fn specials_named(&self) -> bool {
        forall|i: int|
            0 <= i < self.specials().len() ==> (#[trigger] self.specials()[i]).0.len() > 0
    }

    /// Encode plain text: pre-tokenize, byte-encode, merge, look up.
    pub fn encode(&self, text: &str, out: &mut Tokens)
        ensures
            final(out)@ == old(out)@ + self.plain_tokens(encode_utf8(text@)),
    {
        if self.vocab.len() == 0 {
            assert(out@ =~= old(out)@ + self.plain_tokens(encode_utf8(text@)));
            return;
        }
        self.encode_run(text.as_bytes(), out);
    }

    /// Encode a run of bytes that holds no special token.
    fn encode_run(&self, run: &[u8], out: &mut Tokens)
        ensures
            final(out)@ == old(out)@ + self.run_tokens(run@),
    {
        let bpe: Bpe = Bpe { merges: &self.merges, vocab: &self.vocab_by_bytes };
        let mut buf: Vec<i32> = Vec::new();
        let pieces: Vec<&[u8]> = split_spans(run);
        let ghost ps = spans(run@, 0);
        let ghost seen = pieces@.map_values(|p: &[u8]| p@);
        assert forall|j: int| 0 <= j < ps.len() implies ps[j] == #[trigger] pieces@[j]@ by {
            assert(seen[j] == pieces@[j]@);
        }
        let mut i: usize = 0;
        while i < pieces.len()
            invariant
                i <= pieces.len(),
                pieces.len() == ps.len(),
                forall|j: int| 0 <= j < ps.len() ==> ps[j] == #[trigger] pieces@[j]@,
                *bpe.merges == self.merges,
                *bpe.vocab == self.vocab_by_bytes,
                buf@ == pieces_tokens(ps.take(i as int), self.ranks(), self.ids()),
            decreases pieces.len() - i,
        {
            bpe.emit_piece(pieces[i], &mut buf);
            i = i + 1;
            assert(ps.take(i as int).drop_last() =~= ps.take(i - 1));
        }
        assert(ps.take(i as int) =~= ps);
        out.extend(buf.as_slice());
    }

    /// Encode an already-rendered chat string: split it on special tokens and
    /// encode the runs between them.
    pub fn encode_rendered_chat(&self, text: &str, out: &mut Tokens)
        requires
            text@.len() > 0 ==> self.specials_named(),
        ensures
            final(out)@ == old(out)@ + self.chat_tokens(encode_utf8(text@)),
    {
        if special_len(&self.special) == 0 {
            self.encode(text, out);
            return;
        }
        let bytes: &[u8] = text.as_bytes();
        let ghost entries = self.specials();
        let mut pos: usize = 0;
        assert(out@ + self.rendered_tokens(bytes@, 0) == old(out)@ + self.rendered_tokens(
            bytes@,
            0,
        ));
        while pos < bytes.len()
            invariant
                pos <= bytes.len(),
                bytes@ == encode_utf8(text@),
                text@.len() > 0 ==> self.specials_named(),
                entries == self.specials(),
                out@ + self.rendered_tokens(bytes@, pos as int) == old(out)@ + self.rendered_tokens(
                    bytes@,
                    0,
                ),
            decreases bytes.len() - pos,
        {
            let ghost before = out@;
            let ghost rest = self.rendered_tokens(bytes@, pos as int);
            match self.match_special(bytes, pos) {
                Some((skip, id)) => {
                    out.push(id);
                    assert(before.push(id) + self.rendered_tokens(bytes@, pos + skip) =~= before
                        + rest);
                    pos = pos + skip;
                },
                None => {
                    let next: usize = self.next_special_pos(bytes, pos + 1);
                    let run: &[u8] = slice_subrange(bytes, pos, next);
                    self.encode_run(run, out);
                    assert(before + self.run_tokens(run@) + self.rendered_tokens(
                        bytes@,
                        next as int,
                    ) =~= before + rest);
                    pos = next;
                },
            }
        }
        assert(out@ =~= out@ + self.rendered_tokens(bytes@, pos as int));
    }

    /// The first special token whose name stands at `pos`: the length of the
    /// name in bytes, and the id.
    fn match_special(&self, bytes: &[u8], pos: usize) -> (r: Option<(usize, i32)>)
        requires
            pos < bytes.len(),
        ensures
            match special_match(self.specials(), 0, bytes@, pos as int) {
                Some(i) => r == Some(
                    (encode_utf8(self.specials()[i].0).len() as usize, self.specials()[i].1),
                ) && 0 <= i < self.specials().len() && pos + encode_utf8(self.specials()[i].0).len()
                    <= bytes.len(),
                None => r is None,
            },
    {
        let n: usize = special_len(&self.special);
        let mut i: usize = 0;
        while i < n
            invariant
                i <= n == self.specials().len(),
                pos < bytes.len(),
                special_match(self.specials(), 0, bytes@, pos as int) == special_match(
                    self.specials(),
                    i as int,
                    bytes@,
                    pos as int,
                ),
            decreases n - i,
        {
            if let Some((name, id)) = special_at(&self.special, i) {
                let name_bytes: &[u8] = name.as_str().as_bytes();
                if stands_at(bytes, pos, name_bytes) {
                    return Some((name_bytes.len(), *id));
                }
            }
            i = i + 1;
        }
        None
    }

    /// The first position from `start` on where a special token stands.
    fn next_special_pos(&self, bytes: &[u8], start: usize) -> (next: usize)
        requires
            start <= bytes.len(),
        ensures
            next == next_special(self.specials(), bytes@, start as int),
            start <= next <= bytes.len(),
    {
        let mut p: usize = start;
        while p < bytes.len()
            invariant
                start <= p <= bytes.len(),
                next_special(self.specials(), bytes@, start as int) == next_special(
                    self.specials(),
                    bytes@,
                    p as int,
                ),
            decreases bytes.len() - p,
        {
            if self.match_special(bytes, p).is_some() {
                return p;
            }
            let width: usize = utf8_len_from_first_byte(bytes[p]);
            if width >= bytes.len() - p {
                return bytes.len();
            }
            p = p + width;
        }
        bytes.len()
    }

    /// The byte-encoded form of a token.
    pub fn token_text(&self, id: i32) -> (r: Option<&[u8]>)
        ensures
            match r {
                Some(s) => 0 <= id < self.vocab@.len() && s@ == self.vocab@[id as int]@,
                None => !(0 <= id < self.vocab@.len()),
            },
    {
        if id < 0 || id as usize >= self.vocab.len() {
            return None;
        }
        Some(self.vocab[id as usize].as_slice())
    }

    pub fn eos_id(&self) -> (id: i32)
        ensures
            id == self.eos,
    {
        self.eos
    }
}

impl Default for Tokenizer {
    /// A tokenizer without vocabulary, with all ids zero.
    fn default() -> (t: Self)
        ensures
            t.vocab@.len() == 0,
            t.ids() == Map::<Seq<u8>, i32>::empty(),
            t.ranks() == Map::<(Seq<u8>, Seq<u8>), i32>::empty(),
            t.specials().len() == 0,
            t.bos == 0 && t.eos == 0 && t.im_start == 0 && t.im_end == 0,
            t.user_role == 0 && t.assistant_role == 0 && t.system_role == 0,
            t.think_start == 0 && t.think_end == 0,
    {
        Tokenizer {
            vocab: Vec::new(),
            vocab_by_bytes: vocab_new(),
            special: special_new(),
            merges: merges_new(),
            bos: 0,
            eos: 0,
            im_start: 0,
            im_end: 0,
            user_role: 0,
            assistant_role: 0,
            system_role: 0,
            think_start: 0,
            think_end: 0,
        }
    }
}

proof fn lemma_pieces_round_trip(
    pieces: Seq<Seq<u8>>,
    ranks: Map<(Seq<u8>, Seq<u8>), i32>,
    ids: Map<Seq<u8>, i32>,
    vocab: Seq<Seq<u8>>,
)
    requires
        knows_bytes(ids),
        agrees(vocab, ids),
    ensures
        joined(texts(vocab, pieces_tokens(pieces, ranks, ids))) == encoded(joined(pieces)),
    decreases pieces.len(),
{
    if pieces.len() == 0 {
        assert(texts(vocab, pieces_tokens(pieces, ranks, ids)) =~= Seq::<Seq<u8>>::empty());
    } else {
        let front = pieces.drop_last();
        let last = pieces.last();
        lemma_pieces_round_trip(front, ranks, ids, vocab);
        lemma_piece_round_trip(last, ranks, ids, vocab);
        let a = pieces_tokens(front, ranks, ids);
        let b = piece_tokens(last, ranks, ids);
        assert(texts(vocab, a + b) =~= texts(vocab, a) + texts(vocab, b));
        lemma_joined_concat(texts(vocab, a), texts(vocab, b));
        assert(pieces =~= front + seq![last]);
        lemma_joined_concat(front, seq![last]);
        lemma_joined_one(last);
        lemma_encoded_concat(joined(front), last);
    }
}

/// With a vocabulary that knows every byte's symbol, encoding plain text loses
/// nothing: the texts of the tokens, joined, are the byte-encoded form of the text.
pub proof fn lemma_encode_round_trip(t: &Tokenizer, bytes: Seq<u8>)
    requires
        knows_bytes(t.ids()),
        agrees(views(t.vocab@), t.ids()),
    ensures
        joined(texts(views(t.vocab@), t.plain_tokens(bytes))) == encoded(bytes),
{
    assert(t.ids().dom().contains(byte_map::symbol_of(0)));
    lemma_pieces_round_trip(spans(bytes, 0), t.ranks(), t.ids(), views(t.vocab@));
    lemma_spans_join(bytes, 0);
    assert(bytes.skip(0) =~= bytes);
}

/// Two texts with the same tokens are the same text, for such a vocabulary.
pub proof fn lemma_encode_injective(t: &Tokenizer, a: Seq<u8>, b: Seq<u8>)
    requires
        knows_bytes(t.ids()),
        agrees(views(t.vocab@), t.ids()),
        t.plain_tokens(a) == t.plain_tokens(b),
    ensures
        a == b,
{
    lemma_encode_round_trip(t, a);
    lemma_encode_round_trip(t, b);
    byte_map::lemma_encoded_injective(a, b);
}

proof fn lemma_next_special_absent(entries: Seq<(Seq<char>, i32)>, bytes: Seq<u8>, p: int)
    requires
        forall|q: int| 0 <= q < bytes.len() ==> special_match(entries, 0, bytes, q) is None,
    ensures
        next_special(entries, bytes, p) == bytes.len(),
    decreases bytes.len() - p,
{
    if 0 <= p < bytes.len() && p + utf8_width(bytes[p]) < bytes.len() {
        lemma_next_special_absent(entries, bytes, p + utf8_width(bytes[p]));
    }
}

/// Rendered text in which no special token's name occurs is plain text.
pub proof fn lemma_rendered_plain(t: &Tokenizer, bytes: Seq<u8>)
    requires
        t.vocab@.len() > 0,
        forall|q: int|
            0 <= q < bytes.len() ==> special_match(t.specials(), 0, bytes, q) is None,
    ensures
        t.chat_tokens(bytes) == t.plain_tokens(bytes),
{
    if t.specials().len() > 0 {
        if bytes.len() > 0 {
            lemma_next_special_absent(t.specials(), bytes, 1);
            assert(bytes.subrange(0, bytes.len() as int) =~= bytes);
            assert(t.rendered_tokens(bytes, bytes.len() as int) =~= Seq::<i32>::empty());
            assert(t.rendered_tokens(bytes, 0) =~= t.run_tokens(bytes));
        } else {
            assert(spans(bytes, 0) =~= Seq::<Seq<u8>>::empty());
        }
    }
}

/// A special token's name that stands at the start of rendered text is one
/// token, whatever follows.
pub proof fn lemma_rendered_special(t: &Tokenizer, bytes: Seq<u8>, i: int)
    requires
        special_match(t.specials(), 0, bytes, 0) == Some(i),
        0 <= i < t.specials().len(),
        t.specials_named(),
    ensures
        t.chat_tokens(bytes) == seq![t.specials()[i].1] + t.rendered_tokens(
            bytes,
            encode_utf8(t.specials()[i].0).len() as int,
        ),
{
    let name = t.specials()[i].0;
    lemma_special_match_stands(t.specials(), 0, bytes, 0);
    assert(encode_utf8(name).len() > 0) by {
        vstd::utf8::encode_utf8_first_scalar(name);
    }
}

proof fn lemma_special_match_stands(
    entries: Seq<(Seq<char>, i32)>,
    from: int,
    bytes: Seq<u8>,
    pos: int,
)
    ensures
        match special_match(entries, from, bytes, pos) {
            Some(i) => 0 <= i < entries.len() && is_at(bytes, pos, encode_utf8(entries[i].0)),
            None => true,
        },
    decreases entries.len() - from,
{
    if 0 <= from < entries.len() {
        lemma_special_match_stands(entries, from + 1, bytes, pos);
    }
}

/// Whether a name stands at a position depends on the text from there on only.
proof fn lemma_special_match_behind(
    entries: Seq<(Seq<char>, i32)>,
    from: int,
    head: Seq<u8>,
    b: Seq<u8>,
    q: int,
)
    requires
        0 <= q,
    ensures
        special_match(entries, from, head + b, head.len() + q) == special_match(
            entries,
            from,
            b,
            q,
        ),
    decreases entries.len() - from,
{
    if 0 <= from < entries.len() {
        let name = encode_utf8(entries[from].0);
        let whole = head + b;
        let at = head.len() + q;
        if at + name.len() <= whole.len() {
            assert(whole.subrange(at, at + name.len()) =~= b.subrange(q, q + name.len()));
        }
        lemma_special_match_behind(entries, from + 1, head, b, q);
    }
}

proof fn lemma_next_special_behind(
    entries: Seq<(Seq<char>, i32)>,
    head: Seq<u8>,
    b: Seq<u8>,
    q: int,
)
    requires
        0 <= q,
    ensures
        next_special(entries, head + b, head.len() + q) == head.len() + next_special(
            entries,
            b,
            q,
        ),
    decreases b.len() - q,
{
    if q < b.len() {
        lemma_special_match_behind(entries, 0, head, b, q);
        assert((head + b)[head.len() + q] == b[q]);
        if q + utf8_width(b[q]) < b.len() {
            lemma_next_special_behind(entries, head, b, q + utf8_width(b[q]));
        }
    }
}

proof fn lemma_rendered_behind(t: &Tokenizer, head: Seq<u8>, b: Seq<u8>, q: int)
    requires
        0 <= q,
    ensures
        t.rendered_tokens(head + b, head.len() + q) == t.rendered_tokens(b, q),
    decreases b.len() - q,
{
    let entries = t.specials();
    let whole = head + b;
    let at = head.len() + q;
    if q < b.len() {
        lemma_special_match_behind(entries, 0, head, b, q);
        match special_match(entries, 0, b, q) {
            Some(i) => {
                let width = encode_utf8(entries[i].0).len() as int;
                if 0 < width <= b.len() - q {
                    lemma_rendered_behind(t, head, b, q + width);
                }
            },
            None => {
                lemma_next_special_behind(entries, head, b, q + 1);
                let next = next_special(entries, b, q + 1);
                if q < next <= b.len() {
                    lemma_rendered_behind(t, head, b, next);
                    assert(whole.subrange(at, head.len() + next) =~= b.subrange(q, next));
                }
            },
        }
    }
}

/// The names that stand in `a` are those that stand there in the text `whole`,
/// which goes on with another name.
spec fn ends_before_name(entries: Seq<(Seq<char>, i32)>, a: Seq<u8>, whole: Seq<u8>) -> bool {
    &&& valid_utf8(a)
    &&& a.len() < whole.len()
    &&& whole.take(a.len() as int) == a
    &&& special_match(entries, 0, whole, a.len() as int) is Some
    &&& forall|q: int|
        0 <= q < a.len() ==> #[trigger] special_match(entries, 0, whole, q) == special_match(
            entries,
            0,
            a,
            q,
        )
}

proof fn lemma_next_special_before(
    entries: Seq<(Seq<char>, i32)>,
    a: Seq<u8>,
    whole: Seq<u8>,
    p: int,
)
    requires
        ends_before_name(entries, a, whole),
        0 <= p <= a.len(),
    ensures
        next_special(entries, whole, p) == next_special(entries, a, p),
    decreases a.len() - p,
{
    if p < a.len() {
        assert(whole.take(a.len() as int)[p] == whole[p]);
        lemma_width_fits(a, p);
        assert(special_match(entries, 0, whole, p) == special_match(entries, 0, a, p));
        lemma_next_special_before(entries, a, whole, p + utf8_width(a[p]));
    }
}

proof fn lemma_rendered_before(t: &Tokenizer, a: Seq<u8>, whole: Seq<u8>, pos: int)
    requires
        t.specials_named(),
        ends_before_name(t.specials(), a, whole),
        0 <= pos <= a.len(),
    ensures
        t.rendered_tokens(whole, pos) == t.rendered_tokens(a, pos) + t.rendered_tokens(
            whole,
            a.len() as int,
        ),
    decreases a.len() - pos,
{
    let entries = t.specials();
    let rest = t.rendered_tokens(whole, a.len() as int);
    if pos == a.len() {
        assert(t.rendered_tokens(a, pos) + rest =~= rest);
    } else {
        assert(special_match(entries, 0, whole, pos) == special_match(entries, 0, a, pos));
        match special_match(entries, 0, a, pos) {
            Some(i) => {
                lemma_special_match_stands(entries, 0, a, pos);
                let width = encode_utf8(entries[i].0).len() as int;
                assert(width > 0) by {
                    vstd::utf8::encode_utf8_first_scalar(entries[i].0);
                }
                lemma_rendered_before(t, a, whole, pos + width);
                assert(t.rendered_tokens(whole, pos) =~= t.rendered_tokens(a, pos) + rest);
            },
            None => {
                lemma_next_special_before(entries, a, whole, pos + 1);
                let next = next_special(entries, a, pos + 1);
                lemma_next_special_bounds(entries, a, pos + 1);
                lemma_rendered_before(t, a, whole, next);
                assert(whole.subrange(pos, next) =~= a.subrange(pos, next)) by {
                    assert(whole.take(a.len() as int).subrange(pos, next) =~= whole.subrange(
                        pos,
                        next,
                    ));
                }
                assert(t.rendered_tokens(whole, pos) =~= t.rendered_tokens(a, pos) + rest);
            },
        }
    }
}

proof fn lemma_next_special_bounds(entries: Seq<(Seq<char>, i32)>, bytes: Seq<u8>, p: int)
    requires
        0 <= p <= bytes.len(),
    ensures
        p <= next_special(entries, bytes, p) <= bytes.len(),
    decreases bytes.len() - p,
{
    if p < bytes.len() && p + utf8_width(bytes[p]) < bytes.len() {
        lemma_next_special_bounds(entries, bytes, p + utf8_width(bytes[p]));
    }
}

/// A special token's name between two texts is one token between their
/// encodings, where the name is the one that is found there and no name starts
/// in the first text only because of what follows it.
pub proof fn lemma_special_between(t: &Tokenizer, a: Seq<u8>, i: int, b: Seq<u8>)
    requires
        t.specials_named(),
        0 <= i < t.specials().len(),
        valid_utf8(a),
        ({
            let whole = a + encode_utf8(t.specials()[i].0) + b;
            &&& special_match(t.specials(), 0, whole, a.len() as int) == Some(i)
            &&& forall|q: int|
                0 <= q < a.len() ==> #[trigger] special_match(t.specials(), 0, whole, q)
                    == special_match(t.specials(), 0, a, q)
        }),
    ensures
        t.chat_tokens(a + encode_utf8(t.specials()[i].0) + b) == t.chat_tokens(a)
            + seq![t.specials()[i].1] + t.chat_tokens(b),
{
    let name = encode_utf8(t.specials()[i].0);
    let whole = a + name + b;
    assert(name.len() > 0) by {
        vstd::utf8::encode_utf8_first_scalar(t.specials()[i].0);
    }
    assert(whole.take(a.len() as int) =~= a);
    lemma_rendered_before(t, a, whole, 0);
    lemma_rendered_behind(t, a + name, b, 0);
    assert(t.rendered_tokens(whole, a.len() as int) == seq![t.specials()[i].1]
        + t.rendered_tokens(b, 0));
    assert(t.rendered_tokens(whole, 0) =~= t.rendered_tokens(a, 0) + seq![t.specials()[i].1]
        + t.rendered_tokens(b, 0));
}

proof fn lemma_pieces_concat(
    a: Seq<Seq<u8>>,
    b: Seq<Seq<u8>>,
    ranks: Map<(Seq<u8>, Seq<u8>), i32>,
    ids: Map<Seq<u8>, i32>,
)
    ensures
        pieces_tokens(a + b, ranks, ids) == pieces_tokens(a, ranks, ids) + pieces_tokens(
            b,
            ranks,
            ids,
        ),
    decreases b.len(),
{
    if b.len() == 0 {
        assert(a + b =~= a);
        assert(pieces_tokens(a, ranks, ids) + pieces_tokens(b, ranks, ids) =~= pieces_tokens(
            a,
            ranks,
            ids,
        ));
    } else {
        lemma_pieces_concat(a, b.drop_last(), ranks, ids);
        assert((a + b).drop_last() =~= a + b.drop_last());
        let last = piece_tokens(b.last(), ranks, ids);
        assert(pieces_tokens(a, ranks, ids) + pieces_tokens(b.drop_last(), ranks, ids) + last
            =~= pieces_tokens(a, ranks, ids) + (pieces_tokens(b.drop_last(), ranks, ids) + last));
    }
}

/// Texts that meet where a span ends are encoded apart: the tokens of the whole are
/// those of the one text, then those of the other.
pub proof fn lemma_encode_split(t: &Tokenizer, a: Seq<u8>, b: Seq<u8>)
    requires
        valid_utf8(a),
        breaks(a, b),
    ensures
        t.plain_tokens(a + b) == t.plain_tokens(a) + t.plain_tokens(b),
{
    lemma_spans_split(a, b);
    lemma_pieces_concat(spans(a, 0), spans(b, 0), t.ranks(), t.ids());
    assert(Seq::<i32>::empty() + Seq::<i32>::empty() =~= Seq::<i32>::empty());
}

/// A text that is one span is one piece: its bytes' symbols are merged as far as they
/// go, and what is left is looked up.
pub proof fn lemma_encode_piece(t: &Tokenizer, piece: Seq<u8>)
    requires
        t.vocab@.len() > 0,
        spans(piece, 0) == seq![piece],
    ensures
        t.plain_tokens(piece) == bpe::tokens_of(
            bpe::merged(bpe::symbols(piece), t.ranks()),
            t.ids(),
        ),
{
    let one = seq![piece];
    reveal_with_fuel(pieces_tokens, 2);
    assert(one.drop_last() =~= Seq::<Seq<u8>>::empty());
    assert(t.plain_tokens(piece) =~= piece_tokens(piece, t.ranks(), t.ids()));
}

/// The special token that is found at a position is the first of the table whose
/// name stands there; none is found only where no name does.
pub proof fn lemma_special_found(
    entries: Seq<(Seq<char>, i32)>,
    from: int,
    bytes: Seq<u8>,
    pos: int,
)
    requires
        0 <= from,
        0 <= pos,
    ensures
        match special_match(entries, from, bytes, pos) {
            Some(i) => {
                let name = encode_utf8(entries[i].0);
                &&& from <= i < entries.len()
                &&& pos + name.len() <= bytes.len()
                &&& bytes.subrange(pos, pos + name.len()) == name
                &&& forall|j: int|
                    from <= j < i ==> !stands(bytes, pos, encode_utf8((#[trigger] entries[j]).0))
            },
            None => forall|j: int|
                from <= j < entries.len() ==> !stands(
                    bytes,
                    pos,
                    encode_utf8((#[trigger] entries[j]).0),
                ),
        },
    decreases entries.len() - from,
{
    if from < entries.len() {
        lemma_special_found(entries, from + 1, bytes, pos);
    }
}

/// A name stands in a text at a position.
pub open spec fn stands(bytes: Seq<u8>, pos: int, name: Seq<u8>) -> bool {
    pos + name.len() <= bytes.len() && bytes.subrange(pos, pos + name.len()) == name
}

/// Only text that has special tokens is split on them; rendered text goes through the
/// same encoding as plain text otherwise.
pub proof fn lemma_rendered_without_specials(t: &Tokenizer, bytes: Seq<u8>)
    requires
        t.specials().len() == 0,
    ensures
        t.chat_tokens(bytes) == t.plain_tokens(bytes),
{
}

} // verus!
