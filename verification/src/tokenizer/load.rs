//! The tokenizer of a model file.

use super::bpe::{agrees, views};
use super::maps::{
    entry_index, merges_insert, merges_new, special_entries, special_insert, special_new,
    vocab_get, vocab_insert, vocab_new,
};
use super::Tokenizer;
use crate::bytes::{to_signed_32, wrap_to_i32, wrapped_i32};
use crate::gguf::format::Node;
use crate::gguf::{meta_number, nodes, Gguf, Value};
use ahash::AHashMap;
use indexmap::IndexMap;
use vstd::prelude::*;
use vstd::slice::{slice_subrange, slice_to_vec};
use vstd::string::*;
use vstd::utf8::encode_utf8;

verus! {

/// The list under `key`, if there is one.
pub open spec fn meta_list(meta: Map<Seq<char>, Node>, key: Seq<char>) -> Option<Seq<Node>> {
    if meta.dom().contains(key) {
        match meta[key] {
            Node::List(items) => Some(items),
            _ => None,
        }
    } else {
        None
    }
}

/// The byte-encoded form of a vocabulary entry; an entry that is no text is
/// empty.
pub open spec fn entry_bytes(n: Node) -> Seq<u8> {
    match n {
        Node::Text(s) => encode_utf8(s),
        _ => seq![],
    }
}

/// The vocabulary that a list holds.
pub open spec fn vocab_of(items: Seq<Node>) -> Seq<Seq<u8>> {
    items.map_values(|n: Node| entry_bytes(n))
}

/// The ids of the first `n` entries of a vocabulary: the position of each form,
/// the last one of a form that comes again.
pub open spec fn ids_of(vocab: Seq<Seq<u8>>, n: int) -> Map<Seq<u8>, i32>
    decreases n,
{
    if n <= 0 {
        Map::empty()
    } else {
        ids_of(vocab, n - 1).insert(vocab[n - 1], wrapped_i32(n - 1))
    }
}

/// The first space of `b` is at `i`.
pub open spec fn first_space(b: Seq<u8>, i: int) -> bool {
    0 <= i < b.len() && b[i] == 0x20 && forall|j: int| 0 <= j < i ==> b[j] != 0x20
}

/// The two sides of a merge: the text before its first space and that behind.
pub open spec fn merge_sides(b: Seq<u8>) -> Option<(Seq<u8>, Seq<u8>)> {
    if exists|i: int| first_space(b, i) {
        let i = choose|i: int| first_space(b, i);
        Some((b.take(i), b.skip(i + 1)))
    } else {
        None
    }
}

/// The merge that an entry of the list of merges stands for.
pub open spec fn merge_of(n: Node) -> Option<(Seq<u8>, Seq<u8>)> {
    match n {
        Node::Text(s) => merge_sides(encode_utf8(s)),
        _ => None,
    }
}

/// The ranks of the first `n` merges of a list: the position of each, the last
/// one of a merge that comes again. Entries that are no merge are passed over.
pub open spec fn ranks_of(items: Seq<Node>, n: int) -> Map<(Seq<u8>, Seq<u8>), i32>
    decreases n,
{
    if n <= 0 {
        Map::empty()
    } else {
        match merge_of(items[n - 1]) {
            Some(pair) => ranks_of(items, n - 1).insert(pair, wrapped_i32(n - 1)),
            None => ranks_of(items, n - 1),
        }
    }
}

/// The names of the special tokens, in order of precedence.
pub open spec fn special_name(k: int) -> Seq<char> {
    if k == 0 {
        "<\u{ff5c}begin\u{2581}of\u{2581}sentence\u{ff5c}>"@
    } else if k == 1 {
        "<\u{ff5c}end\u{2581}of\u{2581}sentence\u{ff5c}>"@
    } else if k == 2 {
        "<\u{ff5c}User\u{ff5c}>"@
    } else if k == 3 {
        "<\u{ff5c}Assistant\u{ff5c}>"@
    } else if k == 4 {
        "<think>"@
    } else if k == 5 {
        "</think>"@
    } else if k == 6 {
        "\u{ff5c}DSML\u{ff5c}"@
    } else if k == 7 {
        "<|im_start|>"@
    } else {
        "<|im_end|>"@
    }
}

fn name_of(k: usize) -> (s: &'static str)
    ensures
        s@ == special_name(k as int),
{
    match k {
        0 => "<\u{ff5c}begin\u{2581}of\u{2581}sentence\u{ff5c}>",
        1 => "<\u{ff5c}end\u{2581}of\u{2581}sentence\u{ff5c}>",
        2 => "<\u{ff5c}User\u{ff5c}>",
        3 => "<\u{ff5c}Assistant\u{ff5c}>",
        4 => "<think>",
        5 => "</think>",
        6 => "\u{ff5c}DSML\u{ff5c}",
        7 => "<|im_start|>",
        _ => "<|im_end|>",
    }
}

/// The id of a form, `-1` where it has none.
pub open spec fn id_of(ids: Map<Seq<u8>, i32>, name: Seq<char>) -> i32 {
    if ids.dom().contains(encode_utf8(name)) {
        ids[encode_utf8(name)]
    } else {
        -1i32
    }
}

/// The first `n` special tokens that the vocabulary has.
pub open spec fn specials_of(ids: Map<Seq<u8>, i32>, n: int) -> Seq<(Seq<char>, i32)>
    decreases n,
{
    if n <= 0 {
        seq![]
    } else if id_of(ids, special_name(n - 1)) >= 0 {
        specials_of(ids, n - 1).push((special_name(n - 1), id_of(ids, special_name(n - 1))))
    } else {
        specials_of(ids, n - 1)
    }
}

/// A token id of the metadata, `-1` where it is not there.
pub open spec fn meta_id(meta: Map<Seq<char>, Node>, key: Seq<char>) -> i32 {
    match meta_number(meta, key) {
        Some(v) => wrapped_i32(v as int),
        None => -1i32,
    }
}

/// The id of a special token, or else that of the metadata.
pub open spec fn id_or_meta(
    ids: Map<Seq<u8>, i32>,
    name: Seq<char>,
    meta: Map<Seq<char>, Node>,
    key: Seq<char>,
) -> i32 {
    if id_of(ids, name) >= 0 {
        id_of(ids, name)
    } else {
        meta_id(meta, key)
    }
}

/// The tokenizer is the one of the metadata, with the given list of tokens.
pub open spec fn is_loaded(t: &Tokenizer, meta: Map<Seq<char>, Node>, tokens: Seq<Node>) -> bool {
    let vocab = vocab_of(tokens);
    let ids = ids_of(vocab, vocab.len() as int);
    &&& views(t.vocab@) == vocab
    &&& t.ids() == ids
    &&& t.ranks() == match meta_list(meta, "tokenizer.ggml.merges"@) {
        Some(items) => ranks_of(items, items.len() as int),
        None => Map::empty(),
    }
    &&& t.specials() == specials_of(ids, 9)
    &&& t.bos == id_or_meta(ids, special_name(0), meta, "tokenizer.ggml.bos_token_id"@)
    &&& t.eos == id_or_meta(ids, special_name(1), meta, "tokenizer.ggml.eos_token_id"@)
    &&& t.user_role == id_of(ids, special_name(2))
    &&& t.assistant_role == id_of(ids, special_name(3))
    &&& t.think_start == id_of(ids, special_name(4))
    &&& t.think_end == id_of(ids, special_name(5))
    &&& t.im_start == id_of(ids, special_name(7))
    &&& t.im_end == id_of(ids, special_name(8))
    &&& t.system_role == -1
}

/// Build the tokenizer of a model file. Without a list of tokens there is none.
pub fn build_tokenizer(g: &Gguf) -> (r: Option<Tokenizer>)
    ensures
        match meta_list(nodes(g.metadata@), "tokenizer.ggml.tokens"@) {
            Some(tokens) => r is Some && is_loaded(&r->0, nodes(g.metadata@), tokens),
            None => r is None,
        },
{
    let ghost meta = nodes(g.metadata@);
    let vocab: Vec<Vec<u8>> = match g.metadata.get("tokenizer.ggml.tokens") {
        Some(Value::Array(items)) => read_vocab(items),
        _ => {
            return None;
        },
    };
    let by_bytes: AHashMap<Vec<u8>, i32> = index_vocab(&vocab);
    let merges: AHashMap<(Vec<u8>, Vec<u8>), i32> = match g.metadata.get("tokenizer.ggml.merges") {
        Some(Value::Array(items)) => read_merges(items),
        _ => merges_new(),
    };
    let special: IndexMap<String, i32> = find_specials(&by_bytes);
    let bos_named: i32 = lookup(&by_bytes, name_of(0));
    let eos_named: i32 = lookup(&by_bytes, name_of(1));
    let user_role: i32 = lookup(&by_bytes, name_of(2));
    let assistant_role: i32 = lookup(&by_bytes, name_of(3));
    let think_start: i32 = lookup(&by_bytes, name_of(4));
    let think_end: i32 = lookup(&by_bytes, name_of(5));
    let im_start: i32 = lookup(&by_bytes, name_of(7));
    let im_end: i32 = lookup(&by_bytes, name_of(8));
    let bos_meta: i32 = lookup_meta(g, "tokenizer.ggml.bos_token_id");
    let eos_meta: i32 = lookup_meta(g, "tokenizer.ggml.eos_token_id");
    Some(
        Tokenizer {
            vocab,
            vocab_by_bytes: by_bytes,
            special,
            merges,
            bos: if bos_named >= 0 {
                bos_named
            } else {
                bos_meta
            },
            eos: if eos_named >= 0 {
                eos_named
            } else {
                eos_meta
            },
            im_start,
            im_end,
            user_role,
            assistant_role,
            system_role: -1,
            think_start,
            think_end,
        },
    )
}

/// The meanings of some values.
pub open spec fn node_seq(items: Seq<Value>) -> Seq<Node> {
    Seq::new(items.len(), |i: int| items[i]@)
}

proof fn lemma_array_nodes(items: Vec<Value>)
    ensures
        Value::Array(items)@ == Node::List(node_seq(items@)),
{
    assert(Value::Array(items)@->List_0 =~= node_seq(items@));
}

fn read_vocab(items: &Vec<Value>) -> (vocab: Vec<Vec<u8>>)
    ensures
        Value::Array(*items)@ == Node::List(node_seq(items@)),
        views(vocab@) == vocab_of(node_seq(items@)),
{
    proof {
        lemma_array_nodes(*items);
    }
    let mut vocab: Vec<Vec<u8>> = Vec::new();
    let mut i: usize = 0;
    while i < items.len()
        invariant
            i <= items@.len(),
            vocab@.len() == i,
            forall|j: int| 0 <= j < i ==> (#[trigger] vocab@[j])@ == entry_bytes(items@[j]@),
        decreases items@.len() - i,
    {
        let bytes: Vec<u8> = match &items[i] {
            Value::String(s) => slice_to_vec(s.as_str().as_bytes()),
            _ => Vec::new(),
        };
        assert(bytes@ =~= entry_bytes(items@[i as int]@));
        vocab.push(bytes);
        i = i + 1;
    }
    assert(views(vocab@) =~= vocab_of(node_seq(items@)));
    vocab
}

fn index_vocab(vocab: &Vec<Vec<u8>>) -> (m: AHashMap<Vec<u8>, i32>)
    ensures
        super::maps::vocab_ids(m) == ids_of(views(vocab@), vocab@.len() as int),
{
    let mut m: AHashMap<Vec<u8>, i32> = vocab_new();
    let mut i: usize = 0;
    while i < vocab.len()
        invariant
            i <= vocab@.len(),
            super::maps::vocab_ids(m) == ids_of(views(vocab@), i as int),
        decreases vocab@.len() - i,
    {
        vocab_insert(&mut m, slice_to_vec(vocab[i].as_slice()), wrap_to_i32(i));
        i = i + 1;
    }
    m
}

/// Split a merge at its first space.
fn split_merge(b: &[u8]) -> (r: Option<(Vec<u8>, Vec<u8>)>)
    ensures
        match r {
            Some((left, right)) => merge_sides(b@) == Some((left@, right@)),
            None => merge_sides(b@) is None,
        },
{
    let mut i: usize = 0;
    while i < b.len()
        invariant
            i <= b@.len(),
            forall|j: int| 0 <= j < i ==> b@[j] != 0x20,
        decreases b@.len() - i,
    {
        if b[i] == 0x20 {
            let left: Vec<u8> = slice_to_vec(slice_subrange(b, 0, i));
            let right: Vec<u8> = slice_to_vec(slice_subrange(b, i + 1, b.len()));
            proof {
                assert(first_space(b@, i as int));
                let k = choose|k: int| first_space(b@, k);
                assert(k == i) by {
                    if k < i {
                        assert(b@[k] != 0x20);
                    } else if i < k {
                        assert(b@[i as int] != 0x20);
                    }
                }
                assert(left@ =~= b@.take(i as int));
                assert(right@ =~= b@.skip(i + 1));
            }
            return Some((left, right));
        }
        i = i + 1;
    }
    None
}

fn read_merges(items: &Vec<Value>) -> (m: AHashMap<(Vec<u8>, Vec<u8>), i32>)
    ensures
        Value::Array(*items)@ == Node::List(node_seq(items@)),
        super::maps::merge_ranks(m) == ranks_of(node_seq(items@), items@.len() as int),
{
    proof {
        lemma_array_nodes(*items);
    }
    let mut m: AHashMap<(Vec<u8>, Vec<u8>), i32> = merges_new();
    let mut rank: usize = 0;
    while rank < items.len()
        invariant
            rank <= items@.len(),
            super::maps::merge_ranks(m) == ranks_of(node_seq(items@), rank as int),
        decreases items@.len() - rank,
    {
        assert(node_seq(items@)[rank as int] == items@[rank as int]@);
        if let Value::String(s) = &items[rank] {
            if let Some((left, right)) = split_merge(s.as_str().as_bytes()) {
                merges_insert(&mut m, left, right, wrap_to_i32(rank));
            }
        }
        rank = rank + 1;
    }
    m
}

/// The id of a form, `-1` where it has none.
fn lookup(m: &AHashMap<Vec<u8>, i32>, name: &str) -> (id: i32)
    ensures
        id == id_of(super::maps::vocab_ids(*m), name@),
{
    match vocab_get(m, name.as_bytes()) {
        Some(id) => id,
        None => -1,
    }
}

fn lookup_meta(g: &Gguf, key: &str) -> (id: i32)
    ensures
        id == meta_id(nodes(g.metadata@), key@),
{
    match g.meta_u32(key) {
        Some(v) => to_signed_32(v),
        None => -1,
    }
}

fn find_specials(m: &AHashMap<Vec<u8>, i32>) -> (special: IndexMap<String, i32>)
    ensures
        special_entries(special) == specials_of(super::maps::vocab_ids(*m), 9),
{
    let ghost ids = super::maps::vocab_ids(*m);
    let mut special: IndexMap<String, i32> = special_new();
    let mut k: usize = 0;
    assert(special_entries(special) =~= specials_of(ids, 0));
    while k < 9
        invariant
            k <= 9,
            ids == super::maps::vocab_ids(*m),
            special_entries(special) == specials_of(ids, k as int),
        decreases 9 - k,
    {
        let name: &str = name_of(k);
        let id: i32 = lookup(m, name);
        if id >= 0 {
            proof {
                lemma_special_new(ids, k as int);
            }
            special_insert(&mut special, name.to_owned(), id);
        }
        k = k + 1;
    }
    special
}

/// A special token's name differs from all those before it.
proof fn lemma_special_names_distinct(a: int, b: int)
    requires
        0 <= a < b < 9,
    ensures
        special_name(a) != special_name(b),
{
    reveal_strlit("<\u{ff5c}begin\u{2581}of\u{2581}sentence\u{ff5c}>");
    reveal_strlit("<\u{ff5c}end\u{2581}of\u{2581}sentence\u{ff5c}>");
    reveal_strlit("<\u{ff5c}User\u{ff5c}>");
    reveal_strlit("<\u{ff5c}Assistant\u{ff5c}>");
    reveal_strlit("<think>");
    reveal_strlit("</think>");
    reveal_strlit("\u{ff5c}DSML\u{ff5c}");
    reveal_strlit("<|im_start|>");
    reveal_strlit("<|im_end|>");
    assert(special_name(0).len() == 21);
    assert(special_name(1).len() == 19);
    assert(special_name(2).len() == 8 && special_name(2)[1] == '\u{ff5c}');
    assert(special_name(3).len() == 13);
    assert(special_name(4).len() == 7);
    assert(special_name(5).len() == 8 && special_name(5)[1] == '/');
    assert(special_name(6).len() == 6);
    assert(special_name(7).len() == 12);
    assert(special_name(8).len() == 10);
}

proof fn lemma_special_new(ids: Map<Seq<u8>, i32>, k: int)
    requires
        0 <= k < 9,
    ensures
        entry_index(specials_of(ids, k), special_name(k)) is None,
{
    lemma_specials_named_below(ids, k);
    let entries = specials_of(ids, k);
    if exists|i: int| 0 <= i < entries.len() && (#[trigger] entries[i]).0 == special_name(k) {
        let i = choose|i: int| 0 <= i < entries.len() && (#[trigger] entries[i]).0 == special_name(
            k,
        );
        let j = choose|j: int| 0 <= j < k && entries[i].0 == #[trigger] special_name(j);
        lemma_special_names_distinct(j, k);
    }
}

proof fn lemma_specials_named_below(ids: Map<Seq<u8>, i32>, k: int)
    requires
        0 <= k <= 9,
    ensures
        forall|i: int|
            0 <= i < specials_of(ids, k).len() ==> exists|j: int|
                0 <= j < k && (#[trigger] specials_of(ids, k)[i]).0 == #[trigger] special_name(j),
    decreases k,
{
    if k > 0 {
        lemma_specials_named_below(ids, k - 1);
        let entries = specials_of(ids, k);
        let before = specials_of(ids, k - 1);
        assert forall|i: int| 0 <= i < entries.len() implies exists|j: int|
            0 <= j < k && (#[trigger] entries[i]).0 == #[trigger] special_name(j) by {
            if i < before.len() {
                assert(entries[i] == before[i]);
                let j = choose|j: int| 0 <= j < k - 1 && before[i].0 == #[trigger] special_name(j);
                assert(entries[i].0 == special_name(j));
            } else {
                assert(entries[i].0 == special_name(k - 1));
            }
        }
    }
}

proof fn lemma_ids_agree(vocab: Seq<Seq<u8>>, n: int)
    requires
        0 <= n <= vocab.len() <= i32::MAX,
    ensures
        forall|s: Seq<u8>| #[trigger]
            ids_of(vocab, n).dom().contains(s) ==> 0 <= ids_of(vocab, n)[s] < n && vocab[ids_of(
                vocab,
                n,
            )[s] as int] == s,
    decreases n,
{
    if n > 0 {
        lemma_ids_agree(vocab, n - 1);
        assert forall|s: Seq<u8>| #[trigger] ids_of(vocab, n).dom().contains(s) implies 0
            <= ids_of(vocab, n)[s] < n && vocab[ids_of(vocab, n)[s] as int] == s by {
            if s != vocab[n - 1] {
                assert(ids_of(vocab, n - 1).dom().contains(s));
            }
        }
    }
}

/// The index of a loaded tokenizer agrees with its vocabulary: an id found by a
/// form is the position of that form.
pub proof fn lemma_loaded_agrees(t: &Tokenizer, meta: Map<Seq<char>, Node>, tokens: Seq<Node>)
    requires
        is_loaded(t, meta, tokens),
        tokens.len() <= i32::MAX,
    ensures
        agrees(views(t.vocab@), t.ids()),
{
    lemma_ids_agree(vocab_of(tokens), tokens.len() as int);
}

/// The special tokens of a loaded tokenizer all have names, so that rendered
/// chat text can always be encoded.
pub proof fn lemma_loaded_specials_named(
    t: &Tokenizer,
    meta: Map<Seq<char>, Node>,
    tokens: Seq<Node>,
)
    requires
        is_loaded(t, meta, tokens),
    ensures
        t.specials_named(),
{
    let entries = t.specials();
    let ids = t.ids();
    lemma_specials_named_below(ids, 9);
    assert forall|i: int| 0 <= i < entries.len() implies (#[trigger] entries[i]).0.len() > 0 by {
        let j = choose|j: int| 0 <= j < 9 && entries[i].0 == #[trigger] special_name(j);
        lemma_special_name_lengths();
    }
}

proof fn lemma_special_name_lengths()
    ensures
        forall|k: int| 0 <= k < 9 ==> (#[trigger] special_name(k)).len() > 0,
{
    reveal_strlit("<\u{ff5c}begin\u{2581}of\u{2581}sentence\u{ff5c}>");
    reveal_strlit("<\u{ff5c}end\u{2581}of\u{2581}sentence\u{ff5c}>");
    reveal_strlit("<\u{ff5c}User\u{ff5c}>");
    reveal_strlit("<\u{ff5c}Assistant\u{ff5c}>");
    reveal_strlit("<think>");
    reveal_strlit("</think>");
    reveal_strlit("\u{ff5c}DSML\u{ff5c}");
    reveal_strlit("<|im_start|>");
    reveal_strlit("<|im_end|>");
}

/// The id of a form is the last position at which it is listed; a form that is not
/// listed has none.
pub proof fn lemma_ids_last(vocab: Seq<Seq<u8>>, n: int, i: int, s: Seq<u8>)
    requires
        0 <= n <= vocab.len() <= i32::MAX,
    ensures
        0 <= i < n && vocab[i] == s && (forall|j: int| i < j < n ==> #[trigger] vocab[j] != s)
            ==> ids_of(vocab, n).dom().contains(s) && ids_of(vocab, n)[s] == i,
        (forall|j: int| 0 <= j < n ==> #[trigger] vocab[j] != s) ==> !ids_of(
            vocab,
            n,
        ).dom().contains(s),
    decreases n,
{
    if n > 0 {
        lemma_ids_last(vocab, n - 1, i, s);
        if vocab[n - 1] == s {
            assert(ids_of(vocab, n)[s] == n - 1);
        }
    }
}

/// A merge is two texts with a space between them, the first without a space: its
/// sides are those two.
pub proof fn lemma_merge_text(left: Seq<u8>, right: Seq<u8>)
    requires
        forall|i: int| 0 <= i < left.len() ==> #[trigger] left[i] != 0x20,
    ensures
        merge_sides(left.push(0x20) + right) == Some((left, right)),
{
    let b = left.push(0x20) + right;
    let n = left.len() as int;
    assert(first_space(b, n));
    let k = choose|i: int| first_space(b, i);
    if k < n {
        assert(b[k] == left[k]);
    } else if n < k {
        assert(b[n] != 0x20);
    }
    assert(b.take(n) =~= left);
    assert(b.skip(n + 1) =~= right);
}

/// A text without a space is no merge.
pub proof fn lemma_no_merge_text(b: Seq<u8>)
    requires
        forall|i: int| 0 <= i < b.len() ==> #[trigger] b[i] != 0x20,
    ensures
        merge_sides(b) is None,
{
    if exists|i: int| first_space(b, i) {
        let k = choose|i: int| first_space(b, i);
        assert(b[k] != 0x20);
    }
}

/// The rank of a merge is the last position at which it is listed; a pair that is
/// not listed has none.
pub proof fn lemma_ranks_last(items: Seq<Node>, n: int, i: int, pair: (Seq<u8>, Seq<u8>))
    requires
        0 <= n <= items.len() <= i32::MAX,
    ensures
        0 <= i < n && merge_of(items[i]) == Some(pair) && (forall|j: int|
            i < j < n ==> merge_of(#[trigger] items[j]) != Some(pair)) ==> ranks_of(
            items,
            n,
        ).dom().contains(pair) && ranks_of(items, n)[pair] == i,
        (forall|j: int| 0 <= j < n ==> merge_of(#[trigger] items[j]) != Some(pair)) ==> !ranks_of(
            items,
            n,
        ).dom().contains(pair),
    decreases n,
{
    if n > 0 {
        lemma_ranks_last(items, n - 1, i, pair);
        if merge_of(items[n - 1]) == Some(pair) {
            assert(ranks_of(items, n)[pair] == n - 1);
        }
    }
}

/// A vocabulary entry is the bytes of its text, and a merge the sides of its text.
pub proof fn lemma_entries_of_texts(s: Seq<char>)
    ensures
        entry_bytes(Node::Text(s)) == encode_utf8(s),
        merge_of(Node::Text(s)) == merge_sides(encode_utf8(s)),
{
}

/// A loaded tokenizer has the ids of its special tokens by their names: the start
/// and the end of the text, which the metadata can give where the vocabulary does
/// not, the two roles, the two ends of thinking, and the two ends of a message.
pub proof fn lemma_loaded_ids(t: &Tokenizer, meta: Map<Seq<char>, Node>, tokens: Seq<Node>)
    requires
        is_loaded(t, meta, tokens),
    ensures
        t.vocab@.len() == tokens.len(),
        t.user_role == named_id(t, "<\u{ff5c}User\u{ff5c}>"@),
        t.assistant_role == named_id(t, "<\u{ff5c}Assistant\u{ff5c}>"@),
        t.think_start == named_id(t, "<think>"@),
        t.think_end == named_id(t, "</think>"@),
        t.im_start == named_id(t, "<|im_start|>"@),
        t.im_end == named_id(t, "<|im_end|>"@),
        t.system_role == -1,
        ({
            let bos = named_id(t, "<\u{ff5c}begin\u{2581}of\u{2581}sentence\u{ff5c}>"@);
            let eos = named_id(t, "<\u{ff5c}end\u{2581}of\u{2581}sentence\u{ff5c}>"@);
            &&& bos >= 0 ==> t.bos == bos
            &&& bos < 0 ==> t.bos == match meta_number(meta, "tokenizer.ggml.bos_token_id"@) {
                Some(v) => wrapped_i32(v as int),
                None => -1i32,
            }
            &&& eos >= 0 ==> t.eos == eos
            &&& eos < 0 ==> t.eos == match meta_number(meta, "tokenizer.ggml.eos_token_id"@) {
                Some(v) => wrapped_i32(v as int),
                None => -1i32,
            }
        }),
{
    assert(views(t.vocab@).len() == tokens.len());
}

/// The id under which the vocabulary lists a name; -1 where it does not.
pub open spec fn named_id(t: &Tokenizer, name: Seq<char>) -> i32 {
    if t.ids().dom().contains(encode_utf8(name)) {
        t.ids()[encode_utf8(name)]
    } else {
        -1i32
    }
}

/// A name is among the special tokens of a loaded tokenizer exactly if it is one of
/// the nine and the vocabulary lists it, and then with the id that it is listed under.
pub proof fn lemma_loaded_specials(
    t: &Tokenizer,
    meta: Map<Seq<char>, Node>,
    tokens: Seq<Node>,
    name: Seq<char>,
)
    requires
        is_loaded(t, meta, tokens),
        name == "<\u{ff5c}begin\u{2581}of\u{2581}sentence\u{ff5c}>"@ || name
            == "<\u{ff5c}end\u{2581}of\u{2581}sentence\u{ff5c}>"@ || name
            == "<\u{ff5c}User\u{ff5c}>"@ || name == "<\u{ff5c}Assistant\u{ff5c}>"@ || name
            == "<think>"@ || name == "</think>"@ || name == "\u{ff5c}DSML\u{ff5c}"@ || name
            == "<|im_start|>"@ || name == "<|im_end|>"@,
    ensures
        named_id(t, name) >= 0 <==> exists|i: int|
            0 <= i < t.specials().len() && (#[trigger] t.specials()[i]).0 == name,
        forall|i: int|
            0 <= i < t.specials().len() && (#[trigger] t.specials()[i]).0 == name
                ==> t.specials()[i].1 == named_id(t, name),
{
    let k = if name == special_name(0) {
        0
    } else if name == special_name(1) {
        1
    } else if name == special_name(2) {
        2
    } else if name == special_name(3) {
        3
    } else if name == special_name(4) {
        4
    } else if name == special_name(5) {
        5
    } else if name == special_name(6) {
        6
    } else if name == special_name(7) {
        7
    } else {
        8int
    };
    assert(name == special_name(k));
    lemma_specials_hold(t.ids(), 9, k);
}

proof fn lemma_specials_hold(ids: Map<Seq<u8>, i32>, n: int, k: int)
    requires
        0 <= k < 9,
        0 <= n <= 9,
    ensures
        k < n && id_of(ids, special_name(k)) >= 0 ==> exists|i: int|
            0 <= i < specials_of(ids, n).len() && (#[trigger] specials_of(ids, n)[i]).0
                == special_name(k),
        forall|i: int|
            0 <= i < specials_of(ids, n).len() && (#[trigger] specials_of(ids, n)[i]).0
                == special_name(k) ==> specials_of(ids, n)[i].1 == id_of(ids, special_name(k))
                && id_of(ids, special_name(k)) >= 0,
    decreases n,
{
    if n > 0 {
        lemma_specials_hold(ids, n - 1, k);
        let (all, front) = (specials_of(ids, n), specials_of(ids, n - 1));
        if k < n && id_of(ids, special_name(k)) >= 0 {
            if k < n - 1 {
                let i = choose|i: int|
                    0 <= i < front.len() && (#[trigger] front[i]).0 == special_name(k);
                assert(all[i] == front[i]);
            } else {
                assert(all[all.len() - 1].0 == special_name(k));
            }
        }
        assert forall|i: int|
            0 <= i < all.len() && (#[trigger] all[i]).0 == special_name(k) implies all[i].1
            == id_of(ids, special_name(k)) && id_of(ids, special_name(k)) >= 0 by {
            if i < front.len() {
                assert(all[i] == front[i]);
            }
        }
    }
}

/// A list is had from a list only, and an entry that is no text is empty and no merge.
pub proof fn lemma_lists(meta: Map<Seq<char>, Node>, key: Seq<char>, items: Seq<Node>, other: Node)
    ensures
        meta_list(meta.insert(key, Node::List(items)), key) == Some(items),
        !(other is List) ==> meta_list(meta.insert(key, other), key) is None,
        !meta.dom().contains(key) ==> meta_list(meta, key) is None,
        !(other is Text) ==> entry_bytes(other).len() == 0 && merge_of(other) is None,
{
}

/// The vocabulary and the merges of a loaded tokenizer come from their keys: each entry
/// of the list of tokens has the position that it is listed at, and without a list of
/// merges there are none.
pub proof fn lemma_loaded_lists(t: &Tokenizer, meta: Map<Seq<char>, Node>, tokens: Seq<Node>, i: int)
    requires
        is_loaded(t, meta, tokens),
        0 <= i < tokens.len(),
    ensures
        t.vocab@[i]@ == entry_bytes(tokens[i]),
        !meta.dom().contains("tokenizer.ggml.merges"@) ==> t.ranks() == Map::<
            (Seq<u8>, Seq<u8>),
            i32,
        >::empty(),
        match meta_list(meta, "tokenizer.ggml.merges"@) {
            Some(items) => t.ranks() == ranks_of(items, items.len() as int),
            None => true,
        },
{
    assert(views(t.vocab@)[i] == vocab_of(tokens)[i]);
}

} // verus!
