//! The lookup tables of the tokenizer.
//!
//! Token ids and merge ranks are kept in `ahash` maps and the special tokens in
//! an `indexmap` map, which remembers the order of insertion. What this module
//! states of those maps is not proved here: each contract says what the crate's
//! own code does, over the map's contents as a mathematical value.

use ahash::AHashMap;
use indexmap::IndexMap;
use vstd::prelude::*;

verus! {

/// The hasher state of `ahash`, opaque.
#[verifier::external_type_specification]
#[verifier::external_body]
pub struct ExAHashState(ahash::RandomState);

/// The hash map of `ahash`, opaque.
#[verifier::external_type_specification]
#[verifier::external_body]
#[verifier::reject_recursive_types(K)]
#[verifier::reject_recursive_types(V)]
#[verifier::reject_recursive_types(S)]
pub struct ExAHashMap<K, V, S>(ahash::AHashMap<K, V, S>);

/// The insertion-ordered map of `indexmap`, opaque.
#[verifier::external_type_specification]
#[verifier::external_body]
#[verifier::reject_recursive_types(K)]
#[verifier::reject_recursive_types(V)]
#[verifier::reject_recursive_types(S)]
pub struct ExIndexMap<K, V, S>(indexmap::IndexMap<K, V, S>);

/// What a vocabulary index holds: byte-encoded form to token id.
pub uninterp spec fn vocab_ids(m: AHashMap<Vec<u8>, i32>) -> Map<Seq<u8>, i32>;

/// What a merge table holds: pair of symbols to rank.
pub uninterp spec fn merge_ranks(m: AHashMap<(Vec<u8>, Vec<u8>), i32>) -> Map<
    (Seq<u8>, Seq<u8>),
    i32,
>;

/// What a special-token table holds, in its order of iteration.
pub uninterp spec fn special_entries(m: IndexMap<String, i32>) -> Seq<(Seq<char>, i32)>;

/// Position of `name` among the entries, if it is there.
pub open spec fn entry_index(entries: Seq<(Seq<char>, i32)>, name: Seq<char>) -> Option<int> {
    if exists|i: int| 0 <= i < entries.len() && (#[trigger] entries[i]).0 == name {
        Some(choose|i: int| 0 <= i < entries.len() && (#[trigger] entries[i]).0 == name)
    } else {
        None
    }
}

/// `AHashMap::new`: the map is empty.
#[verifier::external_body]
pub(crate) fn vocab_new() -> (m: AHashMap<Vec<u8>, i32>)
    ensures
        vocab_ids(m) == (Map::<Seq<u8>, i32>::empty()),
{
    AHashMap::new()
}

/// `AHashMap::insert`: the key is bound to the value, whether or not it was
/// bound before; nothing else changes.
#[verifier::external_body]
pub(crate) fn vocab_insert(m: &mut AHashMap<Vec<u8>, i32>, key: Vec<u8>, id: i32)
    ensures
        vocab_ids(*final(m)) == vocab_ids(*old(m)).insert(key@, id),
{
    m.insert(key, id);
}

/// `AHashMap::get`, with a borrowed byte slice for the key: the value bound to
/// the key, if there is one.
#[verifier::external_body]
pub(crate) fn vocab_get(m: &AHashMap<Vec<u8>, i32>, key: &[u8]) -> (r: Option<i32>)
    ensures
        r == if vocab_ids(*m).dom().contains(key@) {
            Some(vocab_ids(*m)[key@])
        } else {
            None
        },
{
    m.get(key).copied()
}

/// `AHashMap::new`: the map is empty.
#[verifier::external_body]
pub(crate) fn merges_new() -> (m: AHashMap<(Vec<u8>, Vec<u8>), i32>)
    ensures
        merge_ranks(m) == (Map::<(Seq<u8>, Seq<u8>), i32>::empty()),
{
    AHashMap::new()
}

/// `AHashMap::insert`: the pair is bound to the rank, whether or not it was
/// bound before; nothing else changes.
#[verifier::external_body]
pub(crate) fn merges_insert(
    m: &mut AHashMap<(Vec<u8>, Vec<u8>), i32>,
    left: Vec<u8>,
    right: Vec<u8>,
    rank: i32,
)
    ensures
        merge_ranks(*final(m)) == merge_ranks(*old(m)).insert((left@, right@), rank),
{
    m.insert((left, right), rank);
}

/// `AHashMap::get`: the rank bound to the pair, if there is one.
#[verifier::external_body]
pub(crate) fn merges_get(
    m: &AHashMap<(Vec<u8>, Vec<u8>), i32>,
    left: Vec<u8>,
    right: Vec<u8>,
) -> (r: Option<i32>)
    ensures
        r == if merge_ranks(*m).dom().contains((left@, right@)) {
            Some(merge_ranks(*m)[(left@, right@)])
        } else {
            None
        },
{
    m.get(&(left, right)).copied()
}

/// `IndexMap::new`: the map has no entries.
#[verifier::external_body]
pub(crate) fn special_new() -> (m: IndexMap<String, i32>)
    ensures
        special_entries(m).len() == 0,
{
    IndexMap::new()
}

/// `IndexMap::insert`: an entry with an equal key keeps its place and gets the
/// new value; without one, the new entry comes last.
#[verifier::external_body]
pub(crate) fn special_insert(m: &mut IndexMap<String, i32>, name: String, id: i32)
    ensures
        special_entries(*final(m)) == match entry_index(special_entries(*old(m)), name@) {
            Some(i) => special_entries(*old(m)).update(i, (name@, id)),
            None => special_entries(*old(m)).push((name@, id)),
        },
{
    m.insert(name, id);
}

/// `IndexMap::len`: the number of entries.
#[verifier::external_body]
pub(crate) fn special_len(m: &IndexMap<String, i32>) -> (n: usize)
    ensures
        n == special_entries(*m).len(),
{
    m.len()
}

/// `IndexMap::get_index`: the entry at a position, in the order of iteration,
/// where the position is below the length.
#[verifier::external_body]
pub(crate) fn special_at(m: &IndexMap<String, i32>, i: usize) -> (r: Option<(&String, &i32)>)
    ensures
        match r {
            Some((name, id)) => i < special_entries(*m).len() && special_entries(*m)[i as int] == (
                name@,
                *id,
            ),
            None => i >= special_entries(*m).len(),
        },
{
    m.get_index(i)
}

} // verus!
