//! How values are laid out in a file, and that reading gives them back.

use super::format::{
    aligned, alignment_of, dtype_of, kind_width, lemma_raw_injective, placed, placed_all,
    scan_body, scan_desc, scan_descs, scan_dims, scan_entries, scan_file, scan_items, scan_kind,
    scan_le, scan_string, scan_tail, size_of_tensor, Desc, FileModel, GgufError, Node,
    TensorModel, GGUF_MAGIC,
};
use crate::bytes::{is_at, le_bytes, lemma_le_bytes_len, lemma_le_round_trip, lemma_pow256, pow256};
use vstd::prelude::*;
use vstd::utf8::{encode_utf8, encode_utf8_decode_utf8, encode_utf8_valid_utf8};

verus! {

/// A string: its length in bytes, and its bytes.
pub open spec fn string_bytes(s: Seq<char>) -> Seq<u8> {
    le_bytes(encode_utf8(s).len(), 8) + encode_utf8(s)
}

/// The number that stands for the kind of a value.
pub open spec fn kind_of(n: Node) -> u32 {
    match n {
        Node::U8(_) => 0,
        Node::I8(_) => 1,
        Node::U16(_) => 2,
        Node::I16(_) => 3,
        Node::U32(_) => 4,
        Node::I32(_) => 5,
        Node::F32(_) => 6,
        Node::Bool(_) => 7,
        Node::Text(_) => 8,
        Node::List(_) => 9,
        Node::U64(_) => 10,
        Node::I64(_) => 11,
        Node::F64(_) => 12,
    }
}

/// The unsigned number that encodes a value of fixed width.
pub open spec fn plain_code(n: Node) -> nat {
    match n {
        Node::U8(x) => x as nat,
        Node::I8(x) => (if x >= 0 {
            x as int
        } else {
            x + 0x100
        }) as nat,
        Node::U16(x) => x as nat,
        Node::I16(x) => (if x >= 0 {
            x as int
        } else {
            x + 0x1_0000
        }) as nat,
        Node::U32(x) => x as nat,
        Node::I32(x) => (if x >= 0 {
            x as int
        } else {
            x + 0x1_0000_0000
        }) as nat,
        Node::F32(x) => x as nat,
        Node::Bool(x) => if x {
            1
        } else {
            0
        },
        Node::U64(x) => x as nat,
        Node::I64(x) => (if x >= 0 {
            x as int
        } else {
            x + 0x1_0000_0000_0000_0000
        }) as nat,
        Node::F64(x) => x as nat,
        _ => 0,
    }
}

/// The kind of the items of a list; an empty list gives number 0.
pub open spec fn item_kind(items: Seq<Node>) -> u32 {
    if items.len() == 0 {
        0
    } else {
        kind_of(items[0])
    }
}

/// The bytes of a value, without its kind.
pub open spec fn node_bytes(n: Node) -> Seq<u8>
    decreases n, 0nat,
{
    match n {
        Node::Text(s) => string_bytes(s),
        Node::List(items) => le_bytes(item_kind(items) as nat, 4) + le_bytes(items.len(), 8)
            + items_bytes(items),
        _ => le_bytes(plain_code(n), kind_width(kind_of(n))),
    }
}

/// The bytes of some values, one after the other.
pub open spec fn items_bytes(items: Seq<Node>) -> Seq<u8>
    decreases items, items.len(),
{
    if items.len() == 0 {
        seq![]
    } else {
        node_bytes(items[0]) + items_bytes(items.drop_first())
    }
}

/// A value that can be laid out: the items of a list are of one kind, and
/// lengths fit in 64 bits.
pub open spec fn storable(n: Node) -> bool
    decreases n,
{
    match n {
        Node::Text(s) => encode_utf8(s).len() <= u64::MAX,
        Node::List(items) => items.len() <= u64::MAX && forall|i: int|
            0 <= i < items.len() ==> kind_of(#[trigger] items[i]) == item_kind(items) && storable(
                items[i],
            ),
        _ => true,
    }
}

proof fn lemma_is_at_split(buf: Seq<u8>, pos: int, a: Seq<u8>, b: Seq<u8>)
    requires
        0 <= pos,
        is_at(buf, pos, a + b),
    ensures
        is_at(buf, pos, a),
        is_at(buf, pos + a.len(), b),
{
    let whole = buf.subrange(pos, pos + (a + b).len());
    assert(whole.subrange(0, a.len() as int) =~= a);
    assert(whole.subrange(a.len() as int, (a + b).len() as int) =~= b);
    assert(buf.subrange(pos, pos + a.len()) =~= a);
    assert(buf.subrange(pos + a.len(), pos + a.len() + b.len()) =~= b);
}

proof fn lemma_scan_le(buf: Seq<u8>, pos: int, v: nat, n: nat)
    requires
        0 <= pos,
        buf.len() <= usize::MAX,
        is_at(buf, pos, le_bytes(v, n)),
        v < pow256(n),
    ensures
        scan_le(buf, pos, n) == Ok::<(nat, int), GgufError>((v, pos + n)),
{
    lemma_le_bytes_len(v, n);
    lemma_le_round_trip(v, n);
}

proof fn lemma_scan_string(buf: Seq<u8>, pos: int, s: Seq<char>)
    requires
        0 <= pos,
        buf.len() <= usize::MAX,
        encode_utf8(s).len() <= u64::MAX,
        is_at(buf, pos, string_bytes(s)),
    ensures
        scan_string(buf, pos) == Ok::<(Seq<char>, int), GgufError>(
            (s, pos + string_bytes(s).len()),
        ),
{
    let n = encode_utf8(s).len();
    lemma_is_at_split(buf, pos, le_bytes(n, 8), encode_utf8(s));
    lemma_pow256();
    lemma_le_bytes_len(n, 8);
    lemma_scan_le(buf, pos, n, 8);
    encode_utf8_valid_utf8(s);
    encode_utf8_decode_utf8(s);
}

/// Reading a value that was laid out gives it back, and ends behind it.
pub proof fn lemma_scan_kind(buf: Seq<u8>, pos: int, n: Node)
    requires
        0 <= pos,
        buf.len() <= usize::MAX,
        storable(n),
        is_at(buf, pos, node_bytes(n)),
    ensures
        scan_kind(buf, pos, kind_of(n)) == Ok::<(Node, int), GgufError>(
            (n, pos + node_bytes(n).len()),
        ),
    decreases n, 0nat,
{
    lemma_pow256();
    match n {
        Node::Text(s) => {
            lemma_scan_string(buf, pos, s);
        },
        Node::List(items) => {
            let elem = le_bytes(item_kind(items) as nat, 4);
            let count = le_bytes(items.len(), 8);
            lemma_le_bytes_len(item_kind(items) as nat, 4);
            lemma_le_bytes_len(items.len(), 8);
            assert(elem + count + items_bytes(items) =~= elem + (count + items_bytes(items)));
            lemma_is_at_split(buf, pos, elem, count + items_bytes(items));
            lemma_is_at_split(buf, pos + 4, count, items_bytes(items));
            lemma_scan_le(buf, pos, item_kind(items) as nat, 4);
            lemma_scan_le(buf, pos + 4, items.len(), 8);
            lemma_scan_items(buf, pos + 12, items, item_kind(items), seq![]);
            assert(Seq::<Node>::empty() + items =~= items);
        },
        _ => {
            lemma_scan_le(buf, pos, plain_code(n), kind_width(kind_of(n)));
            lemma_le_bytes_len(plain_code(n), kind_width(kind_of(n)));
        },
    }
}

proof fn lemma_scan_items(buf: Seq<u8>, pos: int, items: Seq<Node>, kind: u32, acc: Seq<Node>)
    requires
        0 <= pos,
        buf.len() <= usize::MAX,
        forall|i: int|
            0 <= i < items.len() ==> kind_of(#[trigger] items[i]) == kind && storable(items[i]),
        is_at(buf, pos, items_bytes(items)),
    ensures
        scan_items(buf, pos, kind, items.len(), acc) == Ok::<(Seq<Node>, int), GgufError>(
            (acc + items, pos + items_bytes(items).len()),
        ),
    decreases items, items.len(),
{
    if items.len() == 0 {
        assert(acc + items =~= acc);
    } else {
        let x = items[0];
        let rest = items.drop_first();
        lemma_is_at_split(buf, pos, node_bytes(x), items_bytes(rest));
        lemma_scan_kind(buf, pos, x);
        let p = pos + node_bytes(x).len();
        lemma_scan_items(buf, p, rest, kind, acc.push(x));
        assert(acc.push(x) + rest =~= acc + items);
    }
}

/// A metadata entry: name, kind, value.
pub open spec fn entry_bytes(key: Seq<char>, n: Node) -> Seq<u8> {
    string_bytes(key) + (le_bytes(kind_of(n) as nat, 4) + node_bytes(n))
}

pub open spec fn entries_bytes(entries: Seq<(Seq<char>, Node)>) -> Seq<u8>
    decreases entries.len(),
{
    if entries.len() == 0 {
        seq![]
    } else {
        entry_bytes(entries[0].0, entries[0].1) + entries_bytes(entries.drop_first())
    }
}

/// The entries on top of `acc`; a later entry replaces an earlier one.
pub open spec fn entries_map(
    entries: Seq<(Seq<char>, Node)>,
    acc: Map<Seq<char>, Node>,
) -> Map<Seq<char>, Node>
    decreases entries.len(),
{
    if entries.len() == 0 {
        acc
    } else {
        entries_map(entries.drop_first(), acc.insert(entries[0].0, entries[0].1))
    }
}

pub open spec fn dims_bytes(shape: Seq<u64>) -> Seq<u8>
    decreases shape.len(),
{
    if shape.len() == 0 {
        seq![]
    } else {
        le_bytes(shape[0] as nat, 8) + dims_bytes(shape.drop_first())
    }
}

/// A tensor description: name, dimensions, format, offset.
pub open spec fn desc_bytes(d: Desc) -> Seq<u8> {
    string_bytes(d.name) + (le_bytes(d.shape.len(), 4) + (dims_bytes(d.shape) + (le_bytes(
        d.dtype.raw() as nat,
        4,
    ) + le_bytes(d.offset as nat, 8))))
}

pub open spec fn descs_bytes(descs: Seq<Desc>) -> Seq<u8>
    decreases descs.len(),
{
    if descs.len() == 0 {
        seq![]
    } else {
        desc_bytes(descs[0]) + descs_bytes(descs.drop_first())
    }
}

/// The bytes of a file up to the end of the tensor descriptions.
pub open spec fn file_bytes(
    version: u32,
    entries: Seq<(Seq<char>, Node)>,
    descs: Seq<Desc>,
) -> Seq<u8> {
    le_bytes(GGUF_MAGIC as nat, 4) + (le_bytes(version as nat, 4) + body_bytes(entries, descs))
}

/// What follows the version: counts, metadata, tensor descriptions.
pub open spec fn body_bytes(entries: Seq<(Seq<char>, Node)>, descs: Seq<Desc>) -> Seq<u8> {
    le_bytes(descs.len(), 8) + (le_bytes(entries.len(), 8) + (entries_bytes(entries) + descs_bytes(
        descs,
    )))
}

pub open spec fn entry_storable(e: (Seq<char>, Node)) -> bool {
    encode_utf8(e.0).len() <= u64::MAX && storable(e.1)
}

pub open spec fn desc_storable(d: Desc) -> bool {
    encode_utf8(d.name).len() <= u64::MAX && d.shape.len() <= u32::MAX
}

proof fn lemma_scan_entries(
    buf: Seq<u8>,
    pos: int,
    entries: Seq<(Seq<char>, Node)>,
    acc: Map<Seq<char>, Node>,
)
    requires
        0 <= pos,
        buf.len() <= usize::MAX,
        forall|i: int| 0 <= i < entries.len() ==> entry_storable(#[trigger] entries[i]),
        is_at(buf, pos, entries_bytes(entries)),
    ensures
        scan_entries(buf, pos, entries.len(), acc) == Ok::<
            (Map<Seq<char>, Node>, int),
            GgufError,
        >((entries_map(entries, acc), pos + entries_bytes(entries).len())),
    decreases entries.len(),
{
    if entries.len() > 0 {
        let (key, n) = entries[0];
        let rest = entries.drop_first();
        let kind = le_bytes(kind_of(n) as nat, 4);
        assert(entry_storable(entries[0]));
        lemma_is_at_split(buf, pos, entry_bytes(key, n), entries_bytes(rest));
        lemma_is_at_split(buf, pos, string_bytes(key), kind + node_bytes(n));
        let p = pos + string_bytes(key).len();
        lemma_is_at_split(buf, p, kind, node_bytes(n));
        lemma_le_bytes_len(kind_of(n) as nat, 4);
        lemma_pow256();
        lemma_scan_string(buf, pos, key);
        lemma_scan_le(buf, p, kind_of(n) as nat, 4);
        lemma_scan_kind(buf, p + 4, n);
        lemma_scan_entries(buf, pos + entry_bytes(key, n).len(), rest, acc.insert(key, n));
    }
}

proof fn lemma_scan_dims(buf: Seq<u8>, pos: int, shape: Seq<u64>, acc: Seq<u64>)
    requires
        0 <= pos,
        buf.len() <= usize::MAX,
        is_at(buf, pos, dims_bytes(shape)),
    ensures
        scan_dims(buf, pos, shape.len(), acc) == Ok::<(Seq<u64>, int), GgufError>(
            (acc + shape, pos + dims_bytes(shape).len()),
        ),
    decreases shape.len(),
{
    if shape.len() == 0 {
        assert(acc + shape =~= acc);
    } else {
        let rest = shape.drop_first();
        lemma_is_at_split(buf, pos, le_bytes(shape[0] as nat, 8), dims_bytes(rest));
        lemma_le_bytes_len(shape[0] as nat, 8);
        lemma_pow256();
        lemma_scan_le(buf, pos, shape[0] as nat, 8);
        lemma_scan_dims(buf, pos + 8, rest, acc.push(shape[0]));
        assert(acc.push(shape[0]) + rest =~= acc + shape);
    }
}

proof fn lemma_scan_desc(buf: Seq<u8>, pos: int, d: Desc)
    requires
        0 <= pos,
        buf.len() <= usize::MAX,
        desc_storable(d),
        is_at(buf, pos, desc_bytes(d)),
    ensures
        scan_desc(buf, pos) == Ok::<(Desc, int), GgufError>((d, pos + desc_bytes(d).len())),
{
    let raw = le_bytes(d.dtype.raw() as nat, 4);
    let off = le_bytes(d.offset as nat, 8);
    let count = le_bytes(d.shape.len(), 4);
    let p = pos + string_bytes(d.name).len();
    lemma_pow256();
    lemma_le_bytes_len(d.shape.len(), 4);
    lemma_le_bytes_len(d.dtype.raw() as nat, 4);
    lemma_le_bytes_len(d.offset as nat, 8);
    lemma_is_at_split(buf, pos, string_bytes(d.name), count + (dims_bytes(d.shape) + (raw + off)));
    lemma_is_at_split(buf, p, count, dims_bytes(d.shape) + (raw + off));
    lemma_is_at_split(buf, p + 4, dims_bytes(d.shape), raw + off);
    let q = p + 4 + dims_bytes(d.shape).len();
    lemma_is_at_split(buf, q, raw, off);
    lemma_scan_string(buf, pos, d.name);
    lemma_scan_le(buf, p, d.shape.len(), 4);
    lemma_scan_dims(buf, p + 4, d.shape, seq![]);
    assert(Seq::<u64>::empty() + d.shape =~= d.shape);
    lemma_scan_le(buf, q, d.dtype.raw() as nat, 4);
    lemma_raw_injective(d.dtype, dtype_of(d.dtype.raw())->Ok_0);
    lemma_scan_le(buf, q + 4, d.offset as nat, 8);
}

proof fn lemma_scan_descs(buf: Seq<u8>, pos: int, descs: Seq<Desc>, acc: Seq<Desc>)
    requires
        0 <= pos,
        buf.len() <= usize::MAX,
        forall|i: int| 0 <= i < descs.len() ==> desc_storable(#[trigger] descs[i]),
        is_at(buf, pos, descs_bytes(descs)),
    ensures
        scan_descs(buf, pos, descs.len(), acc) == Ok::<(Seq<Desc>, int), GgufError>(
            (acc + descs, pos + descs_bytes(descs).len()),
        ),
    decreases descs.len(),
{
    if descs.len() == 0 {
        assert(acc + descs =~= acc);
    } else {
        let rest = descs.drop_first();
        assert(desc_storable(descs[0]));
        lemma_is_at_split(buf, pos, desc_bytes(descs[0]), descs_bytes(rest));
        lemma_scan_desc(buf, pos, descs[0]);
        lemma_scan_descs(buf, pos + desc_bytes(descs[0]).len(), rest, acc.push(descs[0]));
        assert(acc.push(descs[0]) + rest =~= acc + descs);
    }
}

/// Reading a file that was laid out from metadata entries and tensor
/// descriptions gives exactly those, whatever data follows.
pub proof fn lemma_file_round_trip(
    version: u32,
    entries: Seq<(Seq<char>, Node)>,
    descs: Seq<Desc>,
    data: Seq<u8>,
)
    requires
        2 <= version <= 3,
        entries.len() <= u64::MAX,
        descs.len() <= u64::MAX,
        forall|i: int| 0 <= i < entries.len() ==> entry_storable(#[trigger] entries[i]),
        forall|i: int| 0 <= i < descs.len() ==> desc_storable(#[trigger] descs[i]),
        (file_bytes(version, entries, descs) + data).len() <= usize::MAX,
    ensures
        scan_file(file_bytes(version, entries, descs) + data) == scan_tail(
            version,
            entries_map(entries, Map::empty()),
            descs,
            file_bytes(version, entries, descs).len() as int,
        ),
{
    let head = file_bytes(version, entries, descs);
    let buf = head + data;
    assert(buf.subrange(0, head.len() as int) =~= head);
    lemma_pow256();
    lemma_scan_two(
        buf,
        0,
        GGUF_MAGIC as nat,
        4,
        version as nat,
        4,
        body_bytes(entries, descs),
    );
    lemma_scan_body(buf, version, 8, entries, descs);
}

/// The bytes of a file up to the tensor data, which starts at the next aligned
/// position.
pub open spec fn data_file_head(
    version: u32,
    entries: Seq<(Seq<char>, Node)>,
    descs: Seq<Desc>,
) -> Seq<u8> {
    let head = file_bytes(version, entries, descs);
    let start = data_start(version, entries, descs);
    head + Seq::new((start - head.len()) as nat, |i: int| 0u8)
}

/// The bytes of a file with its tensor data.
pub open spec fn data_file_bytes(
    version: u32,
    entries: Seq<(Seq<char>, Node)>,
    descs: Seq<Desc>,
    data: Seq<u8>,
) -> Seq<u8> {
    data_file_head(version, entries, descs) + data
}

/// Where the tensor data starts.
pub open spec fn data_start(
    version: u32,
    entries: Seq<(Seq<char>, Node)>,
    descs: Seq<Desc>,
) -> int {
    aligned(
        file_bytes(version, entries, descs).len() as int,
        alignment_of(entries_map(entries, Map::empty())) as int,
    )
}

/// No description after number `i` has the same name.
pub open spec fn last_of_name(descs: Seq<Desc>, i: int) -> bool {
    0 <= i < descs.len() && forall|j: int|
        i < j < descs.len() ==> (#[trigger] descs[j]).name != descs[i].name
}

proof fn lemma_placed_all(
    descs: Seq<Desc>,
    k: int,
    start: u64,
    acc: Map<Seq<char>, TensorModel>,
    i: int,
)
    requires
        0 <= k <= descs.len(),
        forall|j: int| 0 <= j < descs.len() ==> placed(#[trigger] descs[j], start) is Ok,
        last_of_name(descs, i),
        i < k ==> acc.dom().contains(descs[i].name) && acc[descs[i].name] == placed(
            descs[i],
            start,
        )->Ok_0,
    ensures
        placed_all(descs, k, start, acc) is Ok,
        placed_all(descs, k, start, acc)->Ok_0.dom().contains(descs[i].name),
        placed_all(descs, k, start, acc)->Ok_0[descs[i].name] == placed(descs[i], start)->Ok_0,
    decreases descs.len() - k,
{
    if k < descs.len() {
        let t = placed(descs[k], start)->Ok_0;
        assert(t.name == descs[k].name);
        lemma_placed_all(descs, k + 1, start, acc.insert(t.name, t), i);
    }
}

/// The data of a tensor reads back as written: of a file that was laid out with
/// its tensor data, each described tensor has the bytes at its offset in that
/// data. A name that comes again stands for the last one.
pub proof fn lemma_data_round_trip(
    version: u32,
    entries: Seq<(Seq<char>, Node)>,
    descs: Seq<Desc>,
    data: Seq<u8>,
    i: int,
)
    requires
        2 <= version <= 3,
        entries.len() <= u64::MAX,
        descs.len() <= u64::MAX,
        forall|j: int| 0 <= j < entries.len() ==> entry_storable(#[trigger] entries[j]),
        forall|j: int| 0 <= j < descs.len() ==> desc_storable(#[trigger] descs[j]),
        alignment_of(entries_map(entries, Map::empty())) > 0,
        data_file_bytes(version, entries, descs, data).len() <= usize::MAX,
        forall|j: int|
            0 <= j < descs.len() ==> placed(
                #[trigger] descs[j],
                data_start(version, entries, descs) as u64,
            ) is Ok,
        last_of_name(descs, i),
        descs[i].offset + size_of_tensor(descs[i].dtype, descs[i].shape)->Ok_0 <= data.len(),
    ensures
        ({
            let buf = data_file_bytes(version, entries, descs, data);
            let size = size_of_tensor(descs[i].dtype, descs[i].shape)->Ok_0;
            let m = scan_file(buf)->Ok_0;
            let t = m.tensors[descs[i].name];
            &&& scan_file(buf) is Ok
            &&& m.tensors.dom().contains(descs[i].name)
            &&& t.size_bytes == size
            &&& buf.subrange(t.offset as int, t.offset + t.size_bytes) == data.subrange(
                descs[i].offset as int,
                descs[i].offset + size,
            )
        }),
{
    let head = file_bytes(version, entries, descs);
    let metadata = entries_map(entries, Map::empty());
    lemma_scan_data_file(version, entries, descs, data);
    lemma_scan_tail(version, metadata, descs, head.len() as int, i);
    lemma_data_at(
        scan_tail(version, metadata, descs, head.len() as int)->Ok_0,
        data_file_head(version, entries, descs),
        data,
        descs[i],
    );
}

proof fn lemma_scan_data_file(
    version: u32,
    entries: Seq<(Seq<char>, Node)>,
    descs: Seq<Desc>,
    data: Seq<u8>,
)
    requires
        2 <= version <= 3,
        entries.len() <= u64::MAX,
        descs.len() <= u64::MAX,
        forall|j: int| 0 <= j < entries.len() ==> entry_storable(#[trigger] entries[j]),
        forall|j: int| 0 <= j < descs.len() ==> desc_storable(#[trigger] descs[j]),
        alignment_of(entries_map(entries, Map::empty())) > 0,
        data_file_bytes(version, entries, descs, data).len() <= usize::MAX,
    ensures
        data_file_head(version, entries, descs).len() == data_start(version, entries, descs),
        data_start(version, entries, descs) <= u64::MAX,
        scan_file(data_file_bytes(version, entries, descs, data)) == scan_tail(
            version,
            entries_map(entries, Map::empty()),
            descs,
            file_bytes(version, entries, descs).len() as int,
        ),
{
    let head = file_bytes(version, entries, descs);
    let start = data_start(version, entries, descs);
    let gap = Seq::new((start - head.len()) as nat, |k: int| 0u8);
    lemma_aligned_bound(
        head.len() as int,
        alignment_of(entries_map(entries, Map::empty())) as int,
    );
    assert(data_file_bytes(version, entries, descs, data) =~= head + (gap + data));
    lemma_file_round_trip(version, entries, descs, gap + data);
}

/// A tensor whose data stands behind `head` has the bytes at its offset there.
proof fn lemma_data_at(m: FileModel, head: Seq<u8>, data: Seq<u8>, d: Desc)
    requires
        head.len() <= u64::MAX,
        placed(d, head.len() as u64) is Ok,
        m.tensors.dom().contains(d.name),
        m.tensors[d.name] == placed(d, head.len() as u64)->Ok_0,
        d.offset + size_of_tensor(d.dtype, d.shape)->Ok_0 <= data.len(),
    ensures
        ({
            let size = size_of_tensor(d.dtype, d.shape)->Ok_0;
            let t = m.tensors[d.name];
            &&& t.size_bytes == size
            &&& (head + data).subrange(t.offset as int, t.offset + t.size_bytes) == data.subrange(
                d.offset as int,
                d.offset + size,
            )
        }),
{
    let t = m.tensors[d.name];
    assert((head + data).subrange(t.offset as int, t.offset + t.size_bytes) =~= data.subrange(
        d.offset as int,
        d.offset + t.size_bytes,
    ));
}

proof fn lemma_aligned_bound(pos: int, alignment: int)
    requires
        0 <= pos,
        alignment > 0,
    ensures
        pos <= aligned(pos, alignment),
{
    assert(0 <= pos % alignment < alignment) by (nonlinear_arith)
        requires
            0 <= pos,
            alignment > 0,
    ;
}

proof fn lemma_scan_tail(
    version: u32,
    metadata: Map<Seq<char>, Node>,
    descs: Seq<Desc>,
    pos: int,
    i: int,
)
    requires
        0 <= pos,
        alignment_of(metadata) > 0,
        aligned(pos, alignment_of(metadata) as int) <= u64::MAX,
        forall|j: int|
            0 <= j < descs.len() ==> placed(
                #[trigger] descs[j],
                aligned(pos, alignment_of(metadata) as int) as u64,
            ) is Ok,
        last_of_name(descs, i),
    ensures
        ({
            let tail = scan_tail(version, metadata, descs, pos);
            &&& tail is Ok
            &&& tail->Ok_0.tensors.dom().contains(descs[i].name)
            &&& tail->Ok_0.tensors[descs[i].name] == placed(
                descs[i],
                aligned(pos, alignment_of(metadata) as int) as u64,
            )->Ok_0
        }),
{
    let start = aligned(pos, alignment_of(metadata) as int) as u64;
    lemma_placed_all(descs, 0, start, Map::empty(), i);
}

/// Two numbers, laid out before `rest`.
proof fn lemma_scan_two(buf: Seq<u8>, pos: int, a: nat, m: nat, b: nat, n: nat, rest: Seq<u8>)
    requires
        0 <= pos,
        buf.len() <= usize::MAX,
        a < pow256(m),
        b < pow256(n),
        is_at(buf, pos, le_bytes(a, m) + (le_bytes(b, n) + rest)),
    ensures
        scan_le(buf, pos, m) == Ok::<(nat, int), GgufError>((a, pos + m)),
        scan_le(buf, pos + m, n) == Ok::<(nat, int), GgufError>((b, pos + m + n)),
        is_at(buf, pos + m + n, rest),
        (le_bytes(a, m) + (le_bytes(b, n) + rest)).len() == m + n + rest.len(),
{
    lemma_le_bytes_len(a, m);
    lemma_le_bytes_len(b, n);
    lemma_is_at_split(buf, pos, le_bytes(a, m), le_bytes(b, n) + rest);
    lemma_is_at_split(buf, pos + m, le_bytes(b, n), rest);
    lemma_scan_le(buf, pos, a, m);
    lemma_scan_le(buf, pos + m, b, n);
}

proof fn lemma_scan_body(
    buf: Seq<u8>,
    version: u32,
    pos: int,
    entries: Seq<(Seq<char>, Node)>,
    descs: Seq<Desc>,
)
    requires
        0 <= pos,
        buf.len() <= usize::MAX,
        entries.len() <= u64::MAX,
        descs.len() <= u64::MAX,
        forall|i: int| 0 <= i < entries.len() ==> entry_storable(#[trigger] entries[i]),
        forall|i: int| 0 <= i < descs.len() ==> desc_storable(#[trigger] descs[i]),
        is_at(buf, pos, body_bytes(entries, descs)),
    ensures
        scan_body(buf, version, pos) == scan_tail(
            version,
            entries_map(entries, Map::empty()),
            descs,
            pos + body_bytes(entries, descs).len(),
        ),
{
    let es = entries_bytes(entries);
    let ds = descs_bytes(descs);
    lemma_pow256();
    lemma_scan_two(buf, pos, descs.len(), 8, entries.len(), 8, es + ds);
    lemma_is_at_split(buf, pos + 16, es, ds);
    lemma_scan_entries(buf, pos + 16, entries, Map::empty());
    lemma_scan_descs(buf, pos + 16 + es.len(), descs, seq![]);
    assert(Seq::<Desc>::empty() + descs =~= descs);
}

} // verus!
