//! Facts about the file format that readers and writers of such files rely on.

use super::format::{
    aligned, alignment_of, dtype_of, elements, kind_width, lemma_raw_injective, placed,
    scan_file, scan_kind, size_of_tensor, DType, Desc, FileModel,
    GgufError, Node, GGUF_MAGIC,
};
use super::layout::{desc_bytes, dims_bytes, entries_map, item_kind, kind_of, node_bytes, plain_code};
use super::{meta_float, meta_number, meta_text};
use crate::bytes::{le_bytes, le_value, lemma_le_bytes_len, lemma_le_round_trip, lemma_pow256};
use crate::quant::{Block, BlockIQ2XXS, BlockQ2K, BlockQ4K, BlockQ8K};
use vstd::prelude::*;
use vstd::utf8::encode_utf8;

verus! {

/// The number of each format, as other programs write it.
pub proof fn lemma_format_numbers(d: DType)
    ensures
        match d {
            DType::F32 => dtype_of(0) == Ok::<DType, GgufError>(d),
            DType::F16 => dtype_of(1) == Ok::<DType, GgufError>(d),
            DType::Q4_0 => dtype_of(2) == Ok::<DType, GgufError>(d),
            DType::Q4_1 => dtype_of(3) == Ok::<DType, GgufError>(d),
            DType::Q5_0 => dtype_of(6) == Ok::<DType, GgufError>(d),
            DType::Q5_1 => dtype_of(7) == Ok::<DType, GgufError>(d),
            DType::Q8_0 => dtype_of(8) == Ok::<DType, GgufError>(d),
            DType::Q8_1 => dtype_of(9) == Ok::<DType, GgufError>(d),
            DType::Q2_K => dtype_of(10) == Ok::<DType, GgufError>(d),
            DType::Q3_K => dtype_of(11) == Ok::<DType, GgufError>(d),
            DType::Q4_K => dtype_of(12) == Ok::<DType, GgufError>(d),
            DType::Q5_K => dtype_of(13) == Ok::<DType, GgufError>(d),
            DType::Q6_K => dtype_of(14) == Ok::<DType, GgufError>(d),
            DType::Q8_K => dtype_of(15) == Ok::<DType, GgufError>(d),
            DType::IQ2_XXS => dtype_of(16) == Ok::<DType, GgufError>(d),
            DType::IQ2_XS => dtype_of(17) == Ok::<DType, GgufError>(d),
            DType::IQ3_XXS => dtype_of(18) == Ok::<DType, GgufError>(d),
            DType::IQ1_S => dtype_of(19) == Ok::<DType, GgufError>(d),
            DType::IQ4_NL => dtype_of(20) == Ok::<DType, GgufError>(d),
            DType::IQ3_S => dtype_of(21) == Ok::<DType, GgufError>(d),
            DType::IQ2_S => dtype_of(22) == Ok::<DType, GgufError>(d),
            DType::IQ4_XS => dtype_of(23) == Ok::<DType, GgufError>(d),
            DType::I8 => dtype_of(24) == Ok::<DType, GgufError>(d),
            DType::I16 => dtype_of(25) == Ok::<DType, GgufError>(d),
            DType::I32 => dtype_of(26) == Ok::<DType, GgufError>(d),
            DType::I64 => dtype_of(27) == Ok::<DType, GgufError>(d),
            DType::F64 => dtype_of(28) == Ok::<DType, GgufError>(d),
            DType::IQ1_M => dtype_of(29) == Ok::<DType, GgufError>(d),
            DType::BF16 => dtype_of(30) == Ok::<DType, GgufError>(d),
        },
{
    lemma_raw_injective(d, dtype_of(d.raw())->Ok_0);
}

/// What a block of each format takes: the bytes of its quants, by bits per element,
/// and those of what it holds beside them.
pub proof fn lemma_format_blocks(d: DType)
    ensures
        match d {
            DType::F32 | DType::I32 => d.block() == (1nat, 4nat),
            DType::F16 | DType::BF16 | DType::I16 => d.block() == (1nat, 2nat),
            DType::F64 | DType::I64 => d.block() == (1nat, 8nat),
            DType::I8 => d.block() == (1nat, 1nat),
            // Four, five and eight bits for each of 32 elements, and one or two
            // half-precision numbers.
            DType::Q4_0 | DType::IQ4_NL => d.block() == (32nat, (4int * 32 / 8 + 2) as nat),
            DType::Q4_1 => d.block() == (32nat, (4int * 32 / 8 + 4) as nat),
            DType::Q5_0 => d.block() == (32nat, (5int * 32 / 8 + 2) as nat),
            DType::Q5_1 => d.block() == (32nat, (5int * 32 / 8 + 4) as nat),
            DType::Q8_0 => d.block() == (32nat, (8int * 32 / 8 + 2) as nat),
            DType::Q8_1 => d.block() == (32nat, (8int * 32 / 8 + 4) as nat),
            // Two to eight bits for each of 256 elements, their scales, and one or
            // two numbers.
            DType::Q2_K => d.block() == (256nat, (2int * 256 / 8 + 16 + 4) as nat),
            DType::Q3_K => d.block() == (256nat, (3int * 256 / 8 + 12 + 2) as nat),
            DType::Q4_K => d.block() == (256nat, (4int * 256 / 8 + 12 + 4) as nat),
            DType::Q5_K => d.block() == (256nat, (5int * 256 / 8 + 12 + 4) as nat),
            DType::Q6_K => d.block() == (256nat, (6int * 256 / 8 + 16 + 2) as nat),
            DType::Q8_K => d.block() == (256nat, (8int * 256 / 8 + 2 * 16 + 4) as nat),
            // A grid index and signs for each eight elements, and a number.
            DType::IQ2_XXS => d.block() == (256nat, (2int * 256 / 8 + 2) as nat),
            DType::IQ2_XS => d.block() == (256nat, (2int * 256 / 8 + 8 + 2) as nat),
            DType::IQ2_S => d.block() == (256nat, (2int * 256 / 8 + 8 + 8 + 2) as nat),
            DType::IQ3_XXS => d.block() == (256nat, (3int * 256 / 8 + 2) as nat),
            DType::IQ3_S => d.block() == (256nat, (3int * 256 / 8 + 8 + 4 + 2) as nat),
            DType::IQ1_S => d.block() == (256nat, (1int * 256 / 8 + 2 * 8 + 2) as nat),
            DType::IQ1_M => d.block() == (256nat, (1int * 256 / 8 + 2 * 8 + 8) as nat),
            DType::IQ4_XS => d.block() == (256nat, (4int * 256 / 8 + 4 + 2 + 2) as nat),
        },
{
}

/// A format that has a block layout takes as many bytes as a block of it.
pub proof fn lemma_format_structs()
    ensures
        dtype_of(10) is Ok && dtype_of(10)->Ok_0.block() == (256nat, BlockQ2K::bytes()),
        dtype_of(12) is Ok && dtype_of(12)->Ok_0.block() == (256nat, BlockQ4K::bytes()),
        dtype_of(15) is Ok && dtype_of(15)->Ok_0.block() == (256nat, BlockQ8K::bytes()),
        dtype_of(16) is Ok && dtype_of(16)->Ok_0.block() == (256nat, BlockIQ2XXS::bytes()),
{
    lemma_format_numbers(DType::Q2_K);
    lemma_format_numbers(DType::Q4_K);
    lemma_format_numbers(DType::Q8_K);
    lemma_format_numbers(DType::IQ2_XXS);
}

/// The number of elements is the product of the dimensions.
pub proof fn lemma_elements_product(a: Seq<u64>, b: Seq<u64>)
    ensures
        elements(Seq::<u64>::empty()) == 1,
        a.len() == 1 ==> elements(a) == a[0],
        elements(a + b) == elements(a) * elements(b),
    decreases b.len(),
{
    if a.len() == 1 {
        assert(elements(a.drop_last()) == 1);
        assert(1 * a[0] == a[0]);
    }
    if b.len() == 0 {
        assert(a + b =~= a);
        assert(elements(a) * 1 == elements(a));
    } else {
        lemma_elements_product(a, b.drop_last());
        assert((a + b).drop_last() =~= a + b.drop_last());
        let (x, y, z) = (elements(a), elements(b.drop_last()), b.last() as nat);
        assert(x * y * z == x * (y * z)) by (nonlinear_arith);
    }
}

/// A tensor has a size exactly if its elements fill whole blocks, and then as many
/// bytes as those blocks.
pub proof fn lemma_size_in_blocks(d: DType, shape: Seq<u64>, n: nat)
    ensures
        elements(shape) == n * d.block().0 && n * d.block().0 <= u64::MAX && n * d.block().1
            <= u64::MAX ==> size_of_tensor(d, shape) == Ok::<u64, GgufError>(
            (n * d.block().1) as u64,
        ),
        elements(shape) % d.block().0 != 0 ==> size_of_tensor(d, shape) is Err,
        size_of_tensor(d, shape) is Ok ==> size_of_tensor(d, shape)->Ok_0 * d.block().0
            == elements(shape) * d.block().1,
{
    let (block, bytes) = d.block();
    lemma_format_blocks(d);
    let e = elements(shape);
    if e == n * block {
        vstd::arithmetic::div_mod::lemma_div_multiples_vanish(n as int, block as int);
        vstd::arithmetic::div_mod::lemma_mod_multiples_basic(n as int, block as int);
        assert(n * block == block * n) by (nonlinear_arith);
    }
    if e % block == 0 {
        vstd::arithmetic::div_mod::lemma_fundamental_div_mod(e as int, block as int);
        let q = e / block;
        assert(q * bytes * block == (block * q) * bytes) by (nonlinear_arith);
    }
}

/// A file starts with the letters "GGUF".
pub proof fn lemma_magic()
    ensures
        le_bytes(GGUF_MAGIC as nat, 4) == seq![0x47u8, 0x47, 0x55, 0x46],
{
    reveal_with_fuel(le_bytes, 5);
    assert(le_bytes(GGUF_MAGIC as nat, 4) =~= seq![0x47u8, 0x47, 0x55, 0x46]);
}

/// A file of another kind, or of a version other than two and three, is refused,
/// whatever follows.
pub proof fn lemma_other_files_refused(magic: u32, version: u32, rest: Seq<u8>)
    requires
        (le_bytes(magic as nat, 4) + (le_bytes(version as nat, 4) + rest)).len() <= usize::MAX,
    ensures
        ({
            let r = scan_file(le_bytes(magic as nat, 4) + (le_bytes(version as nat, 4) + rest));
            &&& magic != 0x4655_4747 ==> r == Err::<FileModel, GgufError>(GgufError::BadMagic(magic))
            &&& magic == 0x4655_4747 && version != 2 && version != 3 ==> r == Err::<FileModel, GgufError>(
                GgufError::UnsupportedVersion(version),
            )
        }),
{
    let (m, v) = (le_bytes(magic as nat, 4), le_bytes(version as nat, 4));
    let buf = m + (v + rest);
    lemma_pow256();
    lemma_le_bytes_len(magic as nat, 4);
    lemma_le_bytes_len(version as nat, 4);
    lemma_le_round_trip(magic as nat, 4);
    lemma_le_round_trip(version as nat, 4);
    assert(buf.subrange(0, 4) =~= m);
    assert(buf.subrange(4, 8) =~= v);
}

/// How many bytes a stored value takes: numbers by their width, truth values one,
/// strings eight for their length and their bytes.
pub proof fn lemma_value_sizes(n: Node)
    ensures
        match n {
            Node::U8(_) | Node::I8(_) | Node::Bool(_) => node_bytes(n).len() == 1,
            Node::U16(_) | Node::I16(_) => node_bytes(n).len() == 2,
            Node::U32(_) | Node::I32(_) | Node::F32(_) => node_bytes(n).len() == 4,
            Node::U64(_) | Node::I64(_) | Node::F64(_) => node_bytes(n).len() == 8,
            Node::Text(s) => node_bytes(n).len() == 8 + encode_utf8(s).len(),
            Node::List(items) => items.len() == 0 ==> node_bytes(n).len() == 12,
        },
{
    match n {
        Node::Text(s) => {
            lemma_le_bytes_len(encode_utf8(s).len(), 8);
        },
        Node::List(items) => {
            lemma_le_bytes_len(item_kind(items) as nat, 4);
            lemma_le_bytes_len(items.len(), 8);
        },
        _ => {
            lemma_le_bytes_len(plain_code(n), kind_width(kind_of(n)));
        },
    }
}

/// The number of each kind of value, as other programs write it.
pub proof fn lemma_kind_numbers(n: Node)
    ensures
        match n {
            Node::U8(_) => kind_of(n) == 0,
            Node::I8(_) => kind_of(n) == 1,
            Node::U16(_) => kind_of(n) == 2,
            Node::I16(_) => kind_of(n) == 3,
            Node::U32(_) => kind_of(n) == 4,
            Node::I32(_) => kind_of(n) == 5,
            Node::F32(_) => kind_of(n) == 6,
            Node::Bool(_) => kind_of(n) == 7,
            Node::Text(_) => kind_of(n) == 8,
            Node::List(_) => kind_of(n) == 9,
            Node::U64(_) => kind_of(n) == 10,
            Node::I64(_) => kind_of(n) == 11,
            Node::F64(_) => kind_of(n) == 12,
        },
{
}

/// Any byte but zero is a true truth value, and kinds beyond the last are refused.
pub proof fn lemma_odd_values(buf: Seq<u8>, pos: int, kind: u32)
    requires
        0 <= pos < buf.len() <= usize::MAX,
    ensures
        scan_kind(buf, pos, 7) == Ok::<(Node, int), GgufError>(
            (Node::Bool(buf[pos] != 0), pos + 1),
        ),
        kind > 12 ==> scan_kind(buf, pos, kind) == Err::<(Node, int), GgufError>(
            GgufError::UnknownKind(kind),
        ),
{
    let one = buf.subrange(pos, pos + 1);
    reveal_with_fuel(le_value, 2);
    assert(one.drop_first() =~= Seq::<u8>::empty());
    assert(le_value(one) == buf[pos]);
}

/// The tensor data starts at the first multiple of the alignment that is not before
/// the end of the descriptions.
pub proof fn lemma_aligned(pos: int, alignment: int)
    requires
        0 <= pos,
        0 < alignment,
    ensures
        pos <= aligned(pos, alignment) < pos + alignment,
        aligned(pos, alignment) % alignment == 0,
{
    let r = pos % alignment;
    vstd::arithmetic::div_mod::lemma_mod_bound(pos, alignment);
    vstd::arithmetic::div_mod::lemma_fundamental_div_mod(pos, alignment);
    if r != 0 {
        let q = pos / alignment;
        assert(pos - r + alignment == (q + 1) * alignment) by (nonlinear_arith)
            requires
                pos == alignment * q + r,
        ;
        vstd::arithmetic::div_mod::lemma_mod_multiples_basic(q + 1, alignment);
    }
}

/// The alignment is the number under its key, and 32 where there is none.
pub proof fn lemma_alignment(metadata: Map<Seq<char>, Node>, a: u32)
    ensures
        !metadata.dom().contains("general.alignment"@) ==> alignment_of(metadata) == 32,
        alignment_of(metadata.insert("general.alignment"@, Node::U32(a))) == a,
        a <= i32::MAX ==> alignment_of(
            metadata.insert("general.alignment"@, Node::I32(a as i32)),
        ) == a,
{
}

/// A tensor lies as far behind the start of the data as its description says, and
/// keeps its name, format and shape.
pub proof fn lemma_placed(d: Desc, start: u64)
    ensures
        match placed(d, start) {
            Ok(t) => t.offset == start + d.offset && t.name == d.name && t.dtype == d.dtype
                && t.shape == d.shape && size_of_tensor(d.dtype, d.shape) == Ok::<u64, GgufError>(
                t.size_bytes,
            ),
            Err(_) => start + d.offset > u64::MAX || size_of_tensor(d.dtype, d.shape) is Err,
        },
{
}

/// A number under a key is had modulo 2^32 from the four wide kinds of integers, and
/// from no other kind; a floating-point number only from its two kinds, a text only
/// from a text; and what stands under other keys does not matter.
pub proof fn lemma_metadata_lookup(
    metadata: Map<Seq<char>, Node>,
    key: Seq<char>,
    other: Seq<char>,
    v: Node,
)
    ensures
        other != key ==> meta_number(metadata.insert(other, v), key) == meta_number(metadata, key)
            && meta_float(metadata.insert(other, v), key) == meta_float(metadata, key)
            && meta_text(metadata.insert(other, v), key) == meta_text(metadata, key),
        !metadata.dom().contains(key) ==> meta_number(metadata, key) is None && meta_float(
            metadata,
            key,
        ) is None && meta_text(metadata, key) is None,
        match v {
            Node::U32(x) => meta_number(metadata.insert(key, v), key) == Some(x),
            Node::I32(x) => x >= 0 ==> meta_number(metadata.insert(key, v), key) == Some(x as u32),
            Node::U64(x) => meta_number(metadata.insert(key, v), key) == Some(
                (x % 0x1_0000_0000) as u32,
            ),
            Node::I64(x) => 0 <= x <= u32::MAX ==> meta_number(metadata.insert(key, v), key)
                == Some(x as u32),
            Node::F32(x) => meta_float(metadata.insert(key, v), key) == Some(x),
            Node::F64(_) => meta_float(metadata.insert(key, v), key) is Some,
            Node::Text(s) => meta_text(metadata.insert(key, v), key) == Some(s),
            _ => true,
        },
        !(v is U32) && !(v is I32) && !(v is U64) && !(v is I64) ==> meta_number(
            metadata.insert(key, v),
            key,
        ) is None,
        !(v is F32) && !(v is F64) ==> meta_float(metadata.insert(key, v), key) is None,
        !(v is Text) ==> meta_text(metadata.insert(key, v), key) is None,
{
}

/// Of several metadata entries of one name the last one counts, and entries of other
/// names do not matter.
pub proof fn lemma_last_entry_counts(
    entries: Seq<(Seq<char>, Node)>,
    acc: Map<Seq<char>, Node>,
    i: int,
)
    requires
        0 <= i < entries.len(),
        forall|j: int| i < j < entries.len() ==> (#[trigger] entries[j]).0 != entries[i].0,
    ensures
        entries_map(entries, acc).dom().contains(entries[i].0),
        entries_map(entries, acc)[entries[i].0] == entries[i].1,
    decreases entries.len(),
{
    let rest = entries.drop_first();
    let more = acc.insert(entries[0].0, entries[0].1);
    if i > 0 {
        assert forall|j: int| i - 1 < j < rest.len() implies (#[trigger] rest[j]).0 != rest[i
            - 1].0 by {
            assert(rest[j] == entries[j + 1]);
        }
        lemma_last_entry_counts(rest, more, i - 1);
        assert(rest[i - 1] == entries[i]);
    } else {
        lemma_absent_entry(rest, more, entries[0].0);
    }
}

/// A name that no entry has keeps what it had.
pub proof fn lemma_absent_entry(
    entries: Seq<(Seq<char>, Node)>,
    acc: Map<Seq<char>, Node>,
    name: Seq<char>,
)
    requires
        forall|j: int|
            0 <= j < entries.len() ==> (#[trigger] entries[j]).0 != name,
    ensures
        entries_map(entries, acc).dom().contains(name) == acc.dom().contains(name),
        acc.dom().contains(name) ==> entries_map(entries, acc)[name] == acc[name],
    decreases entries.len(),
{
    if entries.len() > 0 {
        let rest = entries.drop_first();
        assert forall|j: int| 0 <= j < rest.len() implies (#[trigger] rest[j]).0 != name by {
            assert(rest[j] == entries[j + 1]);
        }
        assert(entries[0].0 != name);
        lemma_absent_entry(rest, acc.insert(entries[0].0, entries[0].1), name);
    }
}

/// Where the fields of a tensor description stand: the length of the name and the name,
/// the number of dimensions and the dimensions, the number of the format, the offset.
pub proof fn lemma_description_fields(d: Desc, i: int)
    requires
        encode_utf8(d.name).len() <= u64::MAX,
        d.shape.len() <= u32::MAX,
        0 <= i < d.shape.len(),
    ensures
        ({
            let b = desc_bytes(d);
            let n = encode_utf8(d.name).len() as int;
            let k = d.shape.len() as int;
            &&& b.len() == 8 + n + 4 + 8 * k + 4 + 8
            &&& le_value(b.subrange(0, 8)) == n
            &&& b.subrange(8, 8 + n) == encode_utf8(d.name)
            &&& le_value(b.subrange(8 + n, 12 + n)) == k
            &&& le_value(b.subrange(12 + n + 8 * i, 20 + n + 8 * i)) == d.shape[i]
            &&& le_value(b.subrange(12 + n + 8 * k, 16 + n + 8 * k)) == d.dtype.raw()
            &&& le_value(b.subrange(16 + n + 8 * k, 24 + n + 8 * k)) == d.offset
        }),
{
    let b = desc_bytes(d);
    let name = encode_utf8(d.name);
    let n = name.len() as int;
    let k = d.shape.len() as int;
    let (a, c) = (le_bytes(name.len(), 8), le_bytes(d.shape.len(), 4));
    let (r, o) = (le_bytes(d.dtype.raw() as nat, 4), le_bytes(d.offset as nat, 8));
    let dims = dims_bytes(d.shape);
    lemma_pow256();
    lemma_le_bytes_len(name.len(), 8);
    lemma_le_bytes_len(d.shape.len(), 4);
    lemma_le_bytes_len(d.dtype.raw() as nat, 4);
    lemma_le_bytes_len(d.offset as nat, 8);
    lemma_le_round_trip(name.len(), 8);
    lemma_le_round_trip(d.shape.len(), 4);
    lemma_le_round_trip(d.dtype.raw() as nat, 4);
    lemma_le_round_trip(d.offset as nat, 8);
    lemma_dimension(d.shape, i);
    assert(b.subrange(0, 8) =~= a);
    assert(b.subrange(8, 8 + n) =~= name);
    assert(b.subrange(8 + n, 12 + n) =~= c);
    assert(b.subrange(12 + n + 8 * i, 20 + n + 8 * i) =~= dims.subrange(8 * i, 8 * i + 8));
    assert(b.subrange(12 + n + 8 * k, 16 + n + 8 * k) =~= r);
    assert(b.subrange(16 + n + 8 * k, 24 + n + 8 * k) =~= o);
}

proof fn lemma_dimension(shape: Seq<u64>, i: int)
    requires
        0 <= i < shape.len(),
    ensures
        dims_bytes(shape).len() == 8 * shape.len(),
        le_value(dims_bytes(shape).subrange(8 * i, 8 * i + 8)) == shape[i],
    decreases shape.len(),
{
    let first = le_bytes(shape[0] as nat, 8);
    let rest = shape.drop_first();
    let b = dims_bytes(shape);
    lemma_pow256();
    lemma_le_bytes_len(shape[0] as nat, 8);
    lemma_le_round_trip(shape[0] as nat, 8);
    if rest.len() > 0 {
        lemma_dimension(rest, if i > 0 {
            i - 1
        } else {
            0
        });
    } else {
        assert(dims_bytes(rest).len() == 0);
    }
    if i == 0 {
        assert(b.subrange(0, 8) =~= first);
    } else {
        assert(b.subrange(8 * i, 8 * i + 8) =~= dims_bytes(rest).subrange(
            8 * (i - 1),
            8 * (i - 1) + 8,
        ));
    }
}

} // verus!
