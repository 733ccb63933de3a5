//! What the bytes of a GGUF file mean.
//!
//! A file starts with a magic number, a version, the number of tensors and the
//! number of metadata entries. The entries follow, then the tensor
//! descriptions, then, at the next aligned position, the tensor data. All
//! numbers are little-endian.

use crate::bytes::{le_value, signed_16, signed_32, signed_64, signed_8};
use vstd::prelude::*;
use vstd::utf8::{decode_utf8, valid_utf8};

verus! {

/// Number that a file starts with: the letters "GGUF".
pub const GGUF_MAGIC: u32 = 0x4655_4747;

pub const GGUF_VERSION_MIN: u32 = 2;

pub const GGUF_VERSION_MAX: u32 = 3;

/// Alignment of the tensor data where the metadata gives none.
pub const DEFAULT_ALIGNMENT: u64 = 32;

/// Tensor element formats.
#[allow(non_camel_case_types)]
#[derive(Debug, Clone, Copy, PartialEq, Eq, Structural)]
pub enum DType {
    F32,
    F16,
    Q4_0,
    Q4_1,
    Q5_0,
    Q5_1,
    Q8_0,
    Q8_1,
    Q2_K,
    Q3_K,
    Q4_K,
    Q5_K,
    Q6_K,
    Q8_K,
    IQ2_XXS,
    IQ2_XS,
    IQ3_XXS,
    IQ1_S,
    IQ4_NL,
    IQ3_S,
    IQ2_S,
    IQ4_XS,
    I8,
    I16,
    I32,
    I64,
    F64,
    IQ1_M,
    BF16,
}

/// Why a file or a tensor cannot be read.
#[derive(Debug)]
pub enum GgufError {
    /// A length that no memory can hold.
    Overflow,
    /// The file ends inside a field.
    ShortRead,
    BadMagic(u32),
    UnsupportedVersion(u32),
    /// A string that is not UTF-8: the length of its longest well-formed prefix,
    /// and that of the malformed sequence behind it, unless the string ends there.
    NonUtf8(usize, Option<usize>),
    UnknownKind(u32),
    UnknownDtype(u32),
    /// An alignment of zero.
    ZeroAlignment,
    /// A tensor whose number of elements or bytes exceeds 64 bits.
    SizeOverflow,
    /// A tensor whose position exceeds 64 bits.
    OffsetOverflow,
    /// An element count that is no multiple of the format's block.
    Ragged(u64, u64, DType),
    /// A tensor whose end exceeds the address space.
    TensorOverflow,
    /// A tensor, by its name, that extends past the end of the file.
    PastEnd(String),
}

impl DType {
    /// The number that stands for the format in a file.
    pub open spec fn raw(self) -> u32 {
        match self {
            DType::F32 => 0,
            DType::F16 => 1,
            DType::Q4_0 => 2,
            DType::Q4_1 => 3,
            DType::Q5_0 => 6,
            DType::Q5_1 => 7,
            DType::Q8_0 => 8,
            DType::Q8_1 => 9,
            DType::Q2_K => 10,
            DType::Q3_K => 11,
            DType::Q4_K => 12,
            DType::Q5_K => 13,
            DType::Q6_K => 14,
            DType::Q8_K => 15,
            DType::IQ2_XXS => 16,
            DType::IQ2_XS => 17,
            DType::IQ3_XXS => 18,
            DType::IQ1_S => 19,
            DType::IQ4_NL => 20,
            DType::IQ3_S => 21,
            DType::IQ2_S => 22,
            DType::IQ4_XS => 23,
            DType::I8 => 24,
            DType::I16 => 25,
            DType::I32 => 26,
            DType::I64 => 27,
            DType::F64 => 28,
            DType::IQ1_M => 29,
            DType::BF16 => 30,
        }
    }

    /// Elements per block, and bytes per block.
    pub open spec fn block(self) -> (nat, nat) {
        match self {
            DType::F32 => (1, 4),
            DType::F16 => (1, 2),
            DType::BF16 => (1, 2),
            DType::F64 => (1, 8),
            DType::I8 => (1, 1),
            DType::I16 => (1, 2),
            DType::I32 => (1, 4),
            DType::I64 => (1, 8),
            DType::Q4_0 => (32, 18),
            DType::Q4_1 => (32, 20),
            DType::Q5_0 => (32, 22),
            DType::Q5_1 => (32, 24),
            DType::Q8_0 => (32, 34),
            DType::Q8_1 => (32, 36),
            DType::Q2_K => (256, 84),
            DType::Q3_K => (256, 110),
            DType::Q4_K => (256, 144),
            DType::Q5_K => (256, 176),
            DType::Q6_K => (256, 210),
            DType::Q8_K => (256, 292),
            DType::IQ2_XXS => (256, 66),
            DType::IQ2_XS => (256, 74),
            DType::IQ3_XXS => (256, 98),
            DType::IQ1_S => (256, 50),
            DType::IQ4_NL => (32, 18),
            DType::IQ3_S => (256, 110),
            DType::IQ2_S => (256, 82),
            DType::IQ4_XS => (256, 136),
            DType::IQ1_M => (256, 56),
        }
    }

    /// The format that a number in a file stands for. The numbers of retired
    /// formats, and those above the last, stand for none.
    pub fn from_raw(v: u32) -> (r: Result<DType, GgufError>)
        ensures
            match r {
                Ok(d) => d.raw() == v,
                Err(e) => e == GgufError::UnknownDtype(v) && forall|d: DType|
                    #[trigger] d.raw() != v,
            },
            r == dtype_of(v),
            v == 0 ==> r == Ok::<DType, GgufError>(DType::F32),
            v == 1 ==> r == Ok::<DType, GgufError>(DType::F16),
            v == 2 ==> r == Ok::<DType, GgufError>(DType::Q4_0),
            v == 3 ==> r == Ok::<DType, GgufError>(DType::Q4_1),
            v == 6 ==> r == Ok::<DType, GgufError>(DType::Q5_0),
            v == 7 ==> r == Ok::<DType, GgufError>(DType::Q5_1),
            v == 8 ==> r == Ok::<DType, GgufError>(DType::Q8_0),
            v == 9 ==> r == Ok::<DType, GgufError>(DType::Q8_1),
            v == 10 ==> r == Ok::<DType, GgufError>(DType::Q2_K),
            v == 11 ==> r == Ok::<DType, GgufError>(DType::Q3_K),
            v == 12 ==> r == Ok::<DType, GgufError>(DType::Q4_K),
            v == 13 ==> r == Ok::<DType, GgufError>(DType::Q5_K),
            v == 14 ==> r == Ok::<DType, GgufError>(DType::Q6_K),
            v == 15 ==> r == Ok::<DType, GgufError>(DType::Q8_K),
            v == 16 ==> r == Ok::<DType, GgufError>(DType::IQ2_XXS),
            v == 17 ==> r == Ok::<DType, GgufError>(DType::IQ2_XS),
            v == 18 ==> r == Ok::<DType, GgufError>(DType::IQ3_XXS),
            v == 19 ==> r == Ok::<DType, GgufError>(DType::IQ1_S),
            v == 20 ==> r == Ok::<DType, GgufError>(DType::IQ4_NL),
            v == 21 ==> r == Ok::<DType, GgufError>(DType::IQ3_S),
            v == 22 ==> r == Ok::<DType, GgufError>(DType::IQ2_S),
            v == 23 ==> r == Ok::<DType, GgufError>(DType::IQ4_XS),
            v == 24 ==> r == Ok::<DType, GgufError>(DType::I8),
            v == 25 ==> r == Ok::<DType, GgufError>(DType::I16),
            v == 26 ==> r == Ok::<DType, GgufError>(DType::I32),
            v == 27 ==> r == Ok::<DType, GgufError>(DType::I64),
            v == 28 ==> r == Ok::<DType, GgufError>(DType::F64),
            v == 29 ==> r == Ok::<DType, GgufError>(DType::IQ1_M),
            v == 30 ==> r == Ok::<DType, GgufError>(DType::BF16),
            v == 4 || v == 5 || v > 30 ==> r == Err::<DType, GgufError>(GgufError::UnknownDtype(v)),
    {
        let d: DType = match v {
            0 => DType::F32,
            1 => DType::F16,
            2 => DType::Q4_0,
            3 => DType::Q4_1,
            6 => DType::Q5_0,
            7 => DType::Q5_1,
            8 => DType::Q8_0,
            9 => DType::Q8_1,
            10 => DType::Q2_K,
            11 => DType::Q3_K,
            12 => DType::Q4_K,
            13 => DType::Q5_K,
            14 => DType::Q6_K,
            15 => DType::Q8_K,
            16 => DType::IQ2_XXS,
            17 => DType::IQ2_XS,
            18 => DType::IQ3_XXS,
            19 => DType::IQ1_S,
            20 => DType::IQ4_NL,
            21 => DType::IQ3_S,
            22 => DType::IQ2_S,
            23 => DType::IQ4_XS,
            24 => DType::I8,
            25 => DType::I16,
            26 => DType::I32,
            27 => DType::I64,
            28 => DType::F64,
            29 => DType::IQ1_M,
            30 => DType::BF16,
            other => {
                return Err(GgufError::UnknownDtype(other));
            },
        };
        proof {
            lemma_raw_injective(d, dtype_of(v)->Ok_0);
        }
        Ok(d)
    }
}

/// The format with the number `v`.
pub open spec fn dtype_of(v: u32) -> Result<DType, GgufError> {
    if exists|d: DType| #[trigger] d.raw() == v {
        Ok(choose|d: DType| #[trigger] d.raw() == v)
    } else {
        Err(GgufError::UnknownDtype(v))
    }
}

/// Different formats have different numbers.
pub proof fn lemma_raw_injective(a: DType, b: DType)
    requires
        a.raw() == b.raw(),
    ensures
        a == b,
{
}

/// A metadata value. Floating-point values are kept as their bits.
#[derive(Debug)]
pub enum Value {
    U8(u8),
    I8(i8),
    U16(u16),
    I16(i16),
    U32(u32),
    I32(i32),
    U64(u64),
    I64(i64),
    F32(u32),
    F64(u64),
    Bool(bool),
    String(String),
    Array(Vec<Value>),
}

/// The meaning of a metadata value.
#[verifier::ext_equal]
pub ghost enum Node {
    U8(u8),
    I8(i8),
    U16(u16),
    I16(i16),
    U32(u32),
    I32(i32),
    U64(u64),
    I64(i64),
    F32(u32),
    F64(u64),
    Bool(bool),
    Text(Seq<char>),
    List(Seq<Node>),
}

impl View for Value {
    type V = Node;

    open spec fn view(&self) -> Node {
        node_of(*self)
    }
}

pub open spec fn node_of(v: Value) -> Node
    decreases v,
{
    match v {
        Value::U8(x) => Node::U8(x),
        Value::I8(x) => Node::I8(x),
        Value::U16(x) => Node::U16(x),
        Value::I16(x) => Node::I16(x),
        Value::U32(x) => Node::U32(x),
        Value::I32(x) => Node::I32(x),
        Value::U64(x) => Node::U64(x),
        Value::I64(x) => Node::I64(x),
        Value::F32(x) => Node::F32(x),
        Value::F64(x) => Node::F64(x),
        Value::Bool(x) => Node::Bool(x),
        Value::String(s) => Node::Text(s@),
        Value::Array(items) => Node::List(
            Seq::new(
                items@.len(),
                |i: int|
                    if 0 <= i < items@.len() {
                        node_of(items@[i])
                    } else {
                        Node::Bool(false)
                    },
            ),
        ),
    }
}

/// The `n` bytes at `pos`: where they end, or why they cannot be had.
pub open spec fn scan_take(buf: Seq<u8>, pos: int, n: nat) -> Result<int, GgufError> {
    if pos + n > usize::MAX {
        Err(GgufError::Overflow)
    } else if pos + n > buf.len() {
        Err(GgufError::ShortRead)
    } else {
        Ok(pos + n)
    }
}

/// The number in the `n` bytes at `pos`, and the position behind it.
pub open spec fn scan_le(buf: Seq<u8>, pos: int, n: nat) -> Result<(nat, int), GgufError> {
    match scan_take(buf, pos, n) {
        Ok(end) => Ok((le_value(buf.subrange(pos, end)), end)),
        Err(e) => Err(e),
    }
}

/// The longest well-formed prefix of `bytes` has length `n`.
pub open spec fn is_valid_up_to(bytes: Seq<u8>, n: int) -> bool {
    &&& 0 <= n <= bytes.len()
    &&& valid_utf8(bytes.take(n))
    &&& forall|m: int| n < m <= bytes.len() ==> !valid_utf8(#[trigger] bytes.take(m))
}

/// The length of the longest well-formed prefix.
pub open spec fn valid_up_to(bytes: Seq<u8>) -> int {
    choose|n: int| is_valid_up_to(bytes, n)
}

/// There is only one longest well-formed prefix.
pub proof fn lemma_valid_up_to_unique(bytes: Seq<u8>, a: int, b: int)
    requires
        is_valid_up_to(bytes, a),
        is_valid_up_to(bytes, b),
    ensures
        a == b,
{
    if a < b {
        assert(!valid_utf8(bytes.take(b)));
    } else if b < a {
        assert(!valid_utf8(bytes.take(a)));
    }
}

/// The length that the standard library gives for the malformed sequence behind
/// the longest well-formed prefix of bytes that are not UTF-8; none where the bytes
/// end inside a sequence.
pub uninterp spec fn utf8_malformed_len(bytes: Seq<u8>) -> Option<usize>;

/// The string at `pos`: a 64-bit length, then as many bytes of UTF-8.
pub open spec fn scan_string(buf: Seq<u8>, pos: int) -> Result<(Seq<char>, int), GgufError> {
    match scan_le(buf, pos, 8) {
        Err(e) => Err(e),
        Ok((n, p)) => match scan_take(buf, p, n) {
            Err(e) => Err(e),
            Ok(end) => if valid_utf8(buf.subrange(p, end)) {
                Ok((decode_utf8(buf.subrange(p, end)), end))
            } else {
                Err(
                    GgufError::NonUtf8(
                        valid_up_to(buf.subrange(p, end)) as usize,
                        utf8_malformed_len(buf.subrange(p, end)),
                    ),
                )
            },
        },
    }
}

/// The number of bytes of a value of fixed width, by its kind.
pub open spec fn kind_width(kind: u32) -> nat {
    if kind == 0 || kind == 1 || kind == 7 {
        1
    } else if kind == 2 || kind == 3 {
        2
    } else if kind == 4 || kind == 5 || kind == 6 {
        4
    } else {
        8
    }
}

/// The value of fixed width that `v` encodes, by its kind.
pub open spec fn kind_node(kind: u32, v: nat) -> Node {
    if kind == 0 {
        Node::U8(v as u8)
    } else if kind == 1 {
        Node::I8(signed_8(v as u8))
    } else if kind == 2 {
        Node::U16(v as u16)
    } else if kind == 3 {
        Node::I16(signed_16(v as u16))
    } else if kind == 4 {
        Node::U32(v as u32)
    } else if kind == 5 {
        Node::I32(signed_32(v as u32))
    } else if kind == 6 {
        Node::F32(v as u32)
    } else if kind == 7 {
        Node::Bool(v != 0)
    } else if kind == 10 {
        Node::U64(v as u64)
    } else if kind == 11 {
        Node::I64(signed_64(v as u64))
    } else {
        Node::F64(v as u64)
    }
}

/// The value of the given kind at `pos`. A string is kind 8; a list, kind 9, is
/// the kind of its items, their number, and the items.
pub open spec fn scan_kind(buf: Seq<u8>, pos: int, kind: u32) -> Result<(Node, int), GgufError>
    decreases buf.len() - pos, 0nat,
{
    if kind == 8 {
        match scan_string(buf, pos) {
            Ok((s, end)) => Ok((Node::Text(s), end)),
            Err(e) => Err(e),
        }
    } else if kind == 9 {
        match scan_le(buf, pos, 4) {
            Err(e) => Err(e),
            Ok((elem, p)) => match scan_le(buf, p, 8) {
                Err(e) => Err(e),
                Ok((n, q)) => match scan_items(buf, q, elem as u32, n, seq![]) {
                    Err(e) => Err(e),
                    Ok((items, end)) => Ok((Node::List(items), end)),
                },
            },
        }
    } else if kind <= 12 {
        match scan_le(buf, pos, kind_width(kind)) {
            Ok((v, end)) => Ok((kind_node(kind, v), end)),
            Err(e) => Err(e),
        }
    } else {
        Err(GgufError::UnknownKind(kind))
    }
}

/// `n` values of one kind at `pos`, behind those in `acc`. (No value ends
/// before it starts, so the condition on `p` always holds.)
pub open spec fn scan_items(
    buf: Seq<u8>,
    pos: int,
    kind: u32,
    n: nat,
    acc: Seq<Node>,
) -> Result<(Seq<Node>, int), GgufError>
    decreases buf.len() - pos, n,
{
    if n == 0 {
        Ok((acc, pos))
    } else {
        match scan_kind(buf, pos, kind) {
            Err(e) => Err(e),
            Ok((x, p)) => if pos <= p <= buf.len() {
                scan_items(buf, p, kind, (n - 1) as nat, acc.push(x))
            } else {
                Err(GgufError::ShortRead)
            },
        }
    }
}

/// The value at `pos`: its kind, then itself.
pub open spec fn scan_value(buf: Seq<u8>, pos: int) -> Result<(Node, int), GgufError> {
    match scan_le(buf, pos, 4) {
        Err(e) => Err(e),
        Ok((kind, p)) => scan_kind(buf, p, kind as u32),
    }
}

/// `n` metadata entries at `pos`, on top of those in `acc`. An entry is a name
/// and a value; a name that comes again replaces the value.
pub open spec fn scan_entries(
    buf: Seq<u8>,
    pos: int,
    n: nat,
    acc: Map<Seq<char>, Node>,
) -> Result<(Map<Seq<char>, Node>, int), GgufError>
    decreases n,
{
    if n == 0 {
        Ok((acc, pos))
    } else {
        match scan_string(buf, pos) {
            Err(e) => Err(e),
            Ok((key, p)) => match scan_value(buf, p) {
                Err(e) => Err(e),
                Ok((v, q)) => scan_entries(buf, q, (n - 1) as nat, acc.insert(key, v)),
            },
        }
    }
}

/// `n` dimensions at `pos`, behind those in `acc`.
pub open spec fn scan_dims(buf: Seq<u8>, pos: int, n: nat, acc: Seq<u64>) -> Result<
    (Seq<u64>, int),
    GgufError,
>
    decreases n,
{
    if n == 0 {
        Ok((acc, pos))
    } else {
        match scan_le(buf, pos, 8) {
            Err(e) => Err(e),
            Ok((d, p)) => scan_dims(buf, p, (n - 1) as nat, acc.push(d as u64)),
        }
    }
}

/// A tensor description: the offset counts from the start of the data.
#[verifier::ext_equal]
pub ghost struct Desc {
    pub name: Seq<char>,
    pub dtype: DType,
    pub shape: Seq<u64>,
    pub offset: u64,
}

/// The tensor description at `pos`: name, dimensions, format, offset.
pub open spec fn scan_desc(buf: Seq<u8>, pos: int) -> Result<(Desc, int), GgufError> {
    match scan_string(buf, pos) {
        Err(e) => Err(e),
        Ok((name, p)) => match scan_le(buf, p, 4) {
            Err(e) => Err(e),
            Ok((n_dims, q)) => match scan_dims(buf, q, n_dims, seq![]) {
                Err(e) => Err(e),
                Ok((shape, r)) => match scan_le(buf, r, 4) {
                    Err(e) => Err(e),
                    Ok((raw, s)) => match dtype_of(raw as u32) {
                        Err(e) => Err(e),
                        Ok(dtype) => match scan_le(buf, s, 8) {
                            Err(e) => Err(e),
                            Ok((offset, end)) => Ok(
                                (Desc { name, dtype, shape, offset: offset as u64 }, end),
                            ),
                        },
                    },
                },
            },
        },
    }
}

/// `n` tensor descriptions at `pos`, behind those in `acc`.
pub open spec fn scan_descs(buf: Seq<u8>, pos: int, n: nat, acc: Seq<Desc>) -> Result<
    (Seq<Desc>, int),
    GgufError,
>
    decreases n,
{
    if n == 0 {
        Ok((acc, pos))
    } else {
        match scan_desc(buf, pos) {
            Err(e) => Err(e),
            Ok((d, p)) => scan_descs(buf, p, (n - 1) as nat, acc.push(d)),
        }
    }
}

/// The number of elements of a tensor.
pub open spec fn elements(shape: Seq<u64>) -> nat
    decreases shape.len(),
{
    if shape.len() == 0 {
        1
    } else {
        elements(shape.drop_last()) * shape.last() as nat
    }
}

/// The number of bytes of a tensor: whole blocks of its format.
pub open spec fn size_of_tensor(dtype: DType, shape: Seq<u64>) -> Result<u64, GgufError> {
    let n = elements(shape);
    let (block, bytes) = dtype.block();
    if n > u64::MAX {
        Err(GgufError::SizeOverflow)
    } else if n % block != 0 {
        Err(GgufError::Ragged(n as u64, block as u64, dtype))
    } else if (n / block) * bytes > u64::MAX {
        Err(GgufError::SizeOverflow)
    } else {
        Ok(((n / block) * bytes) as u64)
    }
}

/// The alignment of the tensor data.
pub open spec fn alignment_of(metadata: Map<Seq<char>, Node>) -> u64 {
    let key = "general.alignment"@;
    if metadata.dom().contains(key) {
        match metadata[key] {
            Node::U32(v) => v as u64,
            Node::I32(v) => if v >= 0 {
                v as u64
            } else {
                (0x1_0000_0000_0000_0000 + v) as u64
            },
            _ => DEFAULT_ALIGNMENT,
        }
    } else {
        DEFAULT_ALIGNMENT
    }
}

/// The first multiple of `alignment` that is not below `pos`.
pub open spec fn aligned(pos: int, alignment: int) -> int {
    if pos % alignment == 0 {
        pos
    } else {
        pos - pos % alignment + alignment
    }
}

/// The meaning of a tensor's entry: the offset counts from the start of the
/// file.
#[verifier::ext_equal]
pub ghost struct TensorModel {
    pub name: Seq<char>,
    pub dtype: DType,
    pub shape: Seq<u64>,
    pub offset: u64,
    pub size_bytes: u64,
}

/// The entry of a described tensor, with the data at `data_offset`.
pub open spec fn placed(d: Desc, data_offset: u64) -> Result<TensorModel, GgufError> {
    match size_of_tensor(d.dtype, d.shape) {
        Err(e) => Err(e),
        Ok(size_bytes) => if data_offset + d.offset > u64::MAX {
            Err(GgufError::OffsetOverflow)
        } else {
            Ok(
                TensorModel {
                    name: d.name,
                    dtype: d.dtype,
                    shape: d.shape,
                    offset: (data_offset + d.offset) as u64,
                    size_bytes,
                },
            )
        },
    }
}

/// The entries of the described tensors from index `i` on, on top of those in
/// `acc`. A name that comes again replaces the entry.
pub open spec fn placed_all(
    descs: Seq<Desc>,
    i: int,
    data_offset: u64,
    acc: Map<Seq<char>, TensorModel>,
) -> Result<Map<Seq<char>, TensorModel>, GgufError>
    decreases descs.len() - i,
{
    if i < 0 || i >= descs.len() {
        Ok(acc)
    } else {
        match placed(descs[i], data_offset) {
            Err(e) => Err(e),
            Ok(t) => placed_all(descs, i + 1, data_offset, acc.insert(t.name, t)),
        }
    }
}

/// The meaning of a file, without its tensor data.
#[verifier::ext_equal]
pub ghost struct FileModel {
    pub version: u32,
    pub metadata: Map<Seq<char>, Node>,
    pub tensors: Map<Seq<char>, TensorModel>,
    pub data_offset: u64,
    pub alignment: u64,
}

/// The tensors of a file whose descriptions end at `pos`.
pub open spec fn scan_tail(
    version: u32,
    metadata: Map<Seq<char>, Node>,
    descs: Seq<Desc>,
    pos: int,
) -> Result<FileModel, GgufError> {
    let alignment = alignment_of(metadata);
    if alignment == 0 {
        Err(GgufError::ZeroAlignment)
    } else if aligned(pos, alignment as int) > u64::MAX {
        Err(GgufError::OffsetOverflow)
    } else {
        let data_offset = aligned(pos, alignment as int) as u64;
        match placed_all(descs, 0, data_offset, Map::empty()) {
            Err(e) => Err(e),
            Ok(tensors) => Ok(FileModel { version, metadata, tensors, data_offset, alignment }),
        }
    }
}

/// What is behind the version: counts, metadata, tensor descriptions.
pub open spec fn scan_body(buf: Seq<u8>, version: u32, pos: int) -> Result<FileModel, GgufError> {
    match scan_le(buf, pos, 8) {
        Err(e) => Err(e),
        Ok((n_tensors, p)) => match scan_le(buf, p, 8) {
            Err(e) => Err(e),
            Ok((n_kv, q)) => match scan_entries(buf, q, n_kv, Map::empty()) {
                Err(e) => Err(e),
                Ok((metadata, r)) => match scan_descs(buf, r, n_tensors, seq![]) {
                    Err(e) => Err(e),
                    Ok((descs, s)) => scan_tail(version, metadata, descs, s),
                },
            },
        },
    }
}

/// The meaning of a whole file.
pub open spec fn scan_file(buf: Seq<u8>) -> Result<FileModel, GgufError> {
    match scan_le(buf, 0, 4) {
        Err(e) => Err(e),
        Ok((magic, p)) => if magic != GGUF_MAGIC {
            Err(GgufError::BadMagic(magic as u32))
        } else {
            match scan_le(buf, p, 4) {
                Err(e) => Err(e),
                Ok((version, q)) => if version < GGUF_VERSION_MIN || version > GGUF_VERSION_MAX {
                    Err(GgufError::UnsupportedVersion(version as u32))
                } else {
                    scan_body(buf, version as u32, q)
                },
            }
        },
    }
}

} // verus!
