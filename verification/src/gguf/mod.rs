//! GGUF model files.
//!
//! A file is parsed from its bytes, which stay borrowed: tensor data is handed
//! out as slices of them.
//!
//! * [`format`]: what the bytes of a file mean
//! * [`reader`]: the parser of the primitive fields
//! * [`facts`]: what other programs rely on
//! * [`layout`]: how files are laid out, and that they read back as written
//! * [`message`]: the texts of the errors

pub mod facts;
pub mod format;
pub mod layout;
pub mod message;
pub mod reader;

pub use self::format::{DType, GgufError, Value};

use self::format::{
    alignment_of, elements, placed_all, scan_body, scan_desc, scan_descs, scan_dims, scan_entries,
    scan_file, size_of_tensor, Desc, FileModel, Node, TensorModel, DEFAULT_ALIGNMENT, GGUF_MAGIC,
    GGUF_VERSION_MAX, GGUF_VERSION_MIN,
};
use self::reader::Reader;
use crate::bytes::{low_32, low_u32, low_u32_signed};
use crate::double::{f64_to_f32, single_of};
use crate::table::Table;
use vstd::prelude::*;
use vstd::slice::slice_subrange;

verus! {

/// A parsed model file.
#[derive(Debug)]
pub struct Gguf<'a> {
    /// The whole file.
    pub data: &'a [u8],
    pub version: u32,
    pub metadata: Table<Value>,
    pub tensors: Table<Tensor>,
    /// Where the tensor data starts.
    pub data_offset: u64,
    pub alignment: u64,
}

/// A tensor of a model file. The offset counts from the start of the file.
#[derive(Debug)]
pub struct Tensor {
    pub name: String,
    pub dtype: DType,
    pub shape: Vec<u64>,
    pub offset: u64,
    pub size_bytes: u64,
}

impl View for Tensor {
    type V = TensorModel;

    open spec fn view(&self) -> TensorModel {
        TensorModel {
            name: self.name@,
            dtype: self.dtype,
            shape: self.shape@,
            offset: self.offset,
            size_bytes: self.size_bytes,
        }
    }
}

pub open spec fn nodes(metadata: Map<Seq<char>, Value>) -> Map<Seq<char>, Node> {
    metadata.map_values(|v: Value| v@)
}

pub open spec fn tensor_models(tensors: Map<Seq<char>, Tensor>) -> Map<Seq<char>, TensorModel> {
    tensors.map_values(|t: Tensor| t@)
}

impl<'a> Gguf<'a> {
    /// The meaning of the file, without its tensor data.
    pub open spec fn model(&self) -> FileModel {
        FileModel {
            version: self.version,
            metadata: nodes(self.metadata@),
            tensors: tensor_models(self.tensors@),
            data_offset: self.data_offset,
            alignment: self.alignment,
        }
    }

    /// Parse a file from its bytes.
    pub fn parse(data: &'a [u8]) -> (r: Result<Gguf<'a>, GgufError>)
        ensures
            match scan_file(data@) {
                Ok(model) => r is Ok && r->Ok_0.model() == model && r->Ok_0.data == data,
                Err(e) => r == Err::<Gguf<'a>, GgufError>(e),
            },
    {
        let mut r: Reader<'a> = Reader::new(data);
        let magic: u32 = match r.u32() {
            Ok(v) => v,
            Err(e) => {
                return Err(e);
            },
        };
        if magic != GGUF_MAGIC {
            return Err(GgufError::BadMagic(magic));
        }
        let version: u32 = match r.u32() {
            Ok(v) => v,
            Err(e) => {
                return Err(e);
            },
        };
        if version < GGUF_VERSION_MIN || version > GGUF_VERSION_MAX {
            return Err(GgufError::UnsupportedVersion(version));
        }
        Self::parse_body(r, version)
    }

    /// Parse what is behind the version.
    fn parse_body(reader: Reader<'a>, version: u32) -> (r: Result<Gguf<'a>, GgufError>)
        requires
            reader.wf(),
        ensures
            match scan_body(reader.buf@, version, reader.pos as int) {
                Ok(model) => r is Ok && r->Ok_0.model() == model && r->Ok_0.data == reader.buf,
                Err(e) => r == Err::<Gguf<'a>, GgufError>(e),
            },
    {
        let mut r: Reader<'a> = reader;
        let n_tensors: u64 = match r.u64() {
            Ok(v) => v,
            Err(e) => {
                return Err(e);
            },
        };
        let n_kv: u64 = match r.u64() {
            Ok(v) => v,
            Err(e) => {
                return Err(e);
            },
        };
        let metadata: Table<Value> = match read_entries(&mut r, n_kv) {
            Ok(v) => v,
            Err(e) => {
                return Err(e);
            },
        };
        let alignment: u64 = match metadata.get("general.alignment") {
            Some(Value::U32(v)) => *v as u64,
            Some(Value::I32(v)) => if *v >= 0 {
                *v as u64
            } else {
                (0x1_0000_0000_0000_0000 + *v as i128) as u64
            },
            _ => DEFAULT_ALIGNMENT,
        };
        assert(alignment == alignment_of(nodes(metadata@)));
        let descs: Vec<TensorDesc> = match read_descs(&mut r, n_tensors) {
            Ok(v) => v,
            Err(e) => {
                return Err(e);
            },
        };
        if alignment == 0 {
            return Err(GgufError::ZeroAlignment);
        }
        let unaligned: u64 = r.pos as u64;
        let pad: u64 = if unaligned % alignment == 0 {
            0
        } else {
            alignment - unaligned % alignment
        };
        if pad > u64::MAX - unaligned {
            return Err(GgufError::OffsetOverflow);
        }
        let data_offset: u64 = unaligned + pad;
        match place_all(descs, data_offset) {
            Ok(tensors) => {
                Ok(Gguf { data: r.buf, version, metadata, tensors, data_offset, alignment })
            },
            Err(e) => Err(e),
        }
    }

    /// The data of a tensor.
    pub fn tensor_bytes(&self, t: &Tensor) -> (r: Result<&'a [u8], GgufError>)
        ensures
            match r {
                Ok(s) => t.offset + t.size_bytes <= self.data@.len() && s@ == self.data@.subrange(
                    t.offset as int,
                    t.offset + t.size_bytes,
                ),
                Err(GgufError::TensorOverflow) => t.offset + t.size_bytes > usize::MAX,
                Err(GgufError::PastEnd(name)) => name@ == t.name@ && self.data@.len() < t.offset
                    + t.size_bytes <= usize::MAX,
                Err(_) => false,
            },
    {
        if t.size_bytes > u64::MAX - t.offset || t.offset + t.size_bytes > usize::MAX as u64 {
            return Err(GgufError::TensorOverflow);
        }
        let start: usize = t.offset as usize;
        let end: usize = start + t.size_bytes as usize;
        if end > self.data.len() {
            return Err(GgufError::PastEnd(t.name.clone()));
        }
        Ok(slice_subrange(self.data, start, end))
    }

    /// A metadata value of one of the 32 and 64-bit integer kinds, modulo 2^32.
    pub fn meta_u32(&self, key: &str) -> (r: Option<u32>)
        ensures
            r == meta_number(nodes(self.metadata@), key@),
    {
        match self.metadata.get(key) {
            Some(Value::U32(x)) => Some(*x),
            Some(Value::I32(x)) => Some(low_u32_signed(*x as i64)),
            Some(Value::U64(x)) => Some(low_u32(*x)),
            Some(Value::I64(x)) => Some(low_u32_signed(*x)),
            _ => None,
        }
    }

    /// A metadata value of one of the floating-point kinds, as the bits of a
    /// single-precision number.
    pub fn meta_f32(&self, key: &str) -> (r: Option<u32>)
        ensures
            r == meta_float(nodes(self.metadata@), key@),
    {
        match self.metadata.get(key) {
            Some(Value::F32(x)) => Some(*x),
            Some(Value::F64(x)) => Some(f64_to_f32(*x)),
            _ => None,
        }
    }

    /// A metadata value that is text.
    pub fn meta_str(&self, key: &str) -> (r: Option<&str>)
        ensures
            match r {
                Some(s) => meta_text(nodes(self.metadata@), key@) == Some(s@),
                None => meta_text(nodes(self.metadata@), key@) is None,
            },
    {
        match self.metadata.get(key) {
            Some(Value::String(s)) => Some(s.as_str()),
            _ => None,
        }
    }
}

/// The integer under `key`, modulo 2^32.
pub open spec fn meta_number(metadata: Map<Seq<char>, Node>, key: Seq<char>) -> Option<u32> {
    if metadata.dom().contains(key) {
        match metadata[key] {
            Node::U32(x) => Some(x),
            Node::I32(x) => Some(low_32(x as int)),
            Node::U64(x) => Some(low_32(x as int)),
            Node::I64(x) => Some(low_32(x as int)),
            _ => None,
        }
    } else {
        None
    }
}

/// The floating-point number under `key`, in single precision.
pub open spec fn meta_float(metadata: Map<Seq<char>, Node>, key: Seq<char>) -> Option<u32> {
    if metadata.dom().contains(key) {
        match metadata[key] {
            Node::F32(x) => Some(x),
            Node::F64(x) => Some(single_of(x)),
            _ => None,
        }
    } else {
        None
    }
}

/// The text under `key`.
pub open spec fn meta_text(metadata: Map<Seq<char>, Node>, key: Seq<char>) -> Option<Seq<char>> {
    if metadata.dom().contains(key) {
        match metadata[key] {
            Node::Text(s) => Some(s),
            _ => None,
        }
    } else {
        None
    }
}

/// A tensor description: the offset counts from the start of the data.
struct TensorDesc {
    name: String,
    dtype: DType,
    shape: Vec<u64>,
    offset: u64,
}

impl View for TensorDesc {
    type V = Desc;

    closed spec fn view(&self) -> Desc {
        Desc { name: self.name@, dtype: self.dtype, shape: self.shape@, offset: self.offset }
    }
}

spec fn desc_models(descs: Seq<TensorDesc>) -> Seq<Desc> {
    descs.map_values(|d: TensorDesc| d@)
}

fn read_entries<'a>(r: &mut Reader<'a>, n: u64) -> (out: Result<Table<Value>, GgufError>)
    requires
        old(r).wf(),
    ensures
        match scan_entries(old(r).buf@, old(r).pos as int, n as nat, Map::empty()) {
            Ok((metadata, end)) => out is Ok && nodes(out->Ok_0@) == metadata && final(r).moved(
                old(r),
                end,
            ),
            Err(e) => out == Err::<Table<Value>, GgufError>(e),
        },
{
    let ghost buf = r.buf@;
    let mut table: Table<Value> = Table::new();
    let mut i: u64 = 0;
    assert(nodes(table@) =~= Map::<Seq<char>, Node>::empty());
    while i < n
        invariant
            i <= n,
            r.wf(),
            r.buf == old(r).buf,
            r.buf@ == buf,
            old(r).pos <= r.pos,
            scan_entries(buf, r.pos as int, (n - i) as nat, nodes(table@)) == scan_entries(
                buf,
                old(r).pos as int,
                n as nat,
                Map::empty(),
            ),
        decreases n - i,
    {
        let key: String = match r.string() {
            Ok(k) => k,
            Err(e) => {
                return Err(e);
            },
        };
        let value: Value = match r.value() {
            Ok(v) => v,
            Err(e) => {
                return Err(e);
            },
        };
        let ghost before = table@;
        let ghost (k, v) = (key@, value);
        table = table.insert(key, value);
        assert(nodes(before.insert(k, v)) =~= nodes(before).insert(k, v@));
        i = i + 1;
    }
    Ok(table)
}

fn read_dims<'a>(r: &mut Reader<'a>, n: u32) -> (out: Result<Vec<u64>, GgufError>)
    requires
        old(r).wf(),
    ensures
        match scan_dims(old(r).buf@, old(r).pos as int, n as nat, seq![]) {
            Ok((shape, end)) => out is Ok && out->Ok_0@ == shape && final(r).moved(old(r), end),
            Err(e) => out == Err::<Vec<u64>, GgufError>(e),
        },
{
    let ghost buf = r.buf@;
    let mut shape: Vec<u64> = Vec::new();
    let mut i: u32 = 0;
    while i < n
        invariant
            i <= n,
            r.wf(),
            r.buf == old(r).buf,
            r.buf@ == buf,
            old(r).pos <= r.pos,
            scan_dims(buf, r.pos as int, (n - i) as nat, shape@) == scan_dims(
                buf,
                old(r).pos as int,
                n as nat,
                seq![],
            ),
        decreases n - i,
    {
        match r.u64() {
            Ok(d) => {
                shape.push(d);
            },
            Err(e) => {
                return Err(e);
            },
        }
        i = i + 1;
    }
    Ok(shape)
}

fn read_desc<'a>(r: &mut Reader<'a>) -> (out: Result<TensorDesc, GgufError>)
    requires
        old(r).wf(),
    ensures
        match scan_desc(old(r).buf@, old(r).pos as int) {
            Ok((d, end)) => out is Ok && out->Ok_0@ == d && final(r).moved(old(r), end),
            Err(e) => out == Err::<TensorDesc, GgufError>(e),
        },
{
    let name: String = match r.string() {
        Ok(v) => v,
        Err(e) => {
            return Err(e);
        },
    };
    let n_dims: u32 = match r.u32() {
        Ok(v) => v,
        Err(e) => {
            return Err(e);
        },
    };
    let shape: Vec<u64> = match read_dims(r, n_dims) {
        Ok(v) => v,
        Err(e) => {
            return Err(e);
        },
    };
    let raw: u32 = match r.u32() {
        Ok(v) => v,
        Err(e) => {
            return Err(e);
        },
    };
    let dtype: DType = match DType::from_raw(raw) {
        Ok(v) => v,
        Err(e) => {
            return Err(e);
        },
    };
    let offset: u64 = match r.u64() {
        Ok(v) => v,
        Err(e) => {
            return Err(e);
        },
    };
    Ok(TensorDesc { name, dtype, shape, offset })
}

fn read_descs<'a>(r: &mut Reader<'a>, n: u64) -> (out: Result<Vec<TensorDesc>, GgufError>)
    requires
        old(r).wf(),
    ensures
        match scan_descs(old(r).buf@, old(r).pos as int, n as nat, seq![]) {
            Ok((descs, end)) => out is Ok && desc_models(out->Ok_0@) == descs && final(r).moved(
                old(r),
                end,
            ),
            Err(e) => out == Err::<Vec<TensorDesc>, GgufError>(e),
        },
{
    let ghost buf = r.buf@;
    let mut descs: Vec<TensorDesc> = Vec::new();
    let mut i: u64 = 0;
    assert(desc_models(descs@) =~= Seq::<Desc>::empty());
    while i < n
        invariant
            i <= n,
            r.wf(),
            r.buf == old(r).buf,
            r.buf@ == buf,
            old(r).pos <= r.pos,
            scan_descs(buf, r.pos as int, (n - i) as nat, desc_models(descs@)) == scan_descs(
                buf,
                old(r).pos as int,
                n as nat,
                seq![],
            ),
        decreases n - i,
    {
        match read_desc(r) {
            Ok(d) => {
                let ghost before = descs@;
                let ghost model = d@;
                descs.push(d);
                assert(desc_models(descs@) =~= desc_models(before).push(model));
            },
            Err(e) => {
                return Err(e);
            },
        }
        i = i + 1;
    }
    Ok(descs)
}

fn place_all(descs: Vec<TensorDesc>, data_offset: u64) -> (out: Result<Table<Tensor>, GgufError>)
    ensures
        match placed_all(desc_models(descs@), 0, data_offset, Map::empty()) {
            Ok(tensors) => out is Ok && tensor_models(out->Ok_0@) == tensors,
            Err(e) => out == Err::<Table<Tensor>, GgufError>(e),
        },
{
    let ghost all = desc_models(descs@);
    let mut table: Table<Tensor> = Table::new();
    let mut i: usize = 0;
    assert(tensor_models(table@) =~= Map::<Seq<char>, TensorModel>::empty());
    while i < descs.len()
        invariant
            i <= descs@.len(),
            all == desc_models(descs@),
            placed_all(all, i as int, data_offset, tensor_models(table@)) == placed_all(
                all,
                0,
                data_offset,
                Map::empty(),
            ),
        decreases descs@.len() - i,
    {
        let d: &TensorDesc = &descs[i];
        assert(all[i as int] == d@);
        let size_bytes: u64 = match tensor_size_bytes(d.dtype, d.shape.as_slice()) {
            Ok(v) => v,
            Err(e) => {
                return Err(e);
            },
        };
        if d.offset > u64::MAX - data_offset {
            return Err(GgufError::OffsetOverflow);
        }
        let t: Tensor = Tensor {
            name: d.name.clone(),
            dtype: d.dtype,
            shape: copy_shape(&d.shape),
            offset: data_offset + d.offset,
            size_bytes,
        };
        let ghost before = table@;
        let ghost tensor = t;
        let name: String = d.name.clone();
        table = table.insert(name, t);
        assert(tensor_models(table@) =~= tensor_models(before).insert(tensor.name@, tensor@));
        i = i + 1;
    }
    Ok(table)
}

fn copy_shape(shape: &Vec<u64>) -> (r: Vec<u64>)
    ensures
        r@ == shape@,
{
    vstd::slice::slice_to_vec(shape.as_slice())
}

/// The number of bytes of a tensor of the given format and shape.
pub fn tensor_size_bytes(dtype: DType, shape: &[u64]) -> (r: Result<u64, GgufError>)
    ensures
        r == size_of_tensor(dtype, shape@),
{
    let n: u64 = match element_count(shape) {
        Some(n) => n,
        None => {
            return Err(GgufError::SizeOverflow);
        },
    };
    let (block, bpb): (u64, u64) = match dtype {
        DType::F32 => (1, 4),
        DType::F16 => (1, 2),
        DType::BF16 => (1, 2),
        DType::F64 => (1, 8),
        DType::I8 => (1, 1),
        DType::I16 => (1, 2),
        DType::I32 => (1, 4),
        DType::I64 => (1, 8),
        DType::Q4_0 => (32, 18),
        DType::Q4_1 => (32, 20),
        DType::Q5_0 => (32, 22),
        DType::Q5_1 => (32, 24),
        DType::Q8_0 => (32, 34),
        DType::Q8_1 => (32, 36),
        DType::Q2_K => (256, 84),
        DType::Q3_K => (256, 110),
        DType::Q4_K => (256, 144),
        DType::Q5_K => (256, 176),
        DType::Q6_K => (256, 210),
        DType::Q8_K => (256, 292),
        DType::IQ2_XXS => (256, 66),
        DType::IQ2_XS => (256, 74),
        DType::IQ3_XXS => (256, 98),
        DType::IQ1_S => (256, 50),
        DType::IQ4_NL => (32, 18),
        DType::IQ3_S => (256, 110),
        DType::IQ2_S => (256, 82),
        DType::IQ4_XS => (256, 136),
        DType::IQ1_M => (256, 56),
    };
    if n % block != 0 {
        return Err(GgufError::Ragged(n, block, dtype));
    }
    match (n / block).checked_mul(bpb) {
        Some(size) => Ok(size),
        None => Err(GgufError::SizeOverflow),
    }
}

/// The number of elements of a shape, if it fits in 64 bits.
pub fn element_count(shape: &[u64]) -> (r: Option<u64>)
    ensures
        r == if elements(shape@) <= u64::MAX {
            Some(elements(shape@) as u64)
        } else {
            None
        },
{
    let mut zero: bool = false;
    let mut k: usize = 0;
    while k < shape.len()
        invariant
            k <= shape@.len(),
            zero ==> elements(shape@.take(k as int)) == 0,
            !zero ==> forall|j: int| 0 <= j < k ==> shape@[j] > 0,
        decreases shape@.len() - k,
    {
        proof {
            assert(shape@.take(k + 1).drop_last() =~= shape@.take(k as int));
            let a = elements(shape@.take(k as int));
            let b = shape@[k as int] as nat;
            assert(a == 0 || b == 0 ==> a * b == 0) by (nonlinear_arith);
        }
        if shape[k] == 0 {
            zero = true;
        }
        k = k + 1;
    }
    assert(shape@.take(k as int) =~= shape@);
    if zero {
        return Some(0);
    }
    let mut n: u64 = 1;
    let mut i: usize = 0;
    while i < shape.len()
        invariant
            i <= shape@.len(),
            n == elements(shape@.take(i as int)),
            n > 0,
            forall|j: int| 0 <= j < shape@.len() ==> shape@[j] > 0,
        decreases shape@.len() - i,
    {
        assert(shape@.take(i + 1).drop_last() =~= shape@.take(i as int));
        match n.checked_mul(shape[i]) {
            Some(m) => {
                proof {
                    assert(n > 0 && shape@[i as int] > 0 ==> n * shape@[i as int] > 0)
                        by (nonlinear_arith);
                }
                n = m;
            },
            None => {
                proof {
                    lemma_elements_monotonic(shape@, i + 1);
                }
                return None;
            },
        }
        i = i + 1;
    }
    assert(shape@.take(i as int) =~= shape@);
    Some(n)
}

proof fn lemma_elements_monotonic(shape: Seq<u64>, i: int)
    requires
        0 <= i <= shape.len(),
        forall|j: int| 0 <= j < shape.len() ==> shape[j] > 0,
    ensures
        elements(shape.take(i)) <= elements(shape),
    decreases shape.len() - i,
{
    if i < shape.len() {
        lemma_elements_monotonic(shape, i + 1);
        assert(shape.take(i + 1).drop_last() =~= shape.take(i));
        let a = elements(shape.take(i));
        let b = shape[i] as nat;
        assert(b >= 1 ==> a <= a * b) by (nonlinear_arith);
    } else {
        assert(shape.take(i) =~= shape);
    }
}

} // verus!
