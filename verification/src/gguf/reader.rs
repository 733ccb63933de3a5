//! Cursor over the bytes of a file.

use super::format::{
    is_valid_up_to, lemma_valid_up_to_unique, scan_items, scan_kind, scan_le, scan_string,
    scan_take, scan_value, utf8_malformed_len, valid_up_to, GgufError, Node, Value,
};
use crate::bytes::{le_u64, lemma_pow256, to_signed_16, to_signed_32, to_signed_64, to_signed_8};
use vstd::prelude::*;
use vstd::slice::slice_subrange;
use vstd::utf8::{encode_utf8, encode_utf8_decode_utf8, valid_utf8};

verus! {

/// The bytes of a file and the position up to which they were read.
pub struct Reader<'a> {
    pub buf: &'a [u8],
    pub pos: usize,
}

/// `std::str::from_utf8`: it succeeds exactly on well-formed UTF-8, and the text
/// has the very bytes that were given. An error is taken apart by `valid_up_to`,
/// which is the length of the longest well-formed prefix, and `error_len`, which is
/// the length of the malformed sequence behind it. Where the bytes end inside a
/// sequence, one to three bytes behind that prefix, there is no such length. It
/// depends on the bytes alone.
#[verifier::external_body]
fn text_of_utf8(bytes: &[u8]) -> (r: Result<&str, (usize, Option<usize>)>)
    ensures
        match r {
            Ok(s) => valid_utf8(bytes@) && encode_utf8(s@) == bytes@,
            Err((n, malformed)) => !valid_utf8(bytes@) && is_valid_up_to(bytes@, n as int)
                && malformed == utf8_malformed_len(bytes@) && match malformed {
                Some(len) => 0 < len <= bytes@.len() - n,
                None => 1 <= bytes@.len() - n <= 3,
            },
        },
{
    match std::str::from_utf8(bytes) {
        Ok(s) => Ok(s),
        Err(e) => Err((e.valid_up_to(), e.error_len())),
    }
}

impl<'a> Reader<'a> {
    /// The position lies within the bytes.
    pub open spec fn wf(&self) -> bool {
        self.pos <= self.buf@.len()
    }

    /// The cursor came from `before` to position `end` of the same bytes.
    pub open spec fn moved(&self, before: &Reader<'a>, end: int) -> bool {
        self.buf == before.buf && self.pos == end && before.pos <= self.pos && self.wf()
    }

    pub fn new(buf: &'a [u8]) -> (r: Self)
        ensures
            r.buf == buf,
            r.pos == 0,
            r.wf(),
    {
        Reader { buf, pos: 0 }
    }

    /// The next `n` bytes.
    pub fn take(&mut self, n: u64) -> (r: Result<&'a [u8], GgufError>)
        requires
            old(self).wf(),
        ensures
            match scan_take(old(self).buf@, old(self).pos as int, n as nat) {
                Ok(end) => r is Ok && r->Ok_0@ == old(self).buf@.subrange(
                    old(self).pos as int,
                    end,
                ) && final(self).moved(old(self), end),
                Err(e) => r == Err::<&'a [u8], GgufError>(e),
            },
    {
        if n > (usize::MAX - self.pos) as u64 {
            return Err(GgufError::Overflow);
        }
        let end: usize = self.pos + n as usize;
        if end > self.buf.len() {
            return Err(GgufError::ShortRead);
        }
        let s: &'a [u8] = slice_subrange(self.buf, self.pos, end);
        self.pos = end;
        Ok(s)
    }

    /// The number in the next `n` bytes.
    fn le(&mut self, n: u64) -> (r: Result<u64, GgufError>)
        requires
            old(self).wf(),
            n <= 8,
        ensures
            match scan_le(old(self).buf@, old(self).pos as int, n as nat) {
                Ok((v, end)) => r == Ok::<u64, GgufError>(v as u64) && v <= u64::MAX && (n == 4
                    ==> v <= u32::MAX) && (n == 2 ==> v <= u16::MAX) && (n == 1 ==> v <= u8::MAX)
                    && final(self).moved(old(self), end),
                Err(e) => r == Err::<u64, GgufError>(e),
            },
    {
        let s: &'a [u8] = match self.take(n) {
            Ok(s) => s,
            Err(e) => {
                return Err(e);
            },
        };
        proof {
            lemma_pow256();
        }
        Ok(le_u64(s))
    }

    pub fn u32(&mut self) -> (r: Result<u32, GgufError>)
        requires
            old(self).wf(),
        ensures
            match scan_le(old(self).buf@, old(self).pos as int, 4) {
                Ok((v, end)) => r == Ok::<u32, GgufError>(v as u32) && v <= u32::MAX
                    && final(self).moved(old(self), end),
                Err(e) => r == Err::<u32, GgufError>(e),
            },
    {
        match self.le(4) {
            Ok(v) => Ok(v as u32),
            Err(e) => Err(e),
        }
    }

    pub fn u64(&mut self) -> (r: Result<u64, GgufError>)
        requires
            old(self).wf(),
        ensures
            match scan_le(old(self).buf@, old(self).pos as int, 8) {
                Ok((v, end)) => r == Ok::<u64, GgufError>(v as u64) && v <= u64::MAX
                    && final(self).moved(old(self), end),
                Err(e) => r == Err::<u64, GgufError>(e),
            },
    {
        self.le(8)
    }

    /// A length and as many bytes of UTF-8.
    pub fn string(&mut self) -> (r: Result<String, GgufError>)
        requires
            old(self).wf(),
        ensures
            match scan_string(old(self).buf@, old(self).pos as int) {
                Ok((s, end)) => r is Ok && r->Ok_0@ == s && final(self).moved(old(self), end),
                Err(e) => r == Err::<String, GgufError>(e),
            },
    {
        let n: u64 = match self.u64() {
            Ok(n) => n,
            Err(e) => {
                return Err(e);
            },
        };
        let bytes: &'a [u8] = match self.take(n) {
            Ok(s) => s,
            Err(e) => {
                return Err(e);
            },
        };
        match text_of_utf8(bytes) {
            Ok(s) => {
                proof {
                    encode_utf8_decode_utf8(s@);
                }
                Ok(s.to_owned())
            },
            Err((n, malformed)) => {
                proof {
                    lemma_valid_up_to_unique(bytes@, n as int, valid_up_to(bytes@));
                }
                Err(GgufError::NonUtf8(n, malformed))
            },
        }
    }

    /// A kind and a value of that kind.
    pub fn value(&mut self) -> (r: Result<Value, GgufError>)
        requires
            old(self).wf(),
        ensures
            match scan_value(old(self).buf@, old(self).pos as int) {
                Ok((node, end)) => r is Ok && r->Ok_0@ == node && final(self).moved(old(self), end),
                Err(e) => r == Err::<Value, GgufError>(e),
            },
    {
        match self.u32() {
            Ok(kind) => self.value_kind(kind),
            Err(e) => Err(e),
        }
    }

    /// A value of fixed width.
    fn plain_value(&mut self, kind: u32) -> (r: Result<Value, GgufError>)
        requires
            old(self).wf(),
            kind <= 12,
            kind != 8,
            kind != 9,
        ensures
            match scan_kind(old(self).buf@, old(self).pos as int, kind) {
                Ok((node, end)) => r is Ok && r->Ok_0@ == node && final(self).moved(old(self), end),
                Err(e) => r == Err::<Value, GgufError>(e),
            },
    {
        let width: u64 = match kind {
            0 | 1 | 7 => 1,
            2 | 3 => 2,
            4 | 5 | 6 => 4,
            _ => 8,
        };
        let v: u64 = match self.le(width) {
            Ok(v) => v,
            Err(e) => {
                return Err(e);
            },
        };
        let value: Value = match kind {
            0 => Value::U8(v as u8),
            1 => Value::I8(to_signed_8(v as u8)),
            2 => Value::U16(v as u16),
            3 => Value::I16(to_signed_16(v as u16)),
            4 => Value::U32(v as u32),
            5 => Value::I32(to_signed_32(v as u32)),
            6 => Value::F32(v as u32),
            7 => Value::Bool(v != 0),
            10 => Value::U64(v),
            11 => Value::I64(to_signed_64(v)),
            _ => Value::F64(v),
        };
        Ok(value)
    }

    /// A value of the given kind.
    fn value_kind(&mut self, kind: u32) -> (r: Result<Value, GgufError>)
        requires
            old(self).wf(),
        ensures
            match scan_kind(old(self).buf@, old(self).pos as int, kind) {
                Ok((node, end)) => r is Ok && r->Ok_0@ == node && final(self).moved(old(self), end),
                Err(e) => r == Err::<Value, GgufError>(e),
            },
        decreases old(self).buf@.len() - old(self).pos,
    {
        if kind == 8 {
            return match self.string() {
                Ok(s) => Ok(Value::String(s)),
                Err(e) => Err(e),
            };
        }
        if kind != 9 {
            if kind > 12 {
                return Err(GgufError::UnknownKind(kind));
            }
            return self.plain_value(kind);
        }
        let ghost buf = self.buf@;
        let elem_kind: u32 = match self.u32() {
            Ok(k) => k,
            Err(e) => {
                return Err(e);
            },
        };
        let n: u64 = match self.u64() {
            Ok(n) => n,
            Err(e) => {
                return Err(e);
            },
        };
        let ghost from = self.pos as int;
        let ghost whole = scan_items(buf, from, elem_kind, n as nat, seq![]);
        let mut out: Vec<Value> = Vec::new();
        let mut i: u64 = 0;
        let ghost mut nodes: Seq<Node> = seq![];
        while i < n
            invariant
                i <= n,
                self.wf(),
                self.buf@ == buf,
                self.buf == old(self).buf,
                old(self).pos < from <= self.pos,
                nodes.len() == out@.len(),
                forall|j: int| 0 <= j < nodes.len() ==> #[trigger] nodes[j] == out@[j]@,
                scan_items(buf, self.pos as int, elem_kind, (n - i) as nat, nodes) == whole,
                scan_kind(buf, old(self).pos as int, kind) == match whole {
                    Ok((items, end)) => Ok((Node::List(items), end)),
                    Err(e) => Err(e),
                },
            decreases n - i,
        {
            let v: Value = match self.value_kind(elem_kind) {
                Ok(v) => v,
                Err(e) => {
                    return Err(e);
                },
            };
            proof {
                nodes = nodes.push(v@);
            }
            out.push(v);
            i = i + 1;
        }
        let list: Value = Value::Array(out);
        assert(list@ == Node::List(nodes)) by {
            assert(list@->List_0 =~= nodes);
        }
        Ok(list)
    }
}

} // verus!
