//! Header of a saved session.
//!
//! The header identifies the format, its version and the model, so that stale
//! snapshots are recognised after a model upgrade.

use crate::bytes::{
    le_bytes, le_u64, le_value, lemma_le_bytes_len, lemma_le_round_trip, lemma_pow256, put_le,
};
use crate::text::{append_decimal, decimal};
use vstd::prelude::*;
use vstd::slice::slice_subrange;
use vstd::string::*;

verus! {

/// Version of the format.
pub const PAYLOAD_VERSION: u32 = 1;

/// The first bytes of a payload: the letters "DS4K", as a little-endian number.
pub const PAYLOAD_MAGIC: u32 = 0x4B34_5344;

#[derive(Debug, Clone, Copy, PartialEq, Eq, Structural)]
pub struct PayloadHeader {
    pub version: u32,
    pub model_fingerprint: u64,
    pub backend_id: u32,
    pub n_tokens: u32,
    pub raw_bytes: u64,
    pub comp_bytes: u64,
}

/// Why a header cannot be read.
#[derive(Debug, Clone, Copy, PartialEq, Eq, Structural)]
pub enum PayloadError {
    /// The bytes end inside the header.
    Short,
    BadMagic,
    UnsupportedVersion(u32),
}

impl PayloadError {
    /// The text that the error is shown with.
    pub open spec fn text(&self) -> Seq<char> {
        match self {
            PayloadError::Short => "failed to fill whole buffer"@,
            PayloadError::BadMagic => "kv payload: bad magic"@,
            PayloadError::UnsupportedVersion(v) => "kv payload: unsupported version "@ + decimal(
                *v as nat,
            ),
        }
    }

    /// The text that the error is shown with.
    pub fn message(&self) -> (s: String)
        ensures
            s@ == self.text(),
    {
        match self {
            PayloadError::Short => String::from_str("failed to fill whole buffer"),
            PayloadError::BadMagic => String::from_str("kv payload: bad magic"),
            PayloadError::UnsupportedVersion(v) => {
                let mut s: String = String::from_str("kv payload: unsupported version ");
                append_decimal(&mut s, *v as u64);
                s
            },
        }
    }
}

/// The little-endian number in `n` bytes at `pos`.
pub open spec fn field(b: Seq<u8>, pos: int, n: int) -> nat {
    le_value(b.subrange(pos, pos + n))
}

/// The bytes of a header.
pub open spec fn header_bytes(h: PayloadHeader) -> Seq<u8> {
    le_bytes(PAYLOAD_MAGIC as nat, 4) + le_bytes(h.version as nat, 4) + le_bytes(
        h.model_fingerprint as nat,
        8,
    ) + le_bytes(h.backend_id as nat, 4) + le_bytes(h.n_tokens as nat, 4) + le_bytes(
        h.raw_bytes as nat,
        8,
    ) + le_bytes(h.comp_bytes as nat, 8)
}

/// The header at the start of some bytes. The magic number and the version are
/// checked as soon as their bytes are there.
pub open spec fn header_of(b: Seq<u8>) -> Result<PayloadHeader, PayloadError> {
    if b.len() < 4 {
        Err(PayloadError::Short)
    } else if field(b, 0, 4) != PAYLOAD_MAGIC {
        Err(PayloadError::BadMagic)
    } else if b.len() < 8 {
        Err(PayloadError::Short)
    } else if field(b, 4, 4) != PAYLOAD_VERSION {
        Err(PayloadError::UnsupportedVersion(field(b, 4, 4) as u32))
    } else if b.len() < 40 {
        Err(PayloadError::Short)
    } else {
        Ok(
            PayloadHeader {
                version: PAYLOAD_VERSION,
                model_fingerprint: field(b, 8, 8) as u64,
                backend_id: field(b, 16, 4) as u32,
                n_tokens: field(b, 20, 4) as u32,
                raw_bytes: field(b, 24, 8) as u64,
                comp_bytes: field(b, 32, 8) as u64,
            },
        )
    }
}

impl PayloadHeader {
    /// Append the bytes of the header.
    pub fn write(&self, w: &mut Vec<u8>)
        ensures
            final(w)@ == old(w)@ + header_bytes(*self),
    {
        put_le(w, PAYLOAD_MAGIC as u64, 4);
        put_le(w, self.version as u64, 4);
        put_le(w, self.model_fingerprint, 8);
        put_le(w, self.backend_id as u64, 4);
        put_le(w, self.n_tokens as u64, 4);
        put_le(w, self.raw_bytes, 8);
        put_le(w, self.comp_bytes, 8);
        assert(w@ =~= old(w)@ + header_bytes(*self));
    }

    /// Read the header at the start of some bytes.
    pub fn read(r: &[u8]) -> (h: Result<PayloadHeader, PayloadError>)
        ensures
            h == header_of(r@),
    {
        if r.len() < 4 {
            return Err(PayloadError::Short);
        }
        if read_u32(r, 0) != PAYLOAD_MAGIC {
            return Err(PayloadError::BadMagic);
        }
        if r.len() < 8 {
            return Err(PayloadError::Short);
        }
        let version: u32 = read_u32(r, 4);
        if version != PAYLOAD_VERSION {
            return Err(PayloadError::UnsupportedVersion(version));
        }
        if r.len() < 40 {
            return Err(PayloadError::Short);
        }
        Ok(
            PayloadHeader {
                version,
                model_fingerprint: read_u64(r, 8),
                backend_id: read_u32(r, 16),
                n_tokens: read_u32(r, 20),
                raw_bytes: read_u64(r, 24),
                comp_bytes: read_u64(r, 32),
            },
        )
    }

    /// The number of bytes of a header.
    pub fn size_on_disk() -> (n: u64)
        ensures
            n == 40,
            forall|h: PayloadHeader| #[trigger] header_bytes(h).len() == n,
    {
        assert forall|h: PayloadHeader| #[trigger] header_bytes(h).len() == 40 by {
            lemma_header_len(h);
        }
        4 + 4 + 8 + 4 + 4 + 8 + 8
    }
}

fn read_u32(r: &[u8], pos: usize) -> (v: u32)
    requires
        pos + 4 <= r.len(),
    ensures
        v == field(r@, pos as int, 4),
{
    proof {
        lemma_pow256();
    }
    le_u64(slice_subrange(r, pos, pos + 4)) as u32
}

fn read_u64(r: &[u8], pos: usize) -> (v: u64)
    requires
        pos + 8 <= r.len(),
    ensures
        v == field(r@, pos as int, 8),
{
    le_u64(slice_subrange(r, pos, pos + 8))
}

proof fn lemma_header_len(h: PayloadHeader)
    ensures
        header_bytes(h).len() == 40,
{
    lemma_le_bytes_len(PAYLOAD_MAGIC as nat, 4);
    lemma_le_bytes_len(h.version as nat, 4);
    lemma_le_bytes_len(h.model_fingerprint as nat, 8);
    lemma_le_bytes_len(h.backend_id as nat, 4);
    lemma_le_bytes_len(h.n_tokens as nat, 4);
    lemma_le_bytes_len(h.raw_bytes as nat, 8);
    lemma_le_bytes_len(h.comp_bytes as nat, 8);
}

proof fn lemma_field(b: Seq<u8>, pos: int, v: nat, n: nat)
    requires
        0 <= pos,
        pos + n <= b.len(),
        v < crate::bytes::pow256(n),
        b.subrange(pos, pos + n) == le_bytes(v, n),
    ensures
        field(b, pos, n as int) == v,
{
    lemma_le_round_trip(v, n);
}

/// Reading what was written gives the header back, whatever follows it; a header
/// of another version is refused.
pub proof fn lemma_header_round_trip(h: PayloadHeader, rest: Seq<u8>)
    ensures
        header_of(header_bytes(h) + rest) == if h.version == PAYLOAD_VERSION {
            Ok::<PayloadHeader, PayloadError>(h)
        } else {
            Err(PayloadError::UnsupportedVersion(h.version))
        },
{
    let b = header_bytes(h) + rest;
    lemma_header_len(h);
    lemma_pow256();
    lemma_le_bytes_len(PAYLOAD_MAGIC as nat, 4);
    lemma_le_bytes_len(h.version as nat, 4);
    lemma_le_bytes_len(h.model_fingerprint as nat, 8);
    lemma_le_bytes_len(h.backend_id as nat, 4);
    lemma_le_bytes_len(h.n_tokens as nat, 4);
    lemma_le_bytes_len(h.raw_bytes as nat, 8);
    lemma_le_bytes_len(h.comp_bytes as nat, 8);
    assert(b.subrange(0, 4) =~= le_bytes(PAYLOAD_MAGIC as nat, 4));
    assert(b.subrange(4, 8) =~= le_bytes(h.version as nat, 4));
    assert(b.subrange(8, 16) =~= le_bytes(h.model_fingerprint as nat, 8));
    assert(b.subrange(16, 20) =~= le_bytes(h.backend_id as nat, 4));
    assert(b.subrange(20, 24) =~= le_bytes(h.n_tokens as nat, 4));
    assert(b.subrange(24, 32) =~= le_bytes(h.raw_bytes as nat, 8));
    assert(b.subrange(32, 40) =~= le_bytes(h.comp_bytes as nat, 8));
    lemma_field(b, 0, PAYLOAD_MAGIC as nat, 4);
    lemma_field(b, 4, h.version as nat, 4);
    lemma_field(b, 8, h.model_fingerprint as nat, 8);
    lemma_field(b, 16, h.backend_id as nat, 4);
    lemma_field(b, 20, h.n_tokens as nat, 4);
    lemma_field(b, 24, h.raw_bytes as nat, 8);
    lemma_field(b, 32, h.comp_bytes as nat, 8);
}

/// Where the fields of a header stand: the letters "DS4K", the version, the
/// fingerprint of the model, the backend, the number of tokens, and the sizes of the
/// raw and of the compressed part, the low byte of each first.
pub proof fn lemma_header_fields(h: PayloadHeader)
    ensures
        header_bytes(h).len() == 40,
        header_bytes(h).subrange(0, 4) == seq![0x44u8, 0x53, 0x34, 0x4b],
        le_value(header_bytes(h).subrange(4, 8)) == h.version,
        le_value(header_bytes(h).subrange(8, 16)) == h.model_fingerprint,
        le_value(header_bytes(h).subrange(16, 20)) == h.backend_id,
        le_value(header_bytes(h).subrange(20, 24)) == h.n_tokens,
        le_value(header_bytes(h).subrange(24, 32)) == h.raw_bytes,
        le_value(header_bytes(h).subrange(32, 40)) == h.comp_bytes,
{
    let b = header_bytes(h);
    lemma_header_len(h);
    lemma_pow256();
    lemma_le_bytes_len(PAYLOAD_MAGIC as nat, 4);
    lemma_le_bytes_len(h.version as nat, 4);
    lemma_le_bytes_len(h.model_fingerprint as nat, 8);
    lemma_le_bytes_len(h.backend_id as nat, 4);
    lemma_le_bytes_len(h.n_tokens as nat, 4);
    lemma_le_bytes_len(h.raw_bytes as nat, 8);
    lemma_le_bytes_len(h.comp_bytes as nat, 8);
    assert(le_bytes(PAYLOAD_MAGIC as nat, 4) =~= seq![0x44u8, 0x53, 0x34, 0x4b]) by {
        reveal_with_fuel(le_bytes, 5);
    }
    assert(b.subrange(0, 4) =~= le_bytes(PAYLOAD_MAGIC as nat, 4));
    assert(b.subrange(4, 8) =~= le_bytes(h.version as nat, 4));
    assert(b.subrange(8, 16) =~= le_bytes(h.model_fingerprint as nat, 8));
    assert(b.subrange(16, 20) =~= le_bytes(h.backend_id as nat, 4));
    assert(b.subrange(20, 24) =~= le_bytes(h.n_tokens as nat, 4));
    assert(b.subrange(24, 32) =~= le_bytes(h.raw_bytes as nat, 8));
    assert(b.subrange(32, 40) =~= le_bytes(h.comp_bytes as nat, 8));
    lemma_le_round_trip(h.version as nat, 4);
    lemma_le_round_trip(h.model_fingerprint as nat, 8);
    lemma_le_round_trip(h.backend_id as nat, 4);
    lemma_le_round_trip(h.n_tokens as nat, 4);
    lemma_le_round_trip(h.raw_bytes as nat, 8);
    lemma_le_round_trip(h.comp_bytes as nat, 8);
}

/// Bytes that do not start with the letters "DS4K" are refused, and so are fewer
/// bytes than a header has.
pub proof fn lemma_other_bytes_refused(b: Seq<u8>)
    ensures
        b.len() < 40 ==> header_of(b) is Err,
        b.len() >= 4 && b.subrange(0, 4) != seq![0x44u8, 0x53, 0x34, 0x4b] ==> header_of(b)
            == Err::<PayloadHeader, PayloadError>(PayloadError::BadMagic),
        b.len() >= 8 && header_of(b) is Ok ==> le_value(b.subrange(4, 8)) == 1,
{
    if b.len() >= 4 {
        let s = b.subrange(0, 4);
        reveal_with_fuel(le_value, 5);
        assert(s.drop_first().drop_first().drop_first().drop_first() =~= Seq::<u8>::empty());
        if field(b, 0, 4) == PAYLOAD_MAGIC {
            let v = s[0] + 256 * s[1] + 0x1_0000 * s[2] + 0x100_0000 * s[3];
            assert(v == 0x4b34_5344);
            assert(v % 256 == s[0] && (v / 256) % 256 == s[1] && (v / 0x1_0000) % 256 == s[2] && v
                / 0x100_0000 == s[3]);
            assert(s =~= seq![0x44u8, 0x53, 0x34, 0x4b]);
        }
    }
}

} // verus!
