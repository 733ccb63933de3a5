//! The texts that formats and errors are shown with.

use super::format::{DType, GgufError};
use crate::text::{append_decimal, append_hexadecimal, decimal, hexadecimal};
use vstd::prelude::*;
use vstd::string::*;

verus! {

impl DType {
    /// The name of the format.
    pub open spec fn label(self) -> Seq<char> {
        match self {
            DType::F32 => "F32"@,
            DType::F16 => "F16"@,
            DType::Q4_0 => "Q4_0"@,
            DType::Q4_1 => "Q4_1"@,
            DType::Q5_0 => "Q5_0"@,
            DType::Q5_1 => "Q5_1"@,
            DType::Q8_0 => "Q8_0"@,
            DType::Q8_1 => "Q8_1"@,
            DType::Q2_K => "Q2_K"@,
            DType::Q3_K => "Q3_K"@,
            DType::Q4_K => "Q4_K"@,
            DType::Q5_K => "Q5_K"@,
            DType::Q6_K => "Q6_K"@,
            DType::Q8_K => "Q8_K"@,
            DType::IQ2_XXS => "IQ2_XXS"@,
            DType::IQ2_XS => "IQ2_XS"@,
            DType::IQ3_XXS => "IQ3_XXS"@,
            DType::IQ1_S => "IQ1_S"@,
            DType::IQ4_NL => "IQ4_NL"@,
            DType::IQ3_S => "IQ3_S"@,
            DType::IQ2_S => "IQ2_S"@,
            DType::IQ4_XS => "IQ4_XS"@,
            DType::I8 => "I8"@,
            DType::I16 => "I16"@,
            DType::I32 => "I32"@,
            DType::I64 => "I64"@,
            DType::F64 => "F64"@,
            DType::IQ1_M => "IQ1_M"@,
            DType::BF16 => "BF16"@,
        }
    }

    /// The name of the format.
    pub fn name(self) -> (s: &'static str)
        ensures
            s@ == self.label(),
    {
        match self {
            DType::F32 => "F32",
            DType::F16 => "F16",
            DType::Q4_0 => "Q4_0",
            DType::Q4_1 => "Q4_1",
            DType::Q5_0 => "Q5_0",
            DType::Q5_1 => "Q5_1",
            DType::Q8_0 => "Q8_0",
            DType::Q8_1 => "Q8_1",
            DType::Q2_K => "Q2_K",
            DType::Q3_K => "Q3_K",
            DType::Q4_K => "Q4_K",
            DType::Q5_K => "Q5_K",
            DType::Q6_K => "Q6_K",
            DType::Q8_K => "Q8_K",
            DType::IQ2_XXS => "IQ2_XXS",
            DType::IQ2_XS => "IQ2_XS",
            DType::IQ3_XXS => "IQ3_XXS",
            DType::IQ1_S => "IQ1_S",
            DType::IQ4_NL => "IQ4_NL",
            DType::IQ3_S => "IQ3_S",
            DType::IQ2_S => "IQ2_S",
            DType::IQ4_XS => "IQ4_XS",
            DType::I8 => "I8",
            DType::I16 => "I16",
            DType::I32 => "I32",
            DType::I64 => "I64",
            DType::F64 => "F64",
            DType::IQ1_M => "IQ1_M",
            DType::BF16 => "BF16",
        }
    }
}

impl GgufError {
    /// The text that the error is shown with.
    pub open spec fn text(&self) -> Seq<char> {
        match self {
            GgufError::Overflow => "gguf: overflow"@,
            GgufError::ShortRead => "gguf: short read"@,
            GgufError::BadMagic(v) => "gguf: bad magic 0x"@ + hexadecimal(*v as nat),
            GgufError::UnsupportedVersion(v) => "gguf: unsupported version "@ + decimal(*v as nat),
            GgufError::NonUtf8(n, malformed) => "gguf: non-utf8 string ("@ + (match malformed {
                Some(len) => "invalid utf-8 sequence of "@ + decimal(*len as nat)
                    + " bytes from index "@,
                None => "incomplete utf-8 byte sequence from index "@,
            }) + decimal(*n as nat) + ")"@,
            GgufError::UnknownKind(v) => "gguf: unknown value kind "@ + decimal(*v as nat),
            GgufError::UnknownDtype(v) => "gguf: unknown dtype "@ + decimal(*v as nat),
            GgufError::ZeroAlignment => "gguf: alignment is zero"@,
            GgufError::SizeOverflow => "gguf: tensor size overflow"@,
            GgufError::OffsetOverflow => "gguf: tensor offset overflow"@,
            GgufError::Ragged(n, block, dtype) => "gguf: element count "@ + decimal(*n as nat)
                + " not divisible by block "@ + decimal(*block as nat) + " for dtype "@
                + dtype.label(),
            GgufError::TensorOverflow => "gguf: tensor size overflow"@,
            GgufError::PastEnd(name) => "gguf: tensor `"@ + name@ + "` extends past mmap"@,
        }
    }

    /// The text that the error is shown with.
    pub fn message(&self) -> (s: String)
        ensures
            s@ == self.text(),
    {
        match self {
            GgufError::Overflow => String::from_str("gguf: overflow"),
            GgufError::ShortRead => String::from_str("gguf: short read"),
            GgufError::BadMagic(v) => {
                let mut s: String = String::from_str("gguf: bad magic 0x");
                append_hexadecimal(&mut s, *v as u64);
                s
            },
            GgufError::UnsupportedVersion(v) => numbered("gguf: unsupported version ", *v),
            GgufError::NonUtf8(n, malformed) => {
                let mut s: String = String::from_str("gguf: non-utf8 string (");
                match malformed {
                    Some(len) => {
                        s.append("invalid utf-8 sequence of ");
                        append_decimal(&mut s, *len as u64);
                        s.append(" bytes from index ");
                    },
                    None => {
                        s.append("incomplete utf-8 byte sequence from index ");
                    },
                }
                append_decimal(&mut s, *n as u64);
                s.append(")");
                assert(s@ =~= self.text());
                s
            },
            GgufError::UnknownKind(v) => numbered("gguf: unknown value kind ", *v),
            GgufError::UnknownDtype(v) => numbered("gguf: unknown dtype ", *v),
            GgufError::ZeroAlignment => String::from_str("gguf: alignment is zero"),
            GgufError::SizeOverflow => String::from_str("gguf: tensor size overflow"),
            GgufError::OffsetOverflow => String::from_str("gguf: tensor offset overflow"),
            GgufError::Ragged(n, block, dtype) => {
                let mut s: String = String::from_str("gguf: element count ");
                append_decimal(&mut s, *n);
                s.append(" not divisible by block ");
                append_decimal(&mut s, *block);
                s.append(" for dtype ");
                s.append(dtype.name());
                s
            },
            GgufError::TensorOverflow => String::from_str("gguf: tensor size overflow"),
            GgufError::PastEnd(name) => {
                let mut s: String = String::from_str("gguf: tensor `");
                s.append(name.as_str());
                s.append("` extends past mmap");
                s
            },
        }
    }
}

fn numbered(prefix: &str, v: u32) -> (s: String)
    ensures
        s@ == prefix@ + decimal(v as nat),
{
    let mut s: String = String::from_str(prefix);
    append_decimal(&mut s, v as u64);
    s
}

} // verus!
