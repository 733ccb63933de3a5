//! Layer weight binder.
//!
//! Resolves the tensors of a model file by name, holds each against the format
//! and the size that the graph expects, and hands them out as typed slices of
//! the file. Single-precision numbers are handed out as their bits.

use crate::api::prefixed;
use crate::bytes::le_value;
use crate::gguf::format::elements;
use crate::gguf::{element_count, DType, Gguf, GgufError, Tensor};
use crate::model::{layer_tensor, layer_tensor_name, Config};
use crate::shape::{N_EMBD, N_EXPERT, N_FF_EXP, N_HC, N_HEAD_DIM, N_VOCAB};
use crate::text::{append_decimal, decimal};
use vstd::prelude::*;
use vstd::string::*;

verus! {

/// A tensor of the model, or of a layer, that the graph reads.
#[derive(Debug, Clone, Copy, PartialEq, Eq, Structural)]
pub enum Part {
    TokEmbed,
    OutputNorm,
    Output,
    OutputHcFn,
    OutputHcScale,
    OutputHcBase,
    AttnNorm,
    AttnQ,
    AttnKv,
    AttnOut,
    FfnNorm,
    GateShexp,
    UpShexp,
    DownShexp,
    GateExps,
    UpExps,
    DownExps,
    Router,
    HcAttnFn,
    HcAttnScale,
    HcAttnBase,
    HcFfnFn,
    HcFfnScale,
    HcFfnBase,
}

impl Part {
    /// Whether the tensor belongs to the model as a whole.
    pub open spec fn global(self) -> bool {
        matches!(
            self,
            Part::TokEmbed | Part::OutputNorm | Part::Output | Part::OutputHcFn
                | Part::OutputHcScale | Part::OutputHcBase
        )
    }

    /// Whether models without routed experts lack the tensor.
    pub open spec fn optional(self) -> bool {
        matches!(self, Part::GateExps | Part::UpExps | Part::DownExps | Part::Router)
    }

    /// The name of the tensor, without the layer.
    pub open spec fn suffix(self) -> Seq<char> {
        match self {
            Part::TokEmbed => "token_embd.weight"@,
            Part::OutputNorm => "output_norm.weight"@,
            Part::Output => "output.weight"@,
            Part::OutputHcFn => "output_hc_fn.weight"@,
            Part::OutputHcScale => "output_hc_scale.weight"@,
            Part::OutputHcBase => "output_hc_base.weight"@,
            Part::AttnNorm => "attn_norm.weight"@,
            Part::AttnQ => "attn_q.weight"@,
            Part::AttnKv => "attn_kv.weight"@,
            Part::AttnOut => "attn_output.weight"@,
            Part::FfnNorm => "ffn_norm.weight"@,
            Part::GateShexp => "ffn_gate_shexp.weight"@,
            Part::UpShexp => "ffn_up_shexp.weight"@,
            Part::DownShexp => "ffn_down_shexp.weight"@,
            Part::GateExps => "ffn_gate_exps.weight"@,
            Part::UpExps => "ffn_up_exps.weight"@,
            Part::DownExps => "ffn_down_exps.weight"@,
            Part::Router => "ffn_gate_inp.weight"@,
            Part::HcAttnFn => "hc_attn_fn.weight"@,
            Part::HcAttnScale => "hc_attn_scale.weight"@,
            Part::HcAttnBase => "hc_attn_base.weight"@,
            Part::HcFfnFn => "hc_ffn_fn.weight"@,
            Part::HcFfnScale => "hc_ffn_scale.weight"@,
            Part::HcFfnBase => "hc_ffn_base.weight"@,
        }
    }

    /// The name of the tensor of layer `il`.
    pub open spec fn tensor_name(self, il: int) -> Seq<char> {
        if self.global() {
            self.suffix()
        } else {
            layer_tensor_name(il, self.suffix())
        }
    }

    /// The format that the graph expects; routed experts may have one of three.
    pub open spec fn dtype(self) -> Option<DType> {
        match self {
            Part::TokEmbed => Some(DType::F16),
            Part::OutputNorm => Some(DType::F32),
            Part::Output => Some(DType::Q8_0),
            Part::OutputHcFn => Some(DType::F16),
            Part::OutputHcScale => Some(DType::F32),
            Part::OutputHcBase => Some(DType::F32),
            Part::AttnNorm => Some(DType::F32),
            Part::AttnQ => Some(DType::Q8_0),
            Part::AttnKv => Some(DType::Q8_0),
            Part::AttnOut => Some(DType::Q8_0),
            Part::FfnNorm => Some(DType::F32),
            Part::GateShexp => Some(DType::Q8_0),
            Part::UpShexp => Some(DType::Q8_0),
            Part::DownShexp => Some(DType::Q8_0),
            Part::GateExps => None,
            Part::UpExps => None,
            Part::DownExps => None,
            Part::Router => Some(DType::F16),
            Part::HcAttnFn => Some(DType::F16),
            Part::HcAttnScale => Some(DType::F32),
            Part::HcAttnBase => Some(DType::F32),
            Part::HcFfnFn => Some(DType::F16),
            Part::HcFfnScale => Some(DType::F32),
            Part::HcFfnBase => Some(DType::F32),
        }
    }

    /// The number of elements that the graph expects, where it is fixed.
    pub open spec fn elems(self) -> Option<u64> {
        match self {
            Part::TokEmbed => Some((N_EMBD * N_VOCAB) as u64),
            Part::OutputNorm => Some(N_EMBD as u64),
            Part::Output => Some((N_EMBD * N_VOCAB) as u64),
            Part::OutputHcFn => None,
            Part::OutputHcScale => Some(1),
            Part::OutputHcBase => Some(N_HC as u64),
            Part::AttnNorm => Some(N_EMBD as u64),
            Part::AttnQ => None,
            Part::AttnKv => Some((N_EMBD * N_HEAD_DIM) as u64),
            Part::AttnOut => None,
            Part::FfnNorm => Some(N_EMBD as u64),
            Part::GateShexp => Some((N_EMBD * N_FF_EXP) as u64),
            Part::UpShexp => Some((N_EMBD * N_FF_EXP) as u64),
            Part::DownShexp => Some((N_EMBD * N_FF_EXP) as u64),
            Part::GateExps => None,
            Part::UpExps => None,
            Part::DownExps => None,
            Part::Router => Some((N_EMBD * N_EXPERT) as u64),
            Part::HcAttnFn => None,
            Part::HcAttnScale => Some(3),
            Part::HcAttnBase => None,
            Part::HcFfnFn => None,
            Part::HcFfnScale => Some(3),
            Part::HcFfnBase => None,
        }
    }

    /// The size in bytes of the words that the tensor is handed out in.
    pub open spec fn width(self) -> nat {
        match self {
            Part::TokEmbed => 2,
            Part::OutputNorm => 4,
            Part::Output => 1,
            Part::OutputHcFn => 2,
            Part::OutputHcScale => 4,
            Part::OutputHcBase => 4,
            Part::AttnNorm => 4,
            Part::AttnQ => 1,
            Part::AttnKv => 1,
            Part::AttnOut => 1,
            Part::FfnNorm => 4,
            Part::GateShexp => 1,
            Part::UpShexp => 1,
            Part::DownShexp => 1,
            Part::GateExps => 1,
            Part::UpExps => 1,
            Part::DownExps => 1,
            Part::Router => 2,
            Part::HcAttnFn => 2,
            Part::HcAttnScale => 4,
            Part::HcAttnBase => 4,
            Part::HcFfnFn => 2,
            Part::HcFfnScale => 4,
            Part::HcFfnBase => 4,
        }
    }

    fn is_global(self) -> (r: bool)
        ensures
            r == self.global(),
    {
        matches!(
            self,
            Part::TokEmbed | Part::OutputNorm | Part::Output | Part::OutputHcFn
                | Part::OutputHcScale | Part::OutputHcBase
        )
    }

    fn is_optional(self) -> (r: bool)
        ensures
            r == self.optional(),
    {
        matches!(self, Part::GateExps | Part::UpExps | Part::DownExps | Part::Router)
    }

    /// The name of the tensor of layer `il`.
    pub fn name(self, il: u32) -> (s: String)
        ensures
            s@ == self.tensor_name(il as int),
    {
        let suffix: &str = match self {
            Part::TokEmbed => "token_embd.weight",
            Part::OutputNorm => "output_norm.weight",
            Part::Output => "output.weight",
            Part::OutputHcFn => "output_hc_fn.weight",
            Part::OutputHcScale => "output_hc_scale.weight",
            Part::OutputHcBase => "output_hc_base.weight",
            Part::AttnNorm => "attn_norm.weight",
            Part::AttnQ => "attn_q.weight",
            Part::AttnKv => "attn_kv.weight",
            Part::AttnOut => "attn_output.weight",
            Part::FfnNorm => "ffn_norm.weight",
            Part::GateShexp => "ffn_gate_shexp.weight",
            Part::UpShexp => "ffn_up_shexp.weight",
            Part::DownShexp => "ffn_down_shexp.weight",
            Part::GateExps => "ffn_gate_exps.weight",
            Part::UpExps => "ffn_up_exps.weight",
            Part::DownExps => "ffn_down_exps.weight",
            Part::Router => "ffn_gate_inp.weight",
            Part::HcAttnFn => "hc_attn_fn.weight",
            Part::HcAttnScale => "hc_attn_scale.weight",
            Part::HcAttnBase => "hc_attn_base.weight",
            Part::HcFfnFn => "hc_ffn_fn.weight",
            Part::HcFfnScale => "hc_ffn_scale.weight",
            Part::HcFfnBase => "hc_ffn_base.weight",
        };
        if self.is_global() {
            String::from_str(suffix)
        } else {
            layer_tensor(il, suffix)
        }
    }

    fn expected_dtype(self) -> (r: Option<DType>)
        ensures
            r == self.dtype(),
    {
        match self {
            Part::TokEmbed => Some(DType::F16),
            Part::OutputNorm => Some(DType::F32),
            Part::Output => Some(DType::Q8_0),
            Part::OutputHcFn => Some(DType::F16),
            Part::OutputHcScale => Some(DType::F32),
            Part::OutputHcBase => Some(DType::F32),
            Part::AttnNorm => Some(DType::F32),
            Part::AttnQ => Some(DType::Q8_0),
            Part::AttnKv => Some(DType::Q8_0),
            Part::AttnOut => Some(DType::Q8_0),
            Part::FfnNorm => Some(DType::F32),
            Part::GateShexp => Some(DType::Q8_0),
            Part::UpShexp => Some(DType::Q8_0),
            Part::DownShexp => Some(DType::Q8_0),
            Part::GateExps => None,
            Part::UpExps => None,
            Part::DownExps => None,
            Part::Router => Some(DType::F16),
            Part::HcAttnFn => Some(DType::F16),
            Part::HcAttnScale => Some(DType::F32),
            Part::HcAttnBase => Some(DType::F32),
            Part::HcFfnFn => Some(DType::F16),
            Part::HcFfnScale => Some(DType::F32),
            Part::HcFfnBase => Some(DType::F32),
        }
    }

    fn expected_elems(self) -> (r: Option<u64>)
        ensures
            r == self.elems(),
    {
        match self {
            Part::TokEmbed => Some(N_EMBD as u64 * N_VOCAB as u64),
            Part::OutputNorm => Some(N_EMBD as u64),
            Part::Output => Some(N_EMBD as u64 * N_VOCAB as u64),
            Part::OutputHcFn => None,
            Part::OutputHcScale => Some(1),
            Part::OutputHcBase => Some(N_HC as u64),
            Part::AttnNorm => Some(N_EMBD as u64),
            Part::AttnQ => None,
            Part::AttnKv => Some(N_EMBD as u64 * N_HEAD_DIM as u64),
            Part::AttnOut => None,
            Part::FfnNorm => Some(N_EMBD as u64),
            Part::GateShexp => Some(N_EMBD as u64 * N_FF_EXP as u64),
            Part::UpShexp => Some(N_EMBD as u64 * N_FF_EXP as u64),
            Part::DownShexp => Some(N_EMBD as u64 * N_FF_EXP as u64),
            Part::GateExps => None,
            Part::UpExps => None,
            Part::DownExps => None,
            Part::Router => Some(N_EMBD as u64 * N_EXPERT as u64),
            Part::HcAttnFn => None,
            Part::HcAttnScale => Some(3),
            Part::HcAttnBase => None,
            Part::HcFfnFn => None,
            Part::HcFfnScale => Some(3),
            Part::HcFfnBase => None,
        }
    }

    fn word_size(self) -> (r: usize)
        ensures
            r == self.width(),
    {
        match self {
            Part::TokEmbed => 2,
            Part::OutputNorm => 4,
            Part::Output => 1,
            Part::OutputHcFn => 2,
            Part::OutputHcScale => 4,
            Part::OutputHcBase => 4,
            Part::AttnNorm => 4,
            Part::AttnQ => 1,
            Part::AttnKv => 1,
            Part::AttnOut => 1,
            Part::FfnNorm => 4,
            Part::GateShexp => 1,
            Part::UpShexp => 1,
            Part::DownShexp => 1,
            Part::GateExps => 1,
            Part::UpExps => 1,
            Part::DownExps => 1,
            Part::Router => 2,
            Part::HcAttnFn => 2,
            Part::HcAttnScale => 4,
            Part::HcAttnBase => 4,
            Part::HcFfnFn => 2,
            Part::HcFfnScale => 4,
            Part::HcFfnBase => 4,
        }
    }
}

/// Why the weights cannot be bound.
#[derive(Debug)]
pub enum WeightsError {
    ZeroLayers,
    /// A mandatory tensor, by its name, is not there.
    Missing(String),
    /// A tensor has a format that is not the expected one.
    WrongDtype(String, DType, DType),
    /// A routed-expert tensor has a format that no expert has.
    NotExpert(String, DType),
    /// A tensor has more elements than 64 bits can count.
    TooLarge(String),
    /// A tensor has a number of elements that is not the expected one.
    WrongElems(String, u64, u64),
    /// A tensor ends beyond the address space.
    TensorOverflow,
    /// A tensor extends past the end of the file.
    PastEnd(String),
    /// The bytes of a tensor are no whole number of words.
    Ragged(String, usize, usize),
    /// The bytes of a tensor do not lie at an address that words can lie at.
    Misaligned(String),
}

/// The meaning of an error.
#[verifier::ext_equal]
pub ghost enum Problem {
    ZeroLayers,
    Missing(Seq<char>),
    WrongDtype(Seq<char>, DType, DType),
    NotExpert(Seq<char>, DType),
    TooLarge(Seq<char>),
    WrongElems(Seq<char>, u64, u64),
    TensorOverflow,
    PastEnd(Seq<char>),
    Ragged(Seq<char>, usize, usize),
    Misaligned(Seq<char>),
}

impl View for WeightsError {
    type V = Problem;

    open spec fn view(&self) -> Problem {
        match *self {
            WeightsError::ZeroLayers => Problem::ZeroLayers,
            WeightsError::Missing(name) => Problem::Missing(name@),
            WeightsError::WrongDtype(name, got, want) => Problem::WrongDtype(name@, got, want),
            WeightsError::NotExpert(name, got) => Problem::NotExpert(name@, got),
            WeightsError::TooLarge(name) => Problem::TooLarge(name@),
            WeightsError::WrongElems(name, got, want) => Problem::WrongElems(name@, got, want),
            WeightsError::TensorOverflow => Problem::TensorOverflow,
            WeightsError::PastEnd(name) => Problem::PastEnd(name@),
            WeightsError::Ragged(name, len, width) => Problem::Ragged(name@, len, width),
            WeightsError::Misaligned(name) => Problem::Misaligned(name@),
        }
    }
}

impl WeightsError {
    /// The text that the error is shown with.
    pub open spec fn text(&self) -> Seq<char> {
        match self {
            WeightsError::ZeroLayers => "weights: config reports zero layers"@,
            WeightsError::Missing(name) => "weights: required tensor is missing: "@ + name@,
            WeightsError::WrongDtype(name, got, want) => "weights: tensor `"@ + name@
                + "` has dtype "@ + got.label() + ", expected "@ + want.label(),
            WeightsError::NotExpert(name, got) => "weights: tensor `"@ + name@ + "` has dtype "@
                + got.label() + ", expected routed expert quant (Q2_K / Q4_K / IQ2_XXS)"@,
            WeightsError::TooLarge(name) => "weights: tensor `"@ + name@
                + "` has too many elements"@,
            WeightsError::WrongElems(name, got, want) => "weights: tensor `"@ + name@ + "` has "@
                + decimal(*got as nat) + " elements, expected "@ + decimal(*want as nat),
            WeightsError::TensorOverflow => "gguf: tensor size overflow"@,
            WeightsError::PastEnd(name) => "gguf: tensor `"@ + name@ + "` extends past mmap"@,
            WeightsError::Ragged(name, len, width) => "weights: tensor `"@ + name@
                + "` byte length "@ + decimal(*len as nat) + " not a multiple of "@ + decimal(
                *width as nat,
            ) + (if *width == 2 {
                " (u16 cast)"@
            } else {
                " (f32 cast)"@
            }),
            WeightsError::Misaligned(name) => "weights: tensor `"@ + name@ + "` is misaligned"@,
        }
    }

    /// The text that the error is shown with.
    pub fn message(&self) -> (s: String)
        ensures
            s@ == self.text(),
    {
        let mut s: String = String::from_str("weights: tensor `");
        match self {
            WeightsError::ZeroLayers => {
                return String::from_str("weights: config reports zero layers");
            },
            WeightsError::Missing(name) => {
                return prefixed("weights: required tensor is missing: ", name.as_str());
            },
            WeightsError::WrongDtype(name, got, want) => {
                s.append(name.as_str());
                s.append("` has dtype ");
                s.append(got.name());
                s.append(", expected ");
                s.append(want.name());
            },
            WeightsError::NotExpert(name, got) => {
                s.append(name.as_str());
                s.append("` has dtype ");
                s.append(got.name());
                s.append(", expected routed expert quant (Q2_K / Q4_K / IQ2_XXS)");
            },
            WeightsError::TooLarge(name) => {
                s.append(name.as_str());
                s.append("` has too many elements");
            },
            WeightsError::WrongElems(name, got, want) => {
                s.append(name.as_str());
                s.append("` has ");
                append_decimal(&mut s, *got);
                s.append(" elements, expected ");
                append_decimal(&mut s, *want);
            },
            WeightsError::TensorOverflow => {
                return String::from_str("gguf: tensor size overflow");
            },
            WeightsError::PastEnd(name) => {
                let mut p: String = prefixed("gguf: tensor `", name.as_str());
                p.append("` extends past mmap");
                return p;
            },
            WeightsError::Ragged(name, len, width) => {
                s.append(name.as_str());
                s.append("` byte length ");
                append_decimal(&mut s, *len as u64);
                s.append(" not a multiple of ");
                append_decimal(&mut s, *width as u64);
                if *width == 2 {
                    s.append(" (u16 cast)");
                } else {
                    s.append(" (f32 cast)");
                }
            },
            WeightsError::Misaligned(name) => {
                s.append(name.as_str());
                s.append("` is misaligned");
            },
        }
        s
    }
}

/// One check of the binder: that a tensor is declared as expected, or that its
/// bytes can be had.
#[derive(Debug, Clone, Copy, PartialEq, Eq, Structural)]
pub enum Step {
    Declared(Part),
    Stored(Part),
}

pub open spec fn part_present(g: &Gguf, il: int, p: Part) -> bool {
    g.tensors@.dom().contains(p.tensor_name(il))
}

/// The tensor of a part.
pub open spec fn part_tensor(g: &Gguf, il: int, p: Part) -> Tensor {
    g.tensors@[p.tensor_name(il)]
}

/// The bytes of a part.
pub open spec fn part_bytes(g: &Gguf, il: int, p: Part) -> Seq<u8> {
    let t = part_tensor(g, il, p);
    g.data@.subrange(t.offset as int, t.offset + t.size_bytes)
}

/// A format of routed experts.
pub open spec fn expert_dtype(d: DType) -> bool {
    d == DType::Q2_K || d == DType::Q4_K || d == DType::IQ2_XXS
}

/// What is wrong with the declaration of a tensor.
pub open spec fn declared_problem(t: Tensor, name: Seq<char>, p: Part) -> Option<Problem> {
    match p.dtype() {
        None => if expert_dtype(t.dtype) {
            None
        } else {
            Some(Problem::NotExpert(name, t.dtype))
        },
        Some(want) => if t.dtype != want {
            Some(Problem::WrongDtype(t.name@, t.dtype, want))
        } else {
            match p.elems() {
                None => None,
                Some(n) => if elements(t.shape@) > u64::MAX {
                    Some(Problem::TooLarge(t.name@))
                } else if elements(t.shape@) != n {
                    Some(Problem::WrongElems(t.name@, elements(t.shape@) as u64, n))
                } else {
                    None
                },
            }
        },
    }
}

/// What is wrong with the bytes of a tensor, in a file of `len` bytes.
pub open spec fn stored_problem(t: Tensor, p: Part, len: nat) -> Option<Problem> {
    if t.offset + t.size_bytes > usize::MAX {
        Some(Problem::TensorOverflow)
    } else if t.offset + t.size_bytes > len {
        Some(Problem::PastEnd(t.name@))
    } else if t.size_bytes as nat % p.width() != 0 {
        Some(Problem::Ragged(t.name@, t.size_bytes as usize, p.width() as usize))
    } else {
        None
    }
}

/// What a check finds.
pub open spec fn step_problem(g: &Gguf, il: int, step: Step) -> Option<Problem> {
    match step {
        Step::Declared(p) => if part_present(g, il, p) {
            declared_problem(part_tensor(g, il, p), p.tensor_name(il), p)
        } else if p.optional() {
            None
        } else {
            Some(Problem::Missing(p.tensor_name(il)))
        },
        Step::Stored(p) => if part_present(g, il, p) {
            stored_problem(part_tensor(g, il, p), p, g.data@.len())
        } else {
            None
        },
    }
}

/// The tensors of the model as a whole.
pub open spec fn global_part(k: int) -> Part {
    match k as usize {
        0 => Part::TokEmbed,
        1 => Part::OutputNorm,
        2 => Part::Output,
        3 => Part::OutputHcFn,
        4 => Part::OutputHcScale,
        _ => Part::OutputHcBase,
    }
}

/// The number of checks of a layer.
pub const LAYER_STEPS: usize = 36;

/// The checks of a layer, in order.
pub open spec fn layer_step(k: int) -> Step {
    match k as usize {
        0 => Step::Declared(Part::AttnNorm),
        1 => Step::Declared(Part::FfnNorm),
        2 => Step::Declared(Part::AttnQ),
        3 => Step::Declared(Part::AttnKv),
        4 => Step::Declared(Part::AttnOut),
        5 => Step::Declared(Part::GateShexp),
        6 => Step::Declared(Part::UpShexp),
        7 => Step::Declared(Part::DownShexp),
        8 => Step::Declared(Part::GateExps),
        9 => Step::Stored(Part::GateExps),
        10 => Step::Declared(Part::UpExps),
        11 => Step::Stored(Part::UpExps),
        12 => Step::Declared(Part::DownExps),
        13 => Step::Stored(Part::DownExps),
        14 => Step::Declared(Part::Router),
        15 => Step::Stored(Part::Router),
        16 => Step::Declared(Part::HcAttnFn),
        17 => Step::Declared(Part::HcAttnScale),
        18 => Step::Declared(Part::HcAttnBase),
        19 => Step::Declared(Part::HcFfnFn),
        20 => Step::Declared(Part::HcFfnScale),
        21 => Step::Declared(Part::HcFfnBase),
        22 => Step::Stored(Part::AttnNorm),
        23 => Step::Stored(Part::AttnQ),
        24 => Step::Stored(Part::AttnKv),
        25 => Step::Stored(Part::AttnOut),
        26 => Step::Stored(Part::FfnNorm),
        27 => Step::Stored(Part::GateShexp),
        28 => Step::Stored(Part::UpShexp),
        29 => Step::Stored(Part::DownShexp),
        30 => Step::Stored(Part::HcAttnFn),
        31 => Step::Stored(Part::HcAttnScale),
        32 => Step::Stored(Part::HcAttnBase),
        33 => Step::Stored(Part::HcFfnFn),
        34 => Step::Stored(Part::HcFfnScale),
        _ => Step::Stored(Part::HcFfnBase),
    }
}

/// What the check number `k` of a model of `n` layers finds: the declarations of
/// the global tensors, then the layers, then the bytes of the global tensors.
pub open spec fn model_problem(g: &Gguf, n: int, k: int) -> Option<Problem> {
    if k < 6 {
        step_problem(g, 0, Step::Declared(global_part(k)))
    } else if k < 6 + 36 * n {
        step_problem(g, (k - 6) / 36, layer_step((k - 6) % 36))
    } else {
        step_problem(g, 0, Step::Stored(global_part(k - 6 - 36 * n)))
    }
}

/// The first `upto` checks of a model of `n` layers find nothing.
pub open spec fn passes_upto(g: &Gguf, n: int, upto: int) -> bool {
    forall|k: int| 0 <= k < upto ==> (#[trigger] model_problem(g, n, k)) is None
}

/// All checks of a model of `n` layers find nothing.
pub open spec fn bindable(g: &Gguf, n: int) -> bool {
    passes_upto(g, n, 12 + 36 * n)
}

/// `p` is what the first check that finds something finds.
pub open spec fn first_problem(g: &Gguf, n: int, p: Problem) -> bool {
    exists|k: int|
        0 <= k < 12 + 36 * n && #[trigger] model_problem(g, n, k) == Some(p) && passes_upto(g, n, k)
}

/// The number of a word in native byte order: one of the two orders.
pub open spec fn word(b: Seq<u8>, width: int, i: int, little: bool) -> nat {
    let s = b.subrange(width * i, width * i + width);
    if little {
        le_value(s)
    } else {
        le_value(s.reverse())
    }
}

/// `w` is what the bytes hold as 16-bit words, in the byte order of the machine.
pub open spec fn is_words_16(w: Seq<u16>, b: Seq<u8>) -> bool {
    w.len() * 2 == b.len() && (words_16(w, b, true) || words_16(w, b, false))
}

pub open spec fn words_16(w: Seq<u16>, b: Seq<u8>, little: bool) -> bool {
    forall|i: int| 0 <= i < w.len() ==> w[i] == #[trigger] word(b, 2, i, little)
}

/// `w` is what the bytes hold as 32-bit words, in the byte order of the machine.
pub open spec fn is_words_32(w: Seq<u32>, b: Seq<u8>) -> bool {
    w.len() * 4 == b.len() && (words_32(w, b, true) || words_32(w, b, false))
}

pub open spec fn words_32(w: Seq<u32>, b: Seq<u8>, little: bool) -> bool {
    forall|i: int| 0 <= i < w.len() ==> w[i] == #[trigger] word(b, 4, i, little)
}

/// `bytemuck::try_cast_slice` from bytes to 16-bit words. A success covers the
/// whole slice, each word being the bytes under it in the byte order of the
/// machine. It fails on an odd length and, depending on the address of the
/// slice, on misalignment; nothing is said of when that is.
#[verifier::external_body]
fn cast_u16(bytes: &[u8]) -> (r: Option<&[u16]>)
    ensures
        match r {
            Some(w) => is_words_16(w@, bytes@),
            None => true,
        },
{
    bytemuck::try_cast_slice(bytes).ok()
}

/// `bytemuck::try_cast_slice` from bytes to 32-bit words. A success covers the
/// whole slice, each word being the bytes under it in the byte order of the
/// machine. It fails on a length that is no multiple of four and, depending on
/// the address of the slice, on misalignment; nothing is said of when that is.
#[verifier::external_body]
fn cast_u32(bytes: &[u8]) -> (r: Option<&[u32]>)
    ensures
        match r {
            Some(w) => is_words_32(w@, bytes@),
            None => true,
        },
{
    bytemuck::try_cast_slice(bytes).ok()
}

/// The tensors of a layer. Where routed experts are absent, their tensors and
/// the router are.
#[derive(Debug)]
pub struct LayerWeights<'g> {
    /// Layer index.
    pub il: u32,
    pub attn_norm: &'g [u32],
    pub attn_q: &'g [u8],
    pub attn_kv: &'g [u8],
    pub attn_out: &'g [u8],
    pub ffn_norm: &'g [u32],
    pub ffn_gate_shexp: &'g [u8],
    pub ffn_up_shexp: &'g [u8],
    pub ffn_down_shexp: &'g [u8],
    pub ffn_gate_exps: Option<&'g [u8]>,
    pub ffn_up_exps: Option<&'g [u8]>,
    pub ffn_down_exps: Option<&'g [u8]>,
    pub ffn_router: Option<&'g [u16]>,
    pub hc_attn_fn: &'g [u16],
    pub hc_attn_scale: &'g [u32],
    pub hc_attn_base: &'g [u32],
    pub hc_ffn_fn: &'g [u16],
    pub hc_ffn_scale: &'g [u32],
    pub hc_ffn_base: &'g [u32],
}

impl<'g> LayerWeights<'g> {
    /// The fields are the tensors of the layer.
    pub open spec fn bound(&self, g: &Gguf) -> bool {
        let il = self.il as int;
        &&& is_words_32(self.attn_norm@, part_bytes(g, il, Part::AttnNorm))
        &&& self.attn_q@ == part_bytes(g, il, Part::AttnQ)
        &&& self.attn_kv@ == part_bytes(g, il, Part::AttnKv)
        &&& self.attn_out@ == part_bytes(g, il, Part::AttnOut)
        &&& is_words_32(self.ffn_norm@, part_bytes(g, il, Part::FfnNorm))
        &&& self.ffn_gate_shexp@ == part_bytes(g, il, Part::GateShexp)
        &&& self.ffn_up_shexp@ == part_bytes(g, il, Part::UpShexp)
        &&& self.ffn_down_shexp@ == part_bytes(g, il, Part::DownShexp)
        &&& match self.ffn_gate_exps {
            Some(w) => part_present(g, il, Part::GateExps) && w@ == part_bytes(
                g,
                il,
                Part::GateExps,
            ),
            None => !part_present(g, il, Part::GateExps),
        }
        &&& match self.ffn_up_exps {
            Some(w) => part_present(g, il, Part::UpExps) && w@ == part_bytes(g, il, Part::UpExps),
            None => !part_present(g, il, Part::UpExps),
        }
        &&& match self.ffn_down_exps {
            Some(w) => part_present(g, il, Part::DownExps) && w@ == part_bytes(
                g,
                il,
                Part::DownExps,
            ),
            None => !part_present(g, il, Part::DownExps),
        }
        &&& match self.ffn_router {
            Some(w) => part_present(g, il, Part::Router) && is_words_16(
                w@,
                part_bytes(g, il, Part::Router),
            ),
            None => !part_present(g, il, Part::Router),
        }
        &&& is_words_16(self.hc_attn_fn@, part_bytes(g, il, Part::HcAttnFn))
        &&& is_words_32(self.hc_attn_scale@, part_bytes(g, il, Part::HcAttnScale))
        &&& is_words_32(self.hc_attn_base@, part_bytes(g, il, Part::HcAttnBase))
        &&& is_words_16(self.hc_ffn_fn@, part_bytes(g, il, Part::HcFfnFn))
        &&& is_words_32(self.hc_ffn_scale@, part_bytes(g, il, Part::HcFfnScale))
        &&& is_words_32(self.hc_ffn_base@, part_bytes(g, il, Part::HcFfnBase))
    }
}

/// The tensors of a model.
#[derive(Debug)]
pub struct ModelWeights<'g> {
    pub tok_embed: &'g [u16],
    pub output_norm: &'g [u32],
    pub output: &'g [u8],
    pub output_hc_fn: &'g [u16],
    pub output_hc_scale: &'g [u32],
    pub output_hc_base: &'g [u32],
    pub layers: Vec<LayerWeights<'g>>,
}

impl<'g> ModelWeights<'g> {
    /// The fields are the tensors of the model, layer by layer.
    pub open spec fn bound(&self, g: &Gguf, n: int) -> bool {
        &&& is_words_16(self.tok_embed@, part_bytes(g, 0, Part::TokEmbed))
        &&& is_words_32(self.output_norm@, part_bytes(g, 0, Part::OutputNorm))
        &&& self.output@ == part_bytes(g, 0, Part::Output)
        &&& is_words_16(self.output_hc_fn@, part_bytes(g, 0, Part::OutputHcFn))
        &&& is_words_32(self.output_hc_scale@, part_bytes(g, 0, Part::OutputHcScale))
        &&& is_words_32(self.output_hc_base@, part_bytes(g, 0, Part::OutputHcBase))
        &&& self.layers@.len() == n
        &&& forall|il: int|
            0 <= il < n ==> (#[trigger] self.layers@[il]).il == il && self.layers@[il].bound(g)
    }
}

/// The name of a tensor, of a model of `n` layers, that is handed out in words of
/// more than a byte.
pub open spec fn names_words(name: Seq<char>, n: int) -> bool {
    exists|il: int, p: Part|
        0 <= il < n && p.width() > 1 && name == #[trigger] p.tensor_name(il)
}

/// Resolve every tensor of the model by name, check it, and produce a typed view
/// of the file.
///
/// Every error but the last is reported exactly if a check finds it, the first
/// one first. Misaligned bytes are found only when all checks have passed.
pub fn bind_weights<'g>(g: &'g Gguf, cfg: &Config) -> (r: Result<ModelWeights<'g>, WeightsError>)
    ensures
        match r {
            Ok(w) => cfg.n_layers > 0 && bindable(g, cfg.n_layers as int) && w.bound(
                g,
                cfg.n_layers as int,
            ),
            Err(WeightsError::ZeroLayers) => cfg.n_layers == 0,
            Err(WeightsError::Misaligned(name)) => cfg.n_layers > 0 && bindable(
                g,
                cfg.n_layers as int,
            ) && names_words(name@, cfg.n_layers as int),
            Err(e) => cfg.n_layers > 0 && first_problem(g, cfg.n_layers as int, e@),
        },
{
    if cfg.n_layers == 0 {
        return Err(WeightsError::ZeroLayers);
    }
    match check_model(g, cfg.n_layers) {
        Ok(()) => {},
        Err(e) => {
            return Err(e);
        },
    }
    let ghost n = cfg.n_layers as int;
    let mut layers: Vec<LayerWeights<'g>> = Vec::new();
    let mut il: u32 = 0;
    while il < cfg.n_layers
        invariant
            il <= cfg.n_layers,
            n == cfg.n_layers,
            bindable(g, n),
            layers@.len() == il,
            forall|j: int| 0 <= j < il ==> (#[trigger] layers@[j]).il == j && layers@[j].bound(g),
        decreases cfg.n_layers - il,
    {
        match bind_layer(g, il, Ghost(n)) {
            Ok(layer) => {
                layers.push(layer);
            },
            Err(e) => {
                return Err(e);
            },
        }
        il = il + 1;
    }
    let tok_embed: &'g [u16] = match as_u16(g, 0, Part::TokEmbed, Ghost(n)) {
        Ok(w) => w,
        Err(e) => {
            return Err(e);
        },
    };
    let output_norm: &'g [u32] = match as_f32(g, 0, Part::OutputNorm, Ghost(n)) {
        Ok(w) => w,
        Err(e) => {
            return Err(e);
        },
    };
    let output: &'g [u8] = as_u8(g, 0, Part::Output, Ghost(n));
    let output_hc_fn: &'g [u16] = match as_u16(g, 0, Part::OutputHcFn, Ghost(n)) {
        Ok(w) => w,
        Err(e) => {
            return Err(e);
        },
    };
    let output_hc_scale: &'g [u32] = match as_f32(g, 0, Part::OutputHcScale, Ghost(n)) {
        Ok(w) => w,
        Err(e) => {
            return Err(e);
        },
    };
    let output_hc_base: &'g [u32] = match as_f32(g, 0, Part::OutputHcBase, Ghost(n)) {
        Ok(w) => w,
        Err(e) => {
            return Err(e);
        },
    };
    Ok(
        ModelWeights {
            tok_embed, output_norm, output, output_hc_fn, output_hc_scale, output_hc_base,
            layers,
        },
    )
}

/// The typed view of layer `il` of a model whose checks have passed.
fn bind_layer<'g>(g: &'g Gguf, il: u32, n: Ghost<int>) -> (r: Result<
    LayerWeights<'g>,
    WeightsError,
>)
    requires
        il < n@,
        bindable(g, n@),
    ensures
        match r {
            Ok(w) => w.il == il && w.bound(g),
            Err(e) => e is Misaligned && names_words(e->Misaligned_0@, n@),
        },
{
    let attn_norm: &'g [u32] = match as_f32(g, il, Part::AttnNorm, n) {
        Ok(w) => w,
        Err(e) => {
            return Err(e);
        },
    };
    let attn_q: &'g [u8] = as_u8(g, il, Part::AttnQ, n);
    let attn_kv: &'g [u8] = as_u8(g, il, Part::AttnKv, n);
    let attn_out: &'g [u8] = as_u8(g, il, Part::AttnOut, n);
    let ffn_norm: &'g [u32] = match as_f32(g, il, Part::FfnNorm, n) {
        Ok(w) => w,
        Err(e) => {
            return Err(e);
        },
    };
    let ffn_gate_shexp: &'g [u8] = as_u8(g, il, Part::GateShexp, n);
    let ffn_up_shexp: &'g [u8] = as_u8(g, il, Part::UpShexp, n);
    let ffn_down_shexp: &'g [u8] = as_u8(g, il, Part::DownShexp, n);
    let ffn_gate_exps: Option<&'g [u8]> = if present(g, il, Part::GateExps) {
        Some(as_u8(g, il, Part::GateExps, n))
    } else {
        None
    };
    let ffn_up_exps: Option<&'g [u8]> = if present(g, il, Part::UpExps) {
        Some(as_u8(g, il, Part::UpExps, n))
    } else {
        None
    };
    let ffn_down_exps: Option<&'g [u8]> = if present(g, il, Part::DownExps) {
        Some(as_u8(g, il, Part::DownExps, n))
    } else {
        None
    };
    let ffn_router: Option<&'g [u16]> = if present(g, il, Part::Router) {
        match as_u16(g, il, Part::Router, n) {
            Ok(w) => Some(w),
            Err(e) => {
                return Err(e);
            },
        }
    } else {
        None
    };
    let hc_attn_fn: &'g [u16] = match as_u16(g, il, Part::HcAttnFn, n) {
        Ok(w) => w,
        Err(e) => {
            return Err(e);
        },
    };
    let hc_attn_scale: &'g [u32] = match as_f32(g, il, Part::HcAttnScale, n) {
        Ok(w) => w,
        Err(e) => {
            return Err(e);
        },
    };
    let hc_attn_base: &'g [u32] = match as_f32(g, il, Part::HcAttnBase, n) {
        Ok(w) => w,
        Err(e) => {
            return Err(e);
        },
    };
    let hc_ffn_fn: &'g [u16] = match as_u16(g, il, Part::HcFfnFn, n) {
        Ok(w) => w,
        Err(e) => {
            return Err(e);
        },
    };
    let hc_ffn_scale: &'g [u32] = match as_f32(g, il, Part::HcFfnScale, n) {
        Ok(w) => w,
        Err(e) => {
            return Err(e);
        },
    };
    let hc_ffn_base: &'g [u32] = match as_f32(g, il, Part::HcFfnBase, n) {
        Ok(w) => w,
        Err(e) => {
            return Err(e);
        },
    };
    Ok(
        LayerWeights {
            il,
            attn_norm,
            attn_q,
            attn_kv,
            attn_out,
            ffn_norm,
            ffn_gate_shexp,
            ffn_up_shexp,
            ffn_down_shexp,
            ffn_gate_exps,
            ffn_up_exps,
            ffn_down_exps,
            ffn_router,
            hc_attn_fn,
            hc_attn_scale,
            hc_attn_base,
            hc_ffn_fn,
            hc_ffn_scale,
            hc_ffn_base,
        },
    )
}

/// Run all checks of a model of `n` layers.
fn check_model(g: &Gguf, n: u32) -> (r: Result<(), WeightsError>)
    ensures
        match r {
            Ok(_) => bindable(g, n as int),
            Err(e) => first_problem(g, n as int, e@) && !(e is Misaligned) && !(e is ZeroLayers),
        },
{
    let mut k: usize = 0;
    while k < 6
        invariant
            k <= 6,
            passes_upto(g, n as int, k as int),
        decreases 6 - k,
    {
        match check(g, 0, Step::Declared(global(k))) {
            Ok(()) => {},
            Err(e) => {
                assert(model_problem(g, n as int, k as int) == Some(e@));
                return Err(e);
            },
        }
        k = k + 1;
    }
    let mut il: u32 = 0;
    while il < n
        invariant
            il <= n,
            passes_upto(g, n as int, 6 + 36 * il),
        decreases n - il,
    {
        let mut j: usize = 0;
        while j < LAYER_STEPS
            invariant
                il < n,
                j <= 36,
                passes_upto(g, n as int, 6 + 36 * il + j),
            decreases 36 - j,
        {
            let ghost at = 6 + 36 * il + j;
            assert((at - 6) / 36 == il && (at - 6) % 36 == j);
            match check(g, il, step_of(j)) {
                Ok(()) => {},
                Err(e) => {
                    assert(model_problem(g, n as int, at) == Some(e@));
                    return Err(e);
                },
            }
            j = j + 1;
        }
        il = il + 1;
    }
    let mut k: usize = 0;
    while k < 6
        invariant
            k <= 6,
            passes_upto(g, n as int, 6 + 36 * n + k),
        decreases 6 - k,
    {
        match check(g, 0, Step::Stored(global(k))) {
            Ok(()) => {},
            Err(e) => {
                assert(model_problem(g, n as int, 6 + 36 * n + k) == Some(e@));
                return Err(e);
            },
        }
        k = k + 1;
    }
    Ok(())
}

fn global(k: usize) -> (p: Part)
    ensures
        p == global_part(k as int),
{
    match k {
        0 => Part::TokEmbed,
        1 => Part::OutputNorm,
        2 => Part::Output,
        3 => Part::OutputHcFn,
        4 => Part::OutputHcScale,
        _ => Part::OutputHcBase,
    }
}

fn step_of(k: usize) -> (s: Step)
    ensures
        s == layer_step(k as int),
{
    match k {
        0 => Step::Declared(Part::AttnNorm),
        1 => Step::Declared(Part::FfnNorm),
        2 => Step::Declared(Part::AttnQ),
        3 => Step::Declared(Part::AttnKv),
        4 => Step::Declared(Part::AttnOut),
        5 => Step::Declared(Part::GateShexp),
        6 => Step::Declared(Part::UpShexp),
        7 => Step::Declared(Part::DownShexp),
        8 => Step::Declared(Part::GateExps),
        9 => Step::Stored(Part::GateExps),
        10 => Step::Declared(Part::UpExps),
        11 => Step::Stored(Part::UpExps),
        12 => Step::Declared(Part::DownExps),
        13 => Step::Stored(Part::DownExps),
        14 => Step::Declared(Part::Router),
        15 => Step::Stored(Part::Router),
        16 => Step::Declared(Part::HcAttnFn),
        17 => Step::Declared(Part::HcAttnScale),
        18 => Step::Declared(Part::HcAttnBase),
        19 => Step::Declared(Part::HcFfnFn),
        20 => Step::Declared(Part::HcFfnScale),
        21 => Step::Declared(Part::HcFfnBase),
        22 => Step::Stored(Part::AttnNorm),
        23 => Step::Stored(Part::AttnQ),
        24 => Step::Stored(Part::AttnKv),
        25 => Step::Stored(Part::AttnOut),
        26 => Step::Stored(Part::FfnNorm),
        27 => Step::Stored(Part::GateShexp),
        28 => Step::Stored(Part::UpShexp),
        29 => Step::Stored(Part::DownShexp),
        30 => Step::Stored(Part::HcAttnFn),
        31 => Step::Stored(Part::HcAttnScale),
        32 => Step::Stored(Part::HcAttnBase),
        33 => Step::Stored(Part::HcFfnFn),
        34 => Step::Stored(Part::HcFfnScale),
        _ => Step::Stored(Part::HcFfnBase),
    }
}

/// Run one check.
fn check(g: &Gguf, il: u32, step: Step) -> (r: Result<(), WeightsError>)
    ensures
        match step_problem(g, il as int, step) {
            None => r is Ok,
            Some(p) => r is Err && r->Err_0@ == p && !(r->Err_0 is Misaligned) && !(
            r->Err_0 is ZeroLayers),
        },
{
    match step {
        Step::Declared(p) => {
            let name: String = p.name(il);
            match g.tensors.get(name.as_str()) {
                Some(t) => expect_declared(t, name, p),
                None => if p.is_optional() {
                    Ok(())
                } else {
                    Err(WeightsError::Missing(name))
                },
            }
        },
        Step::Stored(p) => {
            match g.tensors.get(p.name(il).as_str()) {
                Some(t) => expect_stored(g, t, p),
                None => Ok(()),
            }
        },
    }
}

/// Hold a tensor against the format and the number of elements expected.
fn expect_declared(t: &Tensor, name: String, p: Part) -> (r: Result<(), WeightsError>)
    ensures
        match declared_problem(*t, name@, p) {
            None => r is Ok,
            Some(problem) => r is Err && r->Err_0@ == problem && !(r->Err_0 is Misaligned) && !(
            r->Err_0 is ZeroLayers),
        },
{
    match p.expected_dtype() {
        None => match t.dtype {
            DType::Q2_K | DType::Q4_K | DType::IQ2_XXS => Ok(()),
            other => Err(WeightsError::NotExpert(name, other)),
        },
        Some(want) => {
            if t.dtype != want {
                return Err(WeightsError::WrongDtype(t.name.clone(), t.dtype, want));
            }
            match p.expected_elems() {
                None => Ok(()),
                Some(n) => match element_count(t.shape.as_slice()) {
                    None => Err(WeightsError::TooLarge(t.name.clone())),
                    Some(got) => if got != n {
                        Err(WeightsError::WrongElems(t.name.clone(), got, n))
                    } else {
                        Ok(())
                    },
                },
            }
        },
    }
}

/// Check that the bytes of a tensor are in the file, in whole words.
fn expect_stored(g: &Gguf, t: &Tensor, p: Part) -> (r: Result<(), WeightsError>)
    ensures
        match stored_problem(*t, p, g.data@.len()) {
            None => r is Ok,
            Some(problem) => r is Err && r->Err_0@ == problem && !(r->Err_0 is Misaligned) && !(
            r->Err_0 is ZeroLayers),
        },
{
    assert(g.data.len() <= usize::MAX);
    match g.tensor_bytes(t) {
        Ok(bytes) => {
            let width: usize = p.word_size();
            if bytes.len() % width != 0 {
                return Err(WeightsError::Ragged(t.name.clone(), bytes.len(), width));
            }
            Ok(())
        },
        Err(GgufError::PastEnd(name)) => Err(WeightsError::PastEnd(name)),
        Err(_) => Err(WeightsError::TensorOverflow),
    }
}

/// A part's declaration and bytes are as they should be.
pub open spec fn part_ok(g: &Gguf, il: int, p: Part) -> bool {
    step_problem(g, il, Step::Declared(p)) is None && step_problem(g, il, Step::Stored(p)) is None
}

/// Where all checks of a model of `n` layers find nothing, every part of every
/// layer is as it should be, and only optional ones can be absent.
pub proof fn lemma_parts_ok(g: &Gguf, n: int, il: int, p: Part)
    requires
        0 <= il < n,
        bindable(g, n),
        p.global() ==> il == 0,
    ensures
        part_ok(g, il, p),
        p.optional() || part_present(g, il, p),
{
    if p.global() {
        let k = match p {
            Part::TokEmbed => 0,
            Part::OutputNorm => 1,
            Part::Output => 2,
            Part::OutputHcFn => 3,
            Part::OutputHcScale => 4,
            _ => 5int,
        };
        assert(global_part(k) == p);
        assert(model_problem(g, n, k) is None);
        assert(model_problem(g, n, 6 + 36 * n + k) is None);
    } else {
        let (d, s): (int, int) = match p {
                Part::AttnNorm => (0, 22),
                Part::AttnQ => (2, 23),
                Part::AttnKv => (3, 24),
                Part::AttnOut => (4, 25),
                Part::FfnNorm => (1, 26),
                Part::GateShexp => (5, 27),
                Part::UpShexp => (6, 28),
                Part::DownShexp => (7, 29),
                Part::GateExps => (8, 9),
                Part::UpExps => (10, 11),
                Part::DownExps => (12, 13),
                Part::Router => (14, 15),
                Part::HcAttnFn => (16, 30),
                Part::HcAttnScale => (17, 31),
                Part::HcAttnBase => (18, 32),
                Part::HcFfnFn => (19, 33),
                Part::HcFfnScale => (20, 34),
                _ => (21, 35),
        };
        assert(layer_step(d) == Step::Declared(p));
        assert(layer_step(s) == Step::Stored(p));
        assert((36 * il + d) / 36 == il && (36 * il + d) % 36 == d);
        assert((36 * il + s) / 36 == il && (36 * il + s) % 36 == s);
        assert(model_problem(g, n, 6 + 36 * il + d) is None);
        assert(model_problem(g, n, 6 + 36 * il + s) is None);
    }
}

fn present(g: &Gguf, il: u32, p: Part) -> (r: bool)
    ensures
        r == part_present(g, il as int, p),
{
    g.tensors.contains_key(p.name(il).as_str())
}

/// The bytes of a part.
fn as_u8<'g>(g: &'g Gguf, il: u32, p: Part, n: Ghost<int>) -> (r: &'g [u8])
    requires
        bindable(g, n@),
        il < n@,
        p.global() ==> il == 0,
        p.optional() ==> part_present(g, il as int, p),
    ensures
        r@ == part_bytes(g, il as int, p),
{
    proof {
        lemma_parts_ok(g, n@, il as int, p);
    }
    assert(g.data.len() <= usize::MAX);
    match g.tensors.get(p.name(il).as_str()) {
        Some(t) => match g.tensor_bytes(t) {
            Ok(bytes) => bytes,
            Err(_) => {
                assert(false);
                g.data
            },
        },
        None => {
            assert(false);
            g.data
        },
    }
}

/// The bytes of a part as 16-bit words.
fn as_u16<'g>(g: &'g Gguf, il: u32, p: Part, n: Ghost<int>) -> (r: Result<&'g [u16], WeightsError>)
    requires
        bindable(g, n@),
        il < n@,
        p.global() ==> il == 0,
        p.optional() ==> part_present(g, il as int, p),
    ensures
        match r {
            Ok(w) => is_words_16(w@, part_bytes(g, il as int, p)),
            Err(e) => e@ == Problem::Misaligned(p.tensor_name(il as int)),
        },
{
    match cast_u16(as_u8(g, il, p, n)) {
        Some(w) => Ok(w),
        None => Err(WeightsError::Misaligned(p.name(il))),
    }
}

/// The bytes of a part as the bits of single-precision numbers.
fn as_f32<'g>(g: &'g Gguf, il: u32, p: Part, n: Ghost<int>) -> (r: Result<&'g [u32], WeightsError>)
    requires
        bindable(g, n@),
        il < n@,
        p.global() ==> il == 0,
        p.optional() ==> part_present(g, il as int, p),
    ensures
        match r {
            Ok(w) => is_words_32(w@, part_bytes(g, il as int, p)),
            Err(e) => e@ == Problem::Misaligned(p.tensor_name(il as int)),
        },
{
    match cast_u32(as_u8(g, il, p, n)) {
        Some(w) => Ok(w),
        None => Err(WeightsError::Misaligned(p.name(il))),
    }
}

/// The tensors that the graph reads: the name of each, by layer where it belongs to
/// one, its format, and its number of elements where that is fixed.
pub proof fn lemma_part_table(p: Part, il: int)
    ensures
        match p {
            Part::TokEmbed => p.tensor_name(il) == "token_embd.weight"@ && p.dtype() == Some(DType::F16) && p.elems() == Some(529530880u64),
            Part::OutputNorm => p.tensor_name(il) == "output_norm.weight"@ && p.dtype() == Some(DType::F32) && p.elems() == Some(4096u64),
            Part::Output => p.tensor_name(il) == "output.weight"@ && p.dtype() == Some(DType::Q8_0) && p.elems() == Some(529530880u64),
            Part::OutputHcFn => p.tensor_name(il) == "output_hc_fn.weight"@ && p.dtype() == Some(DType::F16) && p.elems() is None,
            Part::OutputHcScale => p.tensor_name(il) == "output_hc_scale.weight"@ && p.dtype() == Some(DType::F32) && p.elems() == Some(1u64),
            Part::OutputHcBase => p.tensor_name(il) == "output_hc_base.weight"@ && p.dtype() == Some(DType::F32) && p.elems() == Some(4u64),
            Part::AttnNorm => p.tensor_name(il) == layer_tensor_name(il, "attn_norm.weight"@) && p.dtype() == Some(DType::F32) && p.elems() == Some(4096u64),
            Part::AttnQ => p.tensor_name(il) == layer_tensor_name(il, "attn_q.weight"@) && p.dtype() == Some(DType::Q8_0) && p.elems() is None,
            Part::AttnKv => p.tensor_name(il) == layer_tensor_name(il, "attn_kv.weight"@) && p.dtype() == Some(DType::Q8_0) && p.elems() == Some(2097152u64),
            Part::AttnOut => p.tensor_name(il) == layer_tensor_name(il, "attn_output.weight"@) && p.dtype() == Some(DType::Q8_0) && p.elems() is None,
            Part::FfnNorm => p.tensor_name(il) == layer_tensor_name(il, "ffn_norm.weight"@) && p.dtype() == Some(DType::F32) && p.elems() == Some(4096u64),
            Part::GateShexp => p.tensor_name(il) == layer_tensor_name(il, "ffn_gate_shexp.weight"@) && p.dtype() == Some(DType::Q8_0) && p.elems() == Some(8388608u64),
            Part::UpShexp => p.tensor_name(il) == layer_tensor_name(il, "ffn_up_shexp.weight"@) && p.dtype() == Some(DType::Q8_0) && p.elems() == Some(8388608u64),
            Part::DownShexp => p.tensor_name(il) == layer_tensor_name(il, "ffn_down_shexp.weight"@) && p.dtype() == Some(DType::Q8_0) && p.elems() == Some(8388608u64),
            Part::GateExps => p.tensor_name(il) == layer_tensor_name(il, "ffn_gate_exps.weight"@) && p.dtype() is None && p.elems() is None,
            Part::UpExps => p.tensor_name(il) == layer_tensor_name(il, "ffn_up_exps.weight"@) && p.dtype() is None && p.elems() is None,
            Part::DownExps => p.tensor_name(il) == layer_tensor_name(il, "ffn_down_exps.weight"@) && p.dtype() is None && p.elems() is None,
            Part::Router => p.tensor_name(il) == layer_tensor_name(il, "ffn_gate_inp.weight"@) && p.dtype() == Some(DType::F16) && p.elems() == Some(1048576u64),
            Part::HcAttnFn => p.tensor_name(il) == layer_tensor_name(il, "hc_attn_fn.weight"@) && p.dtype() == Some(DType::F16) && p.elems() is None,
            Part::HcAttnScale => p.tensor_name(il) == layer_tensor_name(il, "hc_attn_scale.weight"@) && p.dtype() == Some(DType::F32) && p.elems() == Some(3u64),
            Part::HcAttnBase => p.tensor_name(il) == layer_tensor_name(il, "hc_attn_base.weight"@) && p.dtype() == Some(DType::F32) && p.elems() is None,
            Part::HcFfnFn => p.tensor_name(il) == layer_tensor_name(il, "hc_ffn_fn.weight"@) && p.dtype() == Some(DType::F16) && p.elems() is None,
            Part::HcFfnScale => p.tensor_name(il) == layer_tensor_name(il, "hc_ffn_scale.weight"@) && p.dtype() == Some(DType::F32) && p.elems() == Some(3u64),
            Part::HcFfnBase => p.tensor_name(il) == layer_tensor_name(il, "hc_ffn_base.weight"@) && p.dtype() == Some(DType::F32) && p.elems() is None,
        },
        p.optional() <==> p == Part::GateExps || p == Part::UpExps || p == Part::DownExps || p
            == Part::Router,
{
}

/// A tensor is handed out in words of the size of its numbers, and in bytes where it
/// is quantized.
pub proof fn lemma_part_words(p: Part)
    ensures
        p.dtype() == Some(DType::F16) ==> p.width() == DType::F16.block().1,
        p.dtype() == Some(DType::F32) ==> p.width() == DType::F32.block().1,
        p.dtype() != Some(DType::F16) && p.dtype() != Some(DType::F32) ==> p.width() == 1,
{
}

/// A tensor is declared as it should be exactly if it has the expected format, one of
/// the three of routed experts where it is one, and the expected number of elements.
pub proof fn lemma_declared(t: Tensor, name: Seq<char>, p: Part)
    ensures
        declared_problem(t, name, p) is None <==> (match p.dtype() {
            Some(d) => t.dtype == d,
            None => t.dtype == DType::Q2_K || t.dtype == DType::Q4_K || t.dtype == DType::IQ2_XXS,
        }) && (match p.elems() {
            Some(n) => elements(t.shape@) == n,
            None => true,
        }),
{
}

/// The bytes of a tensor are usable exactly if they lie in the file, in whole words.
pub proof fn lemma_stored(t: Tensor, p: Part, len: nat)
    requires
        len <= usize::MAX,
    ensures
        stored_problem(t, p, len) is None <==> t.offset + t.size_bytes <= len && t.size_bytes as nat
            % p.width() == 0,
{
}

/// The bytes of the file that belong to the tensor of a name.
pub open spec fn named_bytes(g: &Gguf, name: Seq<char>) -> Seq<u8> {
    let t = g.tensors@[name];
    g.data@.subrange(t.offset as int, t.offset + t.size_bytes)
}

/// Each field of a bound layer is the tensor of that layer with that name; those of the
/// routed experts are there exactly if the file has them.
pub proof fn lemma_layer_fields(w: &LayerWeights, g: &Gguf)
    requires
        w.bound(g),
    ensures
        is_words_32(w.attn_norm@, named_bytes(g, layer_tensor_name(w.il as int, "attn_norm.weight"@))),
        w.attn_q@ == named_bytes(g, layer_tensor_name(w.il as int, "attn_q.weight"@)),
        w.attn_kv@ == named_bytes(g, layer_tensor_name(w.il as int, "attn_kv.weight"@)),
        w.attn_out@ == named_bytes(g, layer_tensor_name(w.il as int, "attn_output.weight"@)),
        is_words_32(w.ffn_norm@, named_bytes(g, layer_tensor_name(w.il as int, "ffn_norm.weight"@))),
        w.ffn_gate_shexp@ == named_bytes(g, layer_tensor_name(w.il as int, "ffn_gate_shexp.weight"@)),
        w.ffn_up_shexp@ == named_bytes(g, layer_tensor_name(w.il as int, "ffn_up_shexp.weight"@)),
        w.ffn_down_shexp@ == named_bytes(g, layer_tensor_name(w.il as int, "ffn_down_shexp.weight"@)),
        is_words_16(w.hc_attn_fn@, named_bytes(g, layer_tensor_name(w.il as int, "hc_attn_fn.weight"@))),
        is_words_32(w.hc_attn_scale@, named_bytes(g, layer_tensor_name(w.il as int, "hc_attn_scale.weight"@))),
        is_words_32(w.hc_attn_base@, named_bytes(g, layer_tensor_name(w.il as int, "hc_attn_base.weight"@))),
        is_words_16(w.hc_ffn_fn@, named_bytes(g, layer_tensor_name(w.il as int, "hc_ffn_fn.weight"@))),
        is_words_32(w.hc_ffn_scale@, named_bytes(g, layer_tensor_name(w.il as int, "hc_ffn_scale.weight"@))),
        is_words_32(w.hc_ffn_base@, named_bytes(g, layer_tensor_name(w.il as int, "hc_ffn_base.weight"@))),
        w.ffn_gate_exps is Some <==> g.tensors@.dom().contains(layer_tensor_name(w.il as int, "ffn_gate_exps.weight"@)),
        w.ffn_gate_exps is Some ==> w.ffn_gate_exps->0@ == named_bytes(g, layer_tensor_name(w.il as int, "ffn_gate_exps.weight"@)),
        w.ffn_up_exps is Some <==> g.tensors@.dom().contains(layer_tensor_name(w.il as int, "ffn_up_exps.weight"@)),
        w.ffn_up_exps is Some ==> w.ffn_up_exps->0@ == named_bytes(g, layer_tensor_name(w.il as int, "ffn_up_exps.weight"@)),
        w.ffn_down_exps is Some <==> g.tensors@.dom().contains(layer_tensor_name(w.il as int, "ffn_down_exps.weight"@)),
        w.ffn_down_exps is Some ==> w.ffn_down_exps->0@ == named_bytes(g, layer_tensor_name(w.il as int, "ffn_down_exps.weight"@)),
        w.ffn_router is Some <==> g.tensors@.dom().contains(layer_tensor_name(w.il as int, "ffn_gate_inp.weight"@)),
        w.ffn_router is Some ==> is_words_16(w.ffn_router->0@, named_bytes(g, layer_tensor_name(w.il as int, "ffn_gate_inp.weight"@))),
{
}

/// Each field of a bound model is the tensor with that name, and the layers are there
/// in order.
pub proof fn lemma_model_fields(w: &ModelWeights, g: &Gguf, n: int, il: int)
    requires
        w.bound(g, n),
        0 <= il < n,
    ensures
        is_words_16(w.tok_embed@, named_bytes(g, "token_embd.weight"@)),
        is_words_32(w.output_norm@, named_bytes(g, "output_norm.weight"@)),
        w.output@ == named_bytes(g, "output.weight"@),
        is_words_16(w.output_hc_fn@, named_bytes(g, "output_hc_fn.weight"@)),
        is_words_32(w.output_hc_scale@, named_bytes(g, "output_hc_scale.weight"@)),
        is_words_32(w.output_hc_base@, named_bytes(g, "output_hc_base.weight"@)),
        w.layers@.len() == n,
        w.layers@[il].il == il,
        w.layers@[il].bound(g),
{
}

/// Words are made of neighbouring bytes in one of the two byte orders, the same for all
/// words of a tensor.
pub proof fn lemma_words(w16: Seq<u16>, w32: Seq<u32>, b: Seq<u8>)
    ensures
        is_words_16(w16, b) ==> 2 * w16.len() == b.len() && ((forall|i: int|
            0 <= i < w16.len() ==> #[trigger] w16[i] == b[2 * i] + 256 * b[2 * i + 1]) || (
        forall|i: int| 0 <= i < w16.len() ==> #[trigger] w16[i] == b[2 * i + 1] + 256 * b[2 * i])),
        is_words_32(w32, b) ==> 4 * w32.len() == b.len() && ((forall|i: int|
            0 <= i < w32.len() ==> #[trigger] w32[i] == b[4 * i] + 256 * b[4 * i + 1] + 0x1_0000
                * b[4 * i + 2] + 0x100_0000 * b[4 * i + 3]) || (forall|i: int|
            0 <= i < w32.len() ==> #[trigger] w32[i] == b[4 * i + 3] + 256 * b[4 * i + 2] + 0x1_0000
                * b[4 * i + 1] + 0x100_0000 * b[4 * i])),
{
    if is_words_16(w16, b) {
        let little = words_16(w16, b, true);
        assert forall|i: int| 0 <= i < w16.len() implies #[trigger] w16[i] == if little {
            b[2 * i] + 256 * b[2 * i + 1]
        } else {
            b[2 * i + 1] + 256 * b[2 * i]
        } by {
            let s = b.subrange(2 * i, 2 * i + 2);
            lemma_two_bytes(s);
            lemma_two_bytes(s.reverse());
            assert(w16[i] == word(b, 2, i, little));
        }
    }
    if is_words_32(w32, b) {
        let little = words_32(w32, b, true);
        assert forall|i: int| 0 <= i < w32.len() implies #[trigger] w32[i] == if little {
            b[4 * i] + 256 * b[4 * i + 1] + 0x1_0000 * b[4 * i + 2] + 0x100_0000 * b[4 * i + 3]
        } else {
            b[4 * i + 3] + 256 * b[4 * i + 2] + 0x1_0000 * b[4 * i + 1] + 0x100_0000 * b[4 * i]
        } by {
            let s = b.subrange(4 * i, 4 * i + 4);
            lemma_four_bytes(s);
            lemma_four_bytes(s.reverse());
            assert(w32[i] == word(b, 4, i, little));
        }
    }
}

proof fn lemma_two_bytes(s: Seq<u8>)
    requires
        s.len() == 2,
    ensures
        le_value(s) == s[0] + 256 * s[1],
{
    reveal_with_fuel(le_value, 3);
    assert(s.drop_first().drop_first() =~= Seq::<u8>::empty());
}

proof fn lemma_four_bytes(s: Seq<u8>)
    requires
        s.len() == 4,
    ensures
        le_value(s) == s[0] + 256 * s[1] + 0x1_0000 * s[2] + 0x100_0000 * s[3],
{
    reveal_with_fuel(le_value, 5);
    assert(s.drop_first().drop_first().drop_first().drop_first() =~= Seq::<u8>::empty());
}

/// The tensors of the whole model are looked for first: where the token embedding is
/// missing, that is what is reported, whatever else is wrong.
pub proof fn lemma_embedding_first(g: &Gguf, n: int, p: Problem)
    requires
        !g.tensors@.dom().contains("token_embd.weight"@),
        first_problem(g, n, p),
    ensures
        p == Problem::Missing("token_embd.weight"@),
{
    assert(model_problem(g, n, 0) == Some(Problem::Missing("token_embd.weight"@)));
    let k = choose|k: int|
        0 <= k < 12 + 36 * n && #[trigger] model_problem(g, n, k) == Some(p) && passes_upto(
            g,
            n,
            k,
        );
    if k > 0 {
        assert(model_problem(g, n, 0) is None);
    }
}

/// What is reported missing is a mandatory tensor that the file does not have.
pub proof fn lemma_missing_is_missing(g: &Gguf, n: int, name: Seq<char>)
    requires
        first_problem(g, n, Problem::Missing(name)),
    ensures
        !g.tensors@.dom().contains(name),
{
    let k = choose|k: int|
        0 <= k < 12 + 36 * n && #[trigger] model_problem(g, n, k) == Some(Problem::Missing(name))
            && passes_upto(g, n, k);
    assert(model_problem(g, n, k) == Some(Problem::Missing(name)));
}

} // verus!
