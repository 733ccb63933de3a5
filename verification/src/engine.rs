//! Engine.
//!
//! An engine wraps a loaded model and the choice of a backend. It is shared
//! across sessions; sessions allocate their own key/value state on top.

use crate::api::{Backend, Error, ProgressSink};
use crate::backend::cpu::CpuBackend;
use crate::backend::{self, BackendImpl};
use crate::gguf::format::{scan_file, FileModel};
use crate::gguf::{DType, Gguf, GgufError};
use crate::model::{
    config_of, layer_tensor_name, reports_missing, resolved_upto, Config, Field, ModelError,
    Tensors,
};
use crate::session::Session;
use crate::text::{append_decimal, decimal};
use crate::tokenizer::load::{build_tokenizer, is_loaded, meta_list};
use crate::tokenizer::Tokenizer;
use vstd::prelude::*;
use vstd::string::*;

verus! {

/// A loaded model.
pub struct Engine<'a> {
    pub gguf: Gguf<'a>,
    pub config: Config,
    pub tokenizer: Tokenizer,
    pub backend: Backend,
    pub mtp: Option<Gguf<'a>>,
    pub mtp_draft_tokens: i32,
    pub routed_quant_bits: i32,
}

/// Why a model cannot be loaded.
#[derive(Debug)]
pub enum EngineError {
    /// The model file cannot be read.
    Gguf(GgufError),
    Model(ModelError),
    /// The model has no list of tokens.
    NoTokens,
    /// The file of the draft model cannot be read.
    Mtp(GgufError),
}

impl EngineError {
    /// The text that the error is shown with.
    pub open spec fn text(&self) -> Seq<char> {
        match self {
            EngineError::Gguf(e) => e.text(),
            EngineError::Model(e) => e.text(),
            EngineError::NoTokens => "tokenizer: no tokens array in gguf"@,
            EngineError::Mtp(e) => e.text(),
        }
    }

    /// The text that the error is shown with.
    pub fn message(&self) -> (s: String)
        ensures
            s@ == self.text(),
    {
        match self {
            EngineError::Gguf(e) => e.message(),
            EngineError::Model(e) => e.message(),
            EngineError::NoTokens => String::from_str("tokenizer: no tokens array in gguf"),
            EngineError::Mtp(e) => e.message(),
        }
    }
}

/// Bits per weight of a format; 0 for formats that are not weights.
pub open spec fn quant_bits(d: DType) -> i32 {
    match d {
        DType::Q2_K | DType::IQ2_XXS | DType::IQ2_XS | DType::IQ2_S => 2,
        DType::Q3_K | DType::IQ3_XXS | DType::IQ3_S => 3,
        DType::Q4_K | DType::Q4_0 | DType::Q4_1 | DType::IQ4_NL | DType::IQ4_XS => 4,
        DType::Q5_K | DType::Q5_0 | DType::Q5_1 => 5,
        DType::Q6_K => 6,
        DType::Q8_K | DType::Q8_0 | DType::Q8_1 => 8,
        DType::F16 | DType::BF16 => 16,
        DType::F32 => 32,
        _ => 0,
    }
}

/// Bits per weight of the routed experts: those of the first layer's down
/// experts, 0 where there are none.
pub open spec fn routed_bits(m: FileModel, n_layers: int) -> i32 {
    let name = layer_tensor_name(0, "ffn_down_exps.weight"@);
    if n_layers > 0 && m.tensors.dom().contains(name) {
        quant_bits(m.tensors[name].dtype)
    } else {
        0
    }
}

/// The operating systems that the choice of a backend tells apart.
#[derive(Debug, Clone, Copy, PartialEq, Eq, Structural)]
pub enum System {
    MacOs,
    Linux,
    Other,
}

/// What the program runs on, and which backends it was built with.
#[derive(Debug, Clone, Copy, PartialEq, Eq, Structural)]
pub struct Platform {
    pub system: System,
    pub metal: bool,
    pub cuda: bool,
}

impl Platform {
    /// The native backend of the platform, where it is built in, or else the CPU.
    pub open spec fn native(self) -> Backend {
        if self.system == System::MacOs && self.metal {
            Backend::Metal
        } else if self.system == System::Linux && self.cuda {
            Backend::Cuda
        } else {
            Backend::Cpu
        }
    }
}

/// The backend that is used where none is asked for: Metal on macOS and CUDA on
/// Linux, where they are built in, or else the CPU.
pub fn default_backend(platform: Platform) -> (b: Backend)
    ensures
        b == platform.native(),
{
    match platform.system {
        System::MacOs => if platform.metal {
            Backend::Metal
        } else {
            Backend::Cpu
        },
        System::Linux => if platform.cuda {
            Backend::Cuda
        } else {
            Backend::Cpu
        },
        System::Other => Backend::Cpu,
    }
}

fn guess_routed_quant_bits(g: &Gguf, t: &Tensors, cfg: &Config) -> (bits: i32)
    requires
        t.resolves(g.tensors@, cfg.n_layers as int),
    ensures
        bits == routed_bits(g.model(), cfg.n_layers as int),
{
    if t.layers.len() == 0 {
        return 0;
    }
    assert(t.layers@[0].resolves(g.tensors@, 0));
    match t.layers[0].experts_down {
        Some(t) => match t.dtype {
            DType::Q2_K | DType::IQ2_XXS | DType::IQ2_XS | DType::IQ2_S => 2,
            DType::Q3_K | DType::IQ3_XXS | DType::IQ3_S => 3,
            DType::Q4_K | DType::Q4_0 | DType::Q4_1 | DType::IQ4_NL | DType::IQ4_XS => 4,
            DType::Q5_K | DType::Q5_0 | DType::Q5_1 => 5,
            DType::Q6_K => 6,
            DType::Q8_K | DType::Q8_0 | DType::Q8_1 => 8,
            DType::F16 | DType::BF16 => 16,
            DType::F32 => 32,
            _ => 0,
        },
        None => 0,
    }
}

/// What loading a model from the meaning of its file gives, without the draft
/// model: the engine, or the first thing that is wrong.
pub open spec fn is_loaded_from(e: &Engine, m: FileModel) -> bool {
    let tokens = meta_list(m.metadata, "tokenizer.ggml.tokens"@);
    &&& e.gguf.model() == m
    &&& config_of(m.metadata) == Ok::<Config, Field>(e.config)
    &&& resolved_upto(m.tensors.dom(), e.config.n_layers as int, 8 * e.config.n_layers + 3)
    &&& tokens is Some
    &&& is_loaded(&e.tokenizer, m.metadata, tokens->0)
    &&& e.routed_quant_bits == routed_bits(m, e.config.n_layers as int)
}

/// The model of a file can be loaded.
pub open spec fn loadable(m: FileModel) -> bool {
    match config_of(m.metadata) {
        Ok(cfg) => resolved_upto(m.tensors.dom(), cfg.n_layers as int, 8 * cfg.n_layers + 3)
            && meta_list(m.metadata, "tokenizer.ggml.tokens"@) is Some,
        Err(_) => false,
    }
}

impl<'a> Engine<'a> {
    /// Load a model from the bytes of its file, with a draft model where there
    /// is one. What is wrong is reported in this order: the file, the
    /// configuration, a missing tensor, the tokens, the draft file.
    pub fn open(
        model: &'a [u8],
        mtp: Option<&'a [u8]>,
        backend: Option<Backend>,
        platform: Platform,
        mtp_draft_tokens: i32,
    ) -> (r: Result<Engine<'a>, EngineError>)
        ensures
            match r {
                Ok(e) => {
                    &&& scan_file(model@) is Ok
                    &&& is_loaded_from(&e, scan_file(model@)->Ok_0)
                    &&& e.gguf.data == model
                    &&& e.backend == match backend {
                        Some(b) => b,
                        None => platform.native(),
                    }
                    &&& e.mtp_draft_tokens == mtp_draft_tokens
                    &&& match mtp {
                        Some(data) => e.mtp is Some && scan_file(data@) == Ok::<
                            FileModel,
                            GgufError,
                        >(e.mtp->0.model()) && e.mtp->0.data == data,
                        None => e.mtp is None,
                    }
                },
                Err(EngineError::Gguf(x)) => scan_file(model@) == Err::<FileModel, GgufError>(x),
                Err(EngineError::Model(ModelError::MissingField(f))) => scan_file(model@) is Ok
                    && config_of(scan_file(model@)->Ok_0.metadata) == Err::<Config, Field>(f),
                Err(EngineError::Model(x)) => scan_file(model@) is Ok && config_of(
                    scan_file(model@)->Ok_0.metadata,
                ) is Ok && reports_missing(
                    scan_file(model@)->Ok_0.tensors.dom(),
                    config_of(scan_file(model@)->Ok_0.metadata)->Ok_0.n_layers as int,
                    x,
                ),
                Err(EngineError::NoTokens) => scan_file(model@) is Ok && config_of(
                    scan_file(model@)->Ok_0.metadata,
                ) is Ok && resolved_upto(
                    scan_file(model@)->Ok_0.tensors.dom(),
                    config_of(scan_file(model@)->Ok_0.metadata)->Ok_0.n_layers as int,
                    8 * config_of(scan_file(model@)->Ok_0.metadata)->Ok_0.n_layers + 3,
                ) && meta_list(
                    scan_file(model@)->Ok_0.metadata,
                    "tokenizer.ggml.tokens"@,
                ) is None,
                Err(EngineError::Mtp(x)) => scan_file(model@) is Ok && loadable(
                    scan_file(model@)->Ok_0,
                ) && mtp is Some && scan_file(mtp->0@) == Err::<FileModel, GgufError>(x),
            },
    {
        let gguf: Gguf<'a> = match Gguf::parse(model) {
            Ok(g) => g,
            Err(e) => {
                return Err(EngineError::Gguf(e));
            },
        };
        let ghost m = gguf.model();
        assert(m.tensors.dom() =~= gguf.tensors@.dom());
        let config: Config = match Config::from_gguf(&gguf) {
            Ok(c) => c,
            Err(e) => {
                return Err(EngineError::Model(e));
            },
        };
        let routed_quant_bits: i32 = match Tensors::resolve(&gguf, &config) {
            Ok(t) => guess_routed_quant_bits(&gguf, &t, &config),
            Err(e) => {
                return Err(EngineError::Model(e));
            },
        };
        let tokenizer: Tokenizer = match build_tokenizer(&gguf) {
            Some(t) => t,
            None => {
                return Err(EngineError::NoTokens);
            },
        };
        let chosen: Backend = match backend {
            Some(b) => b,
            None => default_backend(platform),
        };
        let draft: Option<Gguf<'a>> = match mtp {
            Some(data) => match Gguf::parse(data) {
                Ok(g) => Some(g),
                Err(e) => {
                    return Err(EngineError::Mtp(e));
                },
            },
            None => None,
        };
        Ok(
            Engine {
                gguf,
                config,
                tokenizer,
                backend: chosen,
                mtp: draft,
                mtp_draft_tokens,
                routed_quant_bits,
            },
        )
    }

    /// The model file. Used by debug tooling.
    pub fn gguf(&self) -> (g: &Gguf<'a>)
        ensures
            *g == self.gguf,
    {
        &self.gguf
    }

    pub fn backend(&self) -> (b: Backend)
        ensures
            b == self.backend,
    {
        self.backend
    }

    pub fn config(&self) -> (c: &Config)
        ensures
            *c == self.config,
    {
        &self.config
    }

    pub fn tokenizer(&self) -> (t: &Tokenizer)
        ensures
            *t == self.tokenizer,
    {
        &self.tokenizer
    }

    pub fn has_mtp(&self) -> (r: bool)
        ensures
            r == (self.mtp is Some),
    {
        self.mtp.is_some()
    }

    pub fn mtp_draft_tokens(&self) -> (n: i32)
        ensures
            n == self.mtp_draft_tokens,
    {
        self.mtp_draft_tokens
    }

    pub fn routed_quant_bits(&self) -> (n: i32)
        ensures
            n == self.routed_quant_bits,
    {
        self.routed_quant_bits
    }

    /// The line that describes the model.
    pub open spec fn summary_text(&self) -> Seq<char> {
        let c = self.config;
        "ds4: arch=ds4 backend="@ + self.backend.label() + " layers="@ + decimal(c.n_layers as nat)
            + " d_model="@ + decimal(c.d_model as nat) + " n_heads="@ + decimal(c.n_heads as nat)
            + " n_kv="@ + decimal(c.n_kv_heads as nat) + " d_head="@ + decimal(c.d_head as nat)
            + " d_ff="@ + decimal(c.d_ff as nat) + " experts="@ + decimal(
            c.n_experts_per_tok as nat,
        ) + "/"@ + decimal(c.n_experts as nat) + " vocab="@ + decimal(c.vocab_size as nat)
            + " ctx_max="@ + decimal(c.max_context as nat)
    }

    /// The line that describes the model. Tools parse it, so its format is
    /// fixed.
    pub fn summary(&self) -> (s: String)
        ensures
            s@ == self.summary_text(),
    {
        let mut s: String = String::from_str("ds4: arch=ds4 backend=");
        s.append(self.backend.name());
        s.append(" layers=");
        append_decimal(&mut s, self.config.n_layers as u64);
        s.append(" d_model=");
        append_decimal(&mut s, self.config.d_model as u64);
        s.append(" n_heads=");
        append_decimal(&mut s, self.config.n_heads as u64);
        s.append(" n_kv=");
        append_decimal(&mut s, self.config.n_kv_heads as u64);
        s.append(" d_head=");
        append_decimal(&mut s, self.config.d_head as u64);
        s.append(" d_ff=");
        append_decimal(&mut s, self.config.d_ff as u64);
        s.append(" experts=");
        append_decimal(&mut s, self.config.n_experts_per_tok as u64);
        s.append("/");
        append_decimal(&mut s, self.config.n_experts as u64);
        s.append(" vocab=");
        append_decimal(&mut s, self.config.vocab_size as u64);
        s.append(" ctx_max=");
        append_decimal(&mut s, self.config.max_context as u64);
        s
    }

    /// A session on the engine's backend.
    pub fn new_session<P: ProgressSink>(&self, ctx_size: u32) -> (r: Result<
        Session<CpuBackend, P>,
        Error,
    >)
        ensures
            match r {
                Ok(s) => self.backend == Backend::Cpu && s.wf() && s.in_sync() && s.tokens@
                    == Seq::<i32>::empty() && s.ctx_size == ctx_size && s.listener() is None
                    && s.live().capacity() == ctx_size && s.live().work() == 0
                    && s.live().scores() == Seq::<u32>::empty(),
                Err(Error::Unsupported(what)) => self.backend != Backend::Cpu && what@
                    == self.backend.label(),
                Err(_) => false,
            },
    {
        match backend::open(self.backend, &self.config, ctx_size) {
            Ok(b) => Ok(Session::new(b, ctx_size)),
            Err(e) => Err(e),
        }
    }
}

/// The bits per weight of a format are what a block takes for each of its elements,
/// less than two bits of which go to scales; formats that no weights have are given
/// none.
pub proof fn lemma_quant_bits(d: DType)
    ensures
        quant_bits(d) != 0 ==> quant_bits(d) * d.block().0 <= 8 * d.block().1 < (quant_bits(d) + 2)
            * d.block().0,
        quant_bits(d) == 0 <==> d == DType::I8 || d == DType::I16 || d == DType::I32 || d
            == DType::I64 || d == DType::F64 || d == DType::IQ1_S || d == DType::IQ1_M,
        d == DType::Q4_1 ==> quant_bits(d) == 4,
        d == DType::Q5_1 ==> quant_bits(d) == 5,
        d == DType::Q8_1 || d == DType::Q8_K ==> quant_bits(d) == 8,
{
}

/// The routed experts' bits are those of the first layer's down experts, and nothing
/// else matters.
pub proof fn lemma_routed_bits(m: FileModel, n: int)
    ensures
        n <= 0 || !m.tensors.dom().contains("blk.0.ffn_down_exps.weight"@) ==> routed_bits(m, n)
            == 0,
        n > 0 && m.tensors.dom().contains("blk.0.ffn_down_exps.weight"@) ==> routed_bits(m, n)
            == quant_bits(m.tensors["blk.0.ffn_down_exps.weight"@].dtype),
{
    reveal_strlit("blk.0.ffn_down_exps.weight");
    reveal_strlit("blk.");
    reveal_strlit(".");
    reveal_strlit("ffn_down_exps.weight");
    assert(decimal(0) =~= seq!['0']);
    assert(layer_tensor_name(0, "ffn_down_exps.weight"@) =~= "blk.0.ffn_down_exps.weight"@);
}

/// A backend other than the CPU is native to one system only, and only where it is
/// built in.
pub proof fn lemma_native(p: Platform)
    ensures
        p.native() == Backend::Metal <==> p.system == System::MacOs && p.metal,
        p.native() == Backend::Cuda <==> p.system == System::Linux && p.cuda,
{
}

/// The line that describes a model: each figure behind its word, in this order.
pub proof fn lemma_summary(e: &Engine)
    ensures
        ({
            let c = e.config;
            e.summary_text() == "ds4: arch=ds4"@ + (" backend="@ + e.backend.label()) + figure(
                " layers="@,
                c.n_layers,
            ) + figure(" d_model="@, c.d_model) + figure(" n_heads="@, c.n_heads) + figure(
                " n_kv="@,
                c.n_kv_heads,
            ) + figure(" d_head="@, c.d_head) + figure(" d_ff="@, c.d_ff) + figure(
                " experts="@,
                c.n_experts_per_tok,
            ) + figure("/"@, c.n_experts) + figure(" vocab="@, c.vocab_size) + figure(
                " ctx_max="@,
                c.max_context,
            )
        }),
{
    let c = e.config;
    reveal_strlit("ds4: arch=ds4 backend=");
    reveal_strlit("ds4: arch=ds4");
    reveal_strlit(" backend=");
    assert("ds4: arch=ds4 backend="@ =~= "ds4: arch=ds4"@ + " backend="@);
    assert(e.summary_text() =~= "ds4: arch=ds4"@ + (" backend="@ + e.backend.label()) + figure(
        " layers="@,
        c.n_layers,
    ) + figure(" d_model="@, c.d_model) + figure(" n_heads="@, c.n_heads) + figure(
        " n_kv="@,
        c.n_kv_heads,
    ) + figure(" d_head="@, c.d_head) + figure(" d_ff="@, c.d_ff) + figure(
        " experts="@,
        c.n_experts_per_tok,
    ) + figure("/"@, c.n_experts) + figure(" vocab="@, c.vocab_size) + figure(
        " ctx_max="@,
        c.max_context,
    ));
}

/// A word and a number behind it.
pub open spec fn figure(word: Seq<char>, n: u32) -> Seq<char> {
    word + decimal(n as nat)
}

} // verus!
