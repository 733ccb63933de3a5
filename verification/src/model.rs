//! Model configuration and named tensors.
//!
//! Turns the metadata of a model file into a typed [`Config`], and resolves the
//! fixed roster of tensor names, so that a missing tensor surfaces when the
//! model is opened.

use crate::gguf::format::Node;
use crate::gguf::{meta_float, meta_number, meta_text, nodes, Gguf, Tensor};
use crate::text::{append_decimal, decimal, lemma_decimal_digits, lemma_decimal_injective};
use vstd::prelude::*;
use vstd::string::*;

verus! {

/// What the metadata says of the model. The rope base and the epsilon are the
/// bits of single-precision numbers.
#[derive(Debug, Clone, Copy, PartialEq, Eq, Structural)]
pub struct Config {
    pub n_layers: u32,
    pub d_model: u32,
    pub n_heads: u32,
    pub n_kv_heads: u32,
    pub d_head: u32,
    pub d_ff: u32,
    pub n_experts: u32,
    pub n_experts_per_tok: u32,
    pub vocab_size: u32,
    pub rope_base: u32,
    pub rms_norm_eps: u32,
    pub max_context: u32,
    pub q_lora_rank: u32,
    pub kv_lora_rank: u32,
}

/// The bits of the single-precision number 10000, the default rope base.
pub const DEFAULT_ROPE_BASE: u32 = 0x461C_4000;

/// The bits of the single-precision number nearest to 0.00001, the default
/// epsilon.
pub const DEFAULT_RMS_NORM_EPS: u32 = 0x3727_C5AC;

/// A metadata field that every model must have.
#[derive(Debug, Clone, Copy, PartialEq, Eq, Structural)]
pub enum Field {
    Architecture,
    BlockCount,
    EmbeddingLength,
    HeadCount,
    FeedForwardLength,
}

/// Why a model cannot be used.
#[derive(Debug)]
pub enum ModelError {
    MissingField(Field),
    /// A tensor, by its name, that is not in the file.
    MissingTensor(String),
}

impl ModelError {
    /// The text that the error is shown with.
    pub open spec fn text(&self) -> Seq<char> {
        match self {
            ModelError::MissingField(Field::Architecture) => {
                "model: missing general.architecture"@
            },
            ModelError::MissingField(Field::BlockCount) => "model: missing block_count"@,
            ModelError::MissingField(Field::EmbeddingLength) => "embedding_length"@,
            ModelError::MissingField(Field::HeadCount) => "head_count"@,
            ModelError::MissingField(Field::FeedForwardLength) => "feed_forward_length"@,
            ModelError::MissingTensor(name) => "model: missing tensor `"@ + name@ + "`"@,
        }
    }

    /// The text that the error is shown with.
    pub fn message(&self) -> (s: String)
        ensures
            s@ == self.text(),
    {
        match self {
            ModelError::MissingField(Field::Architecture) => String::from_str(
                "model: missing general.architecture",
            ),
            ModelError::MissingField(Field::BlockCount) => String::from_str(
                "model: missing block_count",
            ),
            ModelError::MissingField(Field::EmbeddingLength) => String::from_str(
                "embedding_length",
            ),
            ModelError::MissingField(Field::HeadCount) => String::from_str("head_count"),
            ModelError::MissingField(Field::FeedForwardLength) => String::from_str(
                "feed_forward_length",
            ),
            ModelError::MissingTensor(name) => {
                let mut s: String = String::from_str("model: missing tensor `");
                s.append(name.as_str());
                s.append("`");
                s
            },
        }
    }
}

/// The metadata key of a field of an architecture.
pub open spec fn arch_key(arch: Seq<char>, name: Seq<char>) -> Seq<char> {
    arch + "."@ + name
}

/// The integer of an architecture's field.
pub open spec fn arch_number(meta: Map<Seq<char>, Node>, arch: Seq<char>, name: Seq<char>) -> Option<
    u32,
> {
    meta_number(meta, arch_key(arch, name))
}

/// The floating-point number of an architecture's field.
pub open spec fn arch_float(meta: Map<Seq<char>, Node>, arch: Seq<char>, name: Seq<char>) -> Option<
    u32,
> {
    meta_float(meta, arch_key(arch, name))
}

pub open spec fn or_else<T>(v: Option<T>, default: T) -> T {
    match v {
        Some(x) => x,
        None => default,
    }
}

/// The configuration that the metadata of an architecture gives: four fields
/// are mandatory, the others have defaults.
pub open spec fn arch_config(meta: Map<Seq<char>, Node>, arch: Seq<char>) -> Result<Config, Field> {
    let block_count = arch_number(meta, arch, "block_count"@);
    let embedding_length = arch_number(meta, arch, "embedding_length"@);
    let head_count = arch_number(meta, arch, "attention.head_count"@);
    let feed_forward_length = arch_number(meta, arch, "feed_forward_length"@);
    if block_count is None {
        Err(Field::BlockCount)
    } else if embedding_length is None {
        Err(Field::EmbeddingLength)
    } else if head_count is None {
        Err(Field::HeadCount)
    } else if feed_forward_length is None {
        Err(Field::FeedForwardLength)
    } else {
        Ok(
            Config {
                n_layers: block_count->0,
                d_model: embedding_length->0,
                n_heads: head_count->0,
                n_kv_heads: or_else(
                    arch_number(meta, arch, "attention.head_count_kv"@),
                    head_count->0,
                ),
                d_head: or_else(arch_number(meta, arch, "attention.key_length"@), 128),
                d_ff: feed_forward_length->0,
                n_experts: or_else(arch_number(meta, arch, "expert_count"@), 0),
                n_experts_per_tok: or_else(arch_number(meta, arch, "expert_used_count"@), 0),
                vocab_size: match arch_number(meta, arch, "vocab_size"@) {
                    Some(n) => n,
                    None => or_else(meta_number(meta, "tokenizer.ggml.vocab_size"@), 0),
                },
                rope_base: or_else(
                    arch_float(meta, arch, "rope.freq_base"@),
                    DEFAULT_ROPE_BASE,
                ),
                rms_norm_eps: or_else(
                    arch_float(meta, arch, "attention.layer_norm_rms_epsilon"@),
                    DEFAULT_RMS_NORM_EPS,
                ),
                max_context: or_else(arch_number(meta, arch, "context_length"@), 0),
                q_lora_rank: or_else(arch_number(meta, arch, "attention.q_lora_rank"@), 0),
                kv_lora_rank: or_else(arch_number(meta, arch, "attention.kv_lora_rank"@), 0),
            },
        )
    }
}

/// The configuration that the metadata gives.
pub open spec fn config_of(meta: Map<Seq<char>, Node>) -> Result<Config, Field> {
    match meta_text(meta, "general.architecture"@) {
        None => Err(Field::Architecture),
        Some(arch) => arch_config(meta, arch),
    }
}

fn key(arch: &str, name: &str) -> (k: String)
    ensures
        k@ == arch_key(arch@, name@),
{
    let mut k: String = String::from_str(arch);
    k.append(".");
    k.append(name);
    k
}

fn number(g: &Gguf, arch: &str, name: &str) -> (r: Option<u32>)
    ensures
        r == arch_number(nodes(g.metadata@), arch@, name@),
{
    g.meta_u32(key(arch, name).as_str())
}

fn number_or(g: &Gguf, arch: &str, name: &str, default: u32) -> (r: u32)
    ensures
        r == or_else(arch_number(nodes(g.metadata@), arch@, name@), default),
{
    match number(g, arch, name) {
        Some(n) => n,
        None => default,
    }
}

fn float_or(g: &Gguf, arch: &str, name: &str, default: u32) -> (r: u32)
    ensures
        r == or_else(arch_float(nodes(g.metadata@), arch@, name@), default),
{
    match g.meta_f32(key(arch, name).as_str()) {
        Some(x) => x,
        None => default,
    }
}

impl Config {
    /// Read the configuration from a model file.
    pub fn from_gguf(g: &Gguf) -> (r: Result<Config, ModelError>)
        ensures
            r == match config_of(nodes(g.metadata@)) {
                Ok(c) => Ok::<Config, ModelError>(c),
                Err(f) => Err(ModelError::MissingField(f)),
            },
    {
        let arch: &str = match g.meta_str("general.architecture") {
            Some(s) => s,
            None => {
                return Err(ModelError::MissingField(Field::Architecture));
            },
        };
        let n_layers: u32 = match number(g, arch, "block_count") {
            Some(n) => n,
            None => {
                return Err(ModelError::MissingField(Field::BlockCount));
            },
        };
        let d_model: u32 = match number(g, arch, "embedding_length") {
            Some(n) => n,
            None => {
                return Err(ModelError::MissingField(Field::EmbeddingLength));
            },
        };
        let n_heads: u32 = match number(g, arch, "attention.head_count") {
            Some(n) => n,
            None => {
                return Err(ModelError::MissingField(Field::HeadCount));
            },
        };
        let d_ff: u32 = match number(g, arch, "feed_forward_length") {
            Some(n) => n,
            None => {
                return Err(ModelError::MissingField(Field::FeedForwardLength));
            },
        };
        let vocab_size: u32 = match number(g, arch, "vocab_size") {
            Some(n) => n,
            None => match g.meta_u32("tokenizer.ggml.vocab_size") {
                Some(n) => n,
                None => 0,
            },
        };
        Ok(
            Config {
                n_layers,
                d_model,
                n_heads,
                n_kv_heads: number_or(g, arch, "attention.head_count_kv", n_heads),
                d_head: number_or(g, arch, "attention.key_length", 128),
                d_ff,
                n_experts: number_or(g, arch, "expert_count", 0),
                n_experts_per_tok: number_or(g, arch, "expert_used_count", 0),
                vocab_size,
                rope_base: float_or(g, arch, "rope.freq_base", DEFAULT_ROPE_BASE),
                rms_norm_eps: float_or(
                    g,
                    arch,
                    "attention.layer_norm_rms_epsilon",
                    DEFAULT_RMS_NORM_EPS,
                ),
                max_context: number_or(g, arch, "context_length", 0),
                q_lora_rank: number_or(g, arch, "attention.q_lora_rank", 0),
                kv_lora_rank: number_or(g, arch, "attention.kv_lora_rank", 0),
            },
        )
    }
}

/// The named tensors of a model.
#[derive(Debug)]
pub struct Tensors<'g> {
    pub tok_embed: &'g Tensor,
    pub output_norm: &'g Tensor,
    pub output: &'g Tensor,
    pub layers: Vec<LayerTensors<'g>>,
}

/// The named tensors of a layer. Models without routed experts lack the last
/// four.
#[derive(Debug)]
pub struct LayerTensors<'g> {
    pub attn_norm: &'g Tensor,
    pub attn_q: &'g Tensor,
    pub attn_kv: &'g Tensor,
    pub attn_out: &'g Tensor,
    pub ffn_norm: &'g Tensor,
    pub ffn_gate: &'g Tensor,
    pub ffn_up: &'g Tensor,
    pub ffn_down: &'g Tensor,
    pub experts_gate: Option<&'g Tensor>,
    pub experts_up: Option<&'g Tensor>,
    pub experts_down: Option<&'g Tensor>,
    pub experts_router: Option<&'g Tensor>,
}

/// The name of a layer's tensor.
pub open spec fn layer_tensor_name(il: int, suffix: Seq<char>) -> Seq<char> {
    "blk."@ + decimal(il as nat) + "."@ + suffix
}

/// The name of a layer's tensor.
pub fn layer_tensor(il: u32, suffix: &str) -> (s: String)
    ensures
        s@ == layer_tensor_name(il as int, suffix@),
{
    let mut s: String = String::from_str("blk.");
    append_decimal(&mut s, il as u64);
    s.append(".");
    s.append(suffix);
    s
}

/// Names tell layers and suffixes apart: two layers never share a name.
pub proof fn lemma_layer_names_distinct(i: nat, s: Seq<char>, j: nat, t: Seq<char>)
    requires
        layer_tensor_name(i as int, s) == layer_tensor_name(j as int, t),
    ensures
        i == j,
        s == t,
{
    reveal_strlit("blk.");
    reveal_strlit(".");
    let (a, b) = (decimal(i), decimal(j));
    let (x, y) = (layer_tensor_name(i as int, s), layer_tensor_name(j as int, t));
    let (m, n) = (a.len() as int, b.len() as int);
    lemma_decimal_digits(i);
    lemma_decimal_digits(j);
    assert("blk."@.len() == 4 && "."@.len() == 1 && "."@[0] == '.');
    assert(forall|k: int| 0 <= k < a.len() ==> x[4 + k] == #[trigger] a[k]);
    assert(forall|k: int| 0 <= k < b.len() ==> y[4 + k] == #[trigger] b[k]);
    assert(x[4 + m] == '.' && y[4 + n] == '.');
    if m < n {
        assert(y[4 + m] == b[m]);
    } else if n < m {
        assert(x[4 + n] == a[n]);
    }
    assert(a =~= b) by {
        assert forall|k: int| 0 <= k < a.len() implies a[k] == b[k] by {
            assert(x[4 + k] == a[k] && y[4 + k] == b[k]);
        }
    }
    lemma_decimal_injective(i, j);
    assert(s =~= x.skip(5 + m));
    assert(t =~= y.skip(5 + n));
}

/// The suffixes of the tensors that every layer must have.
pub open spec fn layer_suffix(j: int) -> Seq<char> {
    if j == 0 {
        "attn_norm.weight"@
    } else if j == 1 {
        "attn_q.weight"@
    } else if j == 2 {
        "attn_kv.weight"@
    } else if j == 3 {
        "attn_output.weight"@
    } else if j == 4 {
        "ffn_norm.weight"@
    } else if j == 5 {
        "ffn_gate.weight"@
    } else if j == 6 {
        "ffn_up.weight"@
    } else {
        "ffn_down.weight"@
    }
}

/// The names of the mandatory tensors of a model of `n` layers, in the order in
/// which they are resolved: eight for each layer, then three.
pub open spec fn mandatory_name(n: int, k: int) -> Seq<char> {
    if k < 8 * n {
        layer_tensor_name(k / 8, layer_suffix(k % 8))
    } else if k == 8 * n {
        "token_embd.weight"@
    } else if k == 8 * n + 1 {
        "output_norm.weight"@
    } else {
        "output.weight"@
    }
}

/// The names hold the first `upto` mandatory tensors of a model of `n` layers.
pub open spec fn resolved_upto(names: Set<Seq<char>>, n: int, upto: int) -> bool {
    forall|k: int| 0 <= k < upto ==> names.contains(#[trigger] mandatory_name(n, k))
}

/// The error names the first mandatory tensor of a model of `n` layers that is
/// missing.
pub open spec fn reports_missing(names: Set<Seq<char>>, n: int, e: ModelError) -> bool {
    match e {
        ModelError::MissingTensor(name) => !names.contains(name@) && exists|k: int|
            0 <= k < 8 * n + 3 && name@ == #[trigger] mandatory_name(n, k) && resolved_upto(
                names,
                n,
                k,
            ),
        ModelError::MissingField(_) => false,
    }
}

/// A reference to the tensor of a name, where there is one.
pub open spec fn optional_is(
    tensors: Map<Seq<char>, Tensor>,
    name: Seq<char>,
    t: Option<&Tensor>,
) -> bool {
    match t {
        Some(t) => tensors.dom().contains(name) && *t == tensors[name],
        None => !tensors.dom().contains(name),
    }
}

impl<'g> LayerTensors<'g> {
    /// The fields are the tensors of layer `il`.
    pub open spec fn resolves(&self, tensors: Map<Seq<char>, Tensor>, il: int) -> bool {
        &&& *self.attn_norm == tensors[layer_tensor_name(il, "attn_norm.weight"@)]
        &&& *self.attn_q == tensors[layer_tensor_name(il, "attn_q.weight"@)]
        &&& *self.attn_kv == tensors[layer_tensor_name(il, "attn_kv.weight"@)]
        &&& *self.attn_out == tensors[layer_tensor_name(il, "attn_output.weight"@)]
        &&& *self.ffn_norm == tensors[layer_tensor_name(il, "ffn_norm.weight"@)]
        &&& *self.ffn_gate == tensors[layer_tensor_name(il, "ffn_gate.weight"@)]
        &&& *self.ffn_up == tensors[layer_tensor_name(il, "ffn_up.weight"@)]
        &&& *self.ffn_down == tensors[layer_tensor_name(il, "ffn_down.weight"@)]
        &&& optional_is(
            tensors,
            layer_tensor_name(il, "ffn_gate_exps.weight"@),
            self.experts_gate,
        )
        &&& optional_is(tensors, layer_tensor_name(il, "ffn_up_exps.weight"@), self.experts_up)
        &&& optional_is(
            tensors,
            layer_tensor_name(il, "ffn_down_exps.weight"@),
            self.experts_down,
        )
        &&& optional_is(
            tensors,
            layer_tensor_name(il, "ffn_gate_inp.weight"@),
            self.experts_router,
        )
    }
}

impl<'g> Tensors<'g> {
    /// The fields are the tensors of a model of `n` layers.
    pub open spec fn resolves(&self, tensors: Map<Seq<char>, Tensor>, n: int) -> bool {
        &&& *self.tok_embed == tensors["token_embd.weight"@]
        &&& *self.output_norm == tensors["output_norm.weight"@]
        &&& *self.output == tensors["output.weight"@]
        &&& self.layers@.len() == n
        &&& forall|il: int| 0 <= il < n ==> (#[trigger] self.layers@[il]).resolves(tensors, il)
    }

    /// Resolve the named tensors of a model. It succeeds exactly if all the
    /// mandatory ones are there; if not, the first that is missing is reported.
    pub fn resolve(g: &'g Gguf, cfg: &Config) -> (r: Result<Tensors<'g>, ModelError>)
        ensures
            match r {
                Ok(t) => resolved_upto(g.tensors@.dom(), cfg.n_layers as int, 8 * cfg.n_layers + 3)
                    && t.resolves(g.tensors@, cfg.n_layers as int),
                Err(e) => reports_missing(g.tensors@.dom(), cfg.n_layers as int, e),
            },
    {
        let ghost n = cfg.n_layers as int;
        let mut layers: Vec<LayerTensors<'g>> = Vec::new();
        let mut i: u32 = 0;
        while i < cfg.n_layers
            invariant
                i <= cfg.n_layers,
                n == cfg.n_layers,
                layers@.len() == i,
                resolved_upto(g.tensors@.dom(), n, 8 * i),
                forall|il: int|
                    0 <= il < i ==> (#[trigger] layers@[il]).resolves(g.tensors@, il),
            decreases cfg.n_layers - i,
        {
            match resolve_layer(g, i, Ghost(n)) {
                Ok(layer) => {
                    layers.push(layer);
                },
                Err(e) => {
                    return Err(e);
                },
            }
            i = i + 1;
        }
        assert(mandatory_name(n, 8 * n) == "token_embd.weight"@);
        assert(mandatory_name(n, 8 * n + 1) == "output_norm.weight"@);
        assert(mandatory_name(n, 8 * n + 2) == "output.weight"@);
        let tok_embed: &'g Tensor = match named(g, String::from_str("token_embd.weight")) {
            Ok(t) => t,
            Err(e) => {
                return Err(e);
            },
        };
        let output_norm: &'g Tensor = match named(g, String::from_str("output_norm.weight")) {
            Ok(t) => t,
            Err(e) => {
                return Err(e);
            },
        };
        let output: &'g Tensor = match named(g, String::from_str("output.weight")) {
            Ok(t) => t,
            Err(e) => {
                return Err(e);
            },
        };
        Ok(Tensors { tok_embed, output_norm, output, layers })
    }
}

/// The tensor of a name, or the error that it is missing.
fn named<'g>(g: &'g Gguf, name: String) -> (r: Result<&'g Tensor, ModelError>)
    ensures
        match r {
            Ok(t) => g.tensors@.dom().contains(name@) && *t == g.tensors@[name@],
            Err(e) => e == ModelError::MissingTensor(name) && !g.tensors@.dom().contains(name@),
        },
{
    match g.tensors.get(name.as_str()) {
        Some(t) => Ok(t),
        None => Err(ModelError::MissingTensor(name)),
    }
}

/// The mandatory tensor number `j` of layer `il`, all those before it being
/// there.
fn named_in_layer<'g>(
    g: &'g Gguf,
    il: u32,
    suffix: &str,
    n: Ghost<int>,
    j: Ghost<int>,
) -> (r: Result<&'g Tensor, ModelError>)
    requires
        0 <= j@ < 8,
        il < n@,
        suffix@ == layer_suffix(j@),
        resolved_upto(g.tensors@.dom(), n@, 8 * il + j@),
    ensures
        match r {
            Ok(t) => resolved_upto(g.tensors@.dom(), n@, 8 * il + j@ + 1) && *t
                == g.tensors@[layer_tensor_name(il as int, suffix@)],
            Err(e) => reports_missing(g.tensors@.dom(), n@, e),
        },
{
    assert(mandatory_name(n@, 8 * il + j@) == layer_tensor_name(il as int, suffix@)) by {
        assert((8 * il + j@) / 8 == il && (8 * il + j@) % 8 == j@);
    }
    named(g, layer_tensor(il, suffix))
}

fn resolve_layer<'g>(g: &'g Gguf, il: u32, n: Ghost<int>) -> (r: Result<
    LayerTensors<'g>,
    ModelError,
>)
    requires
        il < n@,
        resolved_upto(g.tensors@.dom(), n@, 8 * il),
    ensures
        match r {
            Ok(layer) => resolved_upto(g.tensors@.dom(), n@, 8 * il + 8) && layer.resolves(
                g.tensors@,
                il as int,
            ),
            Err(e) => reports_missing(g.tensors@.dom(), n@, e),
        },
{
    let attn_norm: &'g Tensor = match named_in_layer(g, il, "attn_norm.weight", n, Ghost(0)) {
        Ok(t) => t,
        Err(e) => {
            return Err(e);
        },
    };
    let attn_q: &'g Tensor = match named_in_layer(g, il, "attn_q.weight", n, Ghost(1)) {
        Ok(t) => t,
        Err(e) => {
            return Err(e);
        },
    };
    let attn_kv: &'g Tensor = match named_in_layer(g, il, "attn_kv.weight", n, Ghost(2)) {
        Ok(t) => t,
        Err(e) => {
            return Err(e);
        },
    };
    let attn_out: &'g Tensor = match named_in_layer(g, il, "attn_output.weight", n, Ghost(3)) {
        Ok(t) => t,
        Err(e) => {
            return Err(e);
        },
    };
    let ffn_norm: &'g Tensor = match named_in_layer(g, il, "ffn_norm.weight", n, Ghost(4)) {
        Ok(t) => t,
        Err(e) => {
            return Err(e);
        },
    };
    let ffn_gate: &'g Tensor = match named_in_layer(g, il, "ffn_gate.weight", n, Ghost(5)) {
        Ok(t) => t,
        Err(e) => {
            return Err(e);
        },
    };
    let ffn_up: &'g Tensor = match named_in_layer(g, il, "ffn_up.weight", n, Ghost(6)) {
        Ok(t) => t,
        Err(e) => {
            return Err(e);
        },
    };
    let ffn_down: &'g Tensor = match named_in_layer(g, il, "ffn_down.weight", n, Ghost(7)) {
        Ok(t) => t,
        Err(e) => {
            return Err(e);
        },
    };
    Ok(
        LayerTensors {
            attn_norm,
            attn_q,
            attn_kv,
            attn_out,
            ffn_norm,
            ffn_gate,
            ffn_up,
            ffn_down,
            experts_gate: g.tensors.get(layer_tensor(il, "ffn_gate_exps.weight").as_str()),
            experts_up: g.tensors.get(layer_tensor(il, "ffn_up_exps.weight").as_str()),
            experts_down: g.tensors.get(layer_tensor(il, "ffn_down_exps.weight").as_str()),
            experts_router: g.tensors.get(layer_tensor(il, "ffn_gate_inp.weight").as_str()),
        },
    )
}

/// The configuration of a model, field by field: what the metadata of its
/// architecture says, or else the default.
pub proof fn lemma_config_fields(meta: Map<Seq<char>, Node>, arch: Seq<char>, c: Config)
    requires
        meta_text(meta, "general.architecture"@) == Some(arch),
        config_of(meta) == Ok::<Config, Field>(c),
    ensures
        meta_number(meta, arch + ".block_count"@) == Some(c.n_layers),
        meta_number(meta, arch + ".embedding_length"@) == Some(c.d_model),
        meta_number(meta, arch + ".attention.head_count"@) == Some(c.n_heads),
        meta_number(meta, arch + ".feed_forward_length"@) == Some(c.d_ff),
        is_or(meta_number(meta, arch + ".attention.head_count_kv"@), c.n_heads, c.n_kv_heads),
        is_or(meta_number(meta, arch + ".attention.key_length"@), 128, c.d_head),
        is_or(meta_number(meta, arch + ".expert_count"@), 0, c.n_experts),
        is_or(meta_number(meta, arch + ".expert_used_count"@), 0, c.n_experts_per_tok),
        is_or(meta_number(meta, arch + ".context_length"@), 0, c.max_context),
        is_or(meta_number(meta, arch + ".attention.q_lora_rank"@), 0, c.q_lora_rank),
        is_or(meta_number(meta, arch + ".attention.kv_lora_rank"@), 0, c.kv_lora_rank),
        is_or(meta_float(meta, arch + ".rope.freq_base"@), 0x461c_4000, c.rope_base),
        is_or(
            meta_float(meta, arch + ".attention.layer_norm_rms_epsilon"@),
            0x3727_c5ac,
            c.rms_norm_eps,
        ),
        meta_number(meta, arch + ".vocab_size"@) is Some ==> meta_number(meta, arch + ".vocab_size"@)
            == Some(c.vocab_size),
        meta_number(meta, arch + ".vocab_size"@) is None ==> is_or(
            meta_number(meta, "tokenizer.ggml.vocab_size"@),
            0,
            c.vocab_size,
        ),
{
    lemma_arch_keys(arch);
}

/// A value, or the default where there is none.
pub open spec fn is_or(v: Option<u32>, default: u32, r: u32) -> bool {
    match v {
        Some(x) => r == x,
        None => r == default,
    }
}

proof fn lemma_arch_key(arch: Seq<char>, name: Seq<char>, dotted: Seq<char>)
    requires
        dotted == "."@ + name,
    ensures
        arch_key(arch, name) == arch + dotted,
{
    assert(arch + "."@ + name =~= arch + ("."@ + name));
}

proof fn lemma_arch_keys(arch: Seq<char>)
    ensures
        arch_key(arch, "block_count"@) == arch + ".block_count"@,
        arch_key(arch, "embedding_length"@) == arch + ".embedding_length"@,
        arch_key(arch, "attention.head_count"@) == arch + ".attention.head_count"@,
        arch_key(arch, "feed_forward_length"@) == arch + ".feed_forward_length"@,
        arch_key(arch, "attention.head_count_kv"@) == arch + ".attention.head_count_kv"@,
        arch_key(arch, "attention.key_length"@) == arch + ".attention.key_length"@,
        arch_key(arch, "expert_count"@) == arch + ".expert_count"@,
        arch_key(arch, "expert_used_count"@) == arch + ".expert_used_count"@,
        arch_key(arch, "context_length"@) == arch + ".context_length"@,
        arch_key(arch, "attention.q_lora_rank"@) == arch + ".attention.q_lora_rank"@,
        arch_key(arch, "attention.kv_lora_rank"@) == arch + ".attention.kv_lora_rank"@,
        arch_key(arch, "rope.freq_base"@) == arch + ".rope.freq_base"@,
        arch_key(arch, "attention.layer_norm_rms_epsilon"@) == arch + ".attention.layer_norm_rms_epsilon"@,
        arch_key(arch, "vocab_size"@) == arch + ".vocab_size"@,
{
    reveal_strlit(".");
    reveal_strlit("block_count");
    reveal_strlit(".block_count");
    assert(".block_count"@ =~= "."@ + "block_count"@);
    lemma_arch_key(arch, "block_count"@, ".block_count"@);
    reveal_strlit("embedding_length");
    reveal_strlit(".embedding_length");
    assert(".embedding_length"@ =~= "."@ + "embedding_length"@);
    lemma_arch_key(arch, "embedding_length"@, ".embedding_length"@);
    reveal_strlit("attention.head_count");
    reveal_strlit(".attention.head_count");
    assert(".attention.head_count"@ =~= "."@ + "attention.head_count"@);
    lemma_arch_key(arch, "attention.head_count"@, ".attention.head_count"@);
    reveal_strlit("feed_forward_length");
    reveal_strlit(".feed_forward_length");
    assert(".feed_forward_length"@ =~= "."@ + "feed_forward_length"@);
    lemma_arch_key(arch, "feed_forward_length"@, ".feed_forward_length"@);
    reveal_strlit("attention.head_count_kv");
    reveal_strlit(".attention.head_count_kv");
    assert(".attention.head_count_kv"@ =~= "."@ + "attention.head_count_kv"@);
    lemma_arch_key(arch, "attention.head_count_kv"@, ".attention.head_count_kv"@);
    reveal_strlit("attention.key_length");
    reveal_strlit(".attention.key_length");
    assert(".attention.key_length"@ =~= "."@ + "attention.key_length"@);
    lemma_arch_key(arch, "attention.key_length"@, ".attention.key_length"@);
    reveal_strlit("expert_count");
    reveal_strlit(".expert_count");
    assert(".expert_count"@ =~= "."@ + "expert_count"@);
    lemma_arch_key(arch, "expert_count"@, ".expert_count"@);
    reveal_strlit("expert_used_count");
    reveal_strlit(".expert_used_count");
    assert(".expert_used_count"@ =~= "."@ + "expert_used_count"@);
    lemma_arch_key(arch, "expert_used_count"@, ".expert_used_count"@);
    reveal_strlit("context_length");
    reveal_strlit(".context_length");
    assert(".context_length"@ =~= "."@ + "context_length"@);
    lemma_arch_key(arch, "context_length"@, ".context_length"@);
    reveal_strlit("attention.q_lora_rank");
    reveal_strlit(".attention.q_lora_rank");
    assert(".attention.q_lora_rank"@ =~= "."@ + "attention.q_lora_rank"@);
    lemma_arch_key(arch, "attention.q_lora_rank"@, ".attention.q_lora_rank"@);
    reveal_strlit("attention.kv_lora_rank");
    reveal_strlit(".attention.kv_lora_rank");
    assert(".attention.kv_lora_rank"@ =~= "."@ + "attention.kv_lora_rank"@);
    lemma_arch_key(arch, "attention.kv_lora_rank"@, ".attention.kv_lora_rank"@);
    reveal_strlit("rope.freq_base");
    reveal_strlit(".rope.freq_base");
    assert(".rope.freq_base"@ =~= "."@ + "rope.freq_base"@);
    lemma_arch_key(arch, "rope.freq_base"@, ".rope.freq_base"@);
    reveal_strlit("attention.layer_norm_rms_epsilon");
    reveal_strlit(".attention.layer_norm_rms_epsilon");
    assert(".attention.layer_norm_rms_epsilon"@ =~= "."@ + "attention.layer_norm_rms_epsilon"@);
    lemma_arch_key(arch, "attention.layer_norm_rms_epsilon"@, ".attention.layer_norm_rms_epsilon"@);
    reveal_strlit("vocab_size");
    reveal_strlit(".vocab_size");
    assert(".vocab_size"@ =~= "."@ + "vocab_size"@);
    lemma_arch_key(arch, "vocab_size"@, ".vocab_size"@);
}

/// A model is resolved exactly if it has its three tensors and each of its layers has
/// its eight.
pub proof fn lemma_mandatory_tensors(names: Set<Seq<char>>, n: int)
    requires
        0 <= n,
    ensures
        resolved_upto(names, n, 8 * n + 3) <==> names.contains("token_embd.weight"@)
            && names.contains("output_norm.weight"@) && names.contains("output.weight"@)
            && forall|il: int| 0 <= il < n ==> #[trigger] layer_complete(names, il),
{
    let upto = 8 * n + 3;
    if resolved_upto(names, n, upto) {
        assert(names.contains(mandatory_name(n, 8 * n)));
        assert(names.contains(mandatory_name(n, 8 * n + 1)));
        assert(names.contains(mandatory_name(n, 8 * n + 2)));
        assert forall|il: int| 0 <= il < n implies #[trigger] layer_complete(names, il) by {
            assert forall|j: int| 0 <= j < 8 implies names.contains(
                layer_tensor_name(il, #[trigger] layer_suffix(j)),
            ) by {
                let k = 8 * il + j;
                assert(k / 8 == il && k % 8 == j);
                assert(names.contains(mandatory_name(n, k)));
            }
            assert(names.contains(layer_tensor_name(il, layer_suffix(0))));
            assert(names.contains(layer_tensor_name(il, layer_suffix(1))));
            assert(names.contains(layer_tensor_name(il, layer_suffix(2))));
            assert(names.contains(layer_tensor_name(il, layer_suffix(3))));
            assert(names.contains(layer_tensor_name(il, layer_suffix(4))));
            assert(names.contains(layer_tensor_name(il, layer_suffix(5))));
            assert(names.contains(layer_tensor_name(il, layer_suffix(6))));
            assert(names.contains(layer_tensor_name(il, layer_suffix(7))));
        }
    }
    if names.contains("token_embd.weight"@) && names.contains("output_norm.weight"@)
        && names.contains("output.weight"@) && (forall|il: int|
        0 <= il < n ==> #[trigger] layer_complete(names, il)) {
        assert forall|k: int| 0 <= k < upto implies names.contains(
            #[trigger] mandatory_name(n, k),
        ) by {
            if k < 8 * n {
                assert(layer_complete(names, k / 8));
            }
        }
    }
}

/// A layer has its eight mandatory tensors.
pub open spec fn layer_complete(names: Set<Seq<char>>, il: int) -> bool {
    &&& names.contains(layer_tensor_name(il, "attn_norm.weight"@))
    &&& names.contains(layer_tensor_name(il, "attn_q.weight"@))
    &&& names.contains(layer_tensor_name(il, "attn_kv.weight"@))
    &&& names.contains(layer_tensor_name(il, "attn_output.weight"@))
    &&& names.contains(layer_tensor_name(il, "ffn_norm.weight"@))
    &&& names.contains(layer_tensor_name(il, "ffn_gate.weight"@))
    &&& names.contains(layer_tensor_name(il, "ffn_up.weight"@))
    &&& names.contains(layer_tensor_name(il, "ffn_down.weight"@))
}

/// The name of a layer's tensor: "blk.", the number of the layer, a dot, and the name.
pub proof fn lemma_layer_name(il: nat, name: Seq<char>)
    ensures
        ({
            let full = layer_tensor_name(il as int, name);
            let n = decimal(il).len() as int;
            &&& full.len() == 5 + n + name.len()
            &&& full[0] == 'b' && full[1] == 'l' && full[2] == 'k' && full[3] == '.'
            &&& full.subrange(4, 4 + n) == decimal(il)
            &&& full[4 + n] == '.'
            &&& full.skip(5 + n) == name
        }),
{
    reveal_strlit("blk.");
    reveal_strlit(".");
    let full = layer_tensor_name(il as int, name);
    let n = decimal(il).len() as int;
    assert("blk."@.len() == 4 && "."@.len() == 1);
    assert("blk."@[0] == 'b' && "blk."@[1] == 'l' && "blk."@[2] == 'k' && "blk."@[3] == '.');
    assert("."@[0] == '.');
    assert(full.subrange(4, 4 + n) =~= decimal(il));
    assert(full.skip(5 + n) =~= name);
}

/// Each field of a resolved layer is the tensor of that layer with that name; those of
/// the routed experts are there exactly if the file has them.
pub proof fn lemma_resolved_layer(w: &LayerTensors, tensors: Map<Seq<char>, Tensor>, il: int)
    requires
        w.resolves(tensors, il),
    ensures
        *w.attn_norm == tensors[layer_tensor_name(il, "attn_norm.weight"@)],
        *w.attn_q == tensors[layer_tensor_name(il, "attn_q.weight"@)],
        *w.attn_kv == tensors[layer_tensor_name(il, "attn_kv.weight"@)],
        *w.attn_out == tensors[layer_tensor_name(il, "attn_output.weight"@)],
        *w.ffn_norm == tensors[layer_tensor_name(il, "ffn_norm.weight"@)],
        *w.ffn_gate == tensors[layer_tensor_name(il, "ffn_gate.weight"@)],
        *w.ffn_up == tensors[layer_tensor_name(il, "ffn_up.weight"@)],
        *w.ffn_down == tensors[layer_tensor_name(il, "ffn_down.weight"@)],
        w.experts_gate is Some <==> tensors.dom().contains(layer_tensor_name(il, "ffn_gate_exps.weight"@)),
        w.experts_gate is Some ==> *w.experts_gate->0 == tensors[layer_tensor_name(il, "ffn_gate_exps.weight"@)],
        w.experts_up is Some <==> tensors.dom().contains(layer_tensor_name(il, "ffn_up_exps.weight"@)),
        w.experts_up is Some ==> *w.experts_up->0 == tensors[layer_tensor_name(il, "ffn_up_exps.weight"@)],
        w.experts_down is Some <==> tensors.dom().contains(layer_tensor_name(il, "ffn_down_exps.weight"@)),
        w.experts_down is Some ==> *w.experts_down->0 == tensors[layer_tensor_name(il, "ffn_down_exps.weight"@)],
        w.experts_router is Some <==> tensors.dom().contains(layer_tensor_name(il, "ffn_gate_inp.weight"@)),
        w.experts_router is Some ==> *w.experts_router->0 == tensors[layer_tensor_name(il, "ffn_gate_inp.weight"@)],
{
}

/// What is reported missing is not there, is mandatory, and belongs to the first layer
/// that is not complete, or to the model where all layers are.
pub proof fn lemma_reported_missing(names: Set<Seq<char>>, n: int, name: String, il: int)
    requires
        reports_missing(names, n, ModelError::MissingTensor(name)),
        0 <= il < n,
    ensures
        !names.contains(name@),
        layer_complete(names, il) || exists|k: int, j: int|
            0 <= k <= il && 0 <= j < 8 && name@ == #[trigger] layer_tensor_name(
                k,
                layer_suffix(j),
            ),
{
    let at = choose|k: int|
        0 <= k < 8 * n + 3 && name@ == #[trigger] mandatory_name(n, k) && resolved_upto(
            names,
            n,
            k,
        );
    if at >= 8 * il + 8 {
        assert forall|j: int| 0 <= j < 8 implies names.contains(
            layer_tensor_name(il, #[trigger] layer_suffix(j)),
        ) by {
            let k = 8 * il + j;
            assert(k / 8 == il && k % 8 == j);
            assert(names.contains(mandatory_name(n, k)));
        }
        assert(names.contains(layer_tensor_name(il, layer_suffix(0))));
        assert(names.contains(layer_tensor_name(il, layer_suffix(1))));
        assert(names.contains(layer_tensor_name(il, layer_suffix(2))));
        assert(names.contains(layer_tensor_name(il, layer_suffix(3))));
        assert(names.contains(layer_tensor_name(il, layer_suffix(4))));
        assert(names.contains(layer_tensor_name(il, layer_suffix(5))));
        assert(names.contains(layer_tensor_name(il, layer_suffix(6))));
        assert(names.contains(layer_tensor_name(il, layer_suffix(7))));
    } else {
        assert(name@ == layer_tensor_name(at / 8, layer_suffix(at % 8)));
    }
}

} // verus!
