use ds4::api::{Backend, Error, ProgressLog, ThinkMode, TokenLog, Tokens};
use ds4::bench::build_prompt;
use ds4::chat::{
    append_assistant_prefix, append_max_effort_prefix, append_message, begin, encode_chat_prompt,
};
use ds4::engine::{default_backend, Engine, EngineError, Platform, System};
use ds4::gguf::{element_count, tensor_size_bytes, DType, Gguf, GgufError, Tensor, Value};
use ds4::model::{layer_tensor, Config, Field, ModelError, Tensors};
use ds4::shape::{N_EMBD, N_EXPERT, N_FF_EXP, N_HEAD_DIM, N_VOCAB};
use ds4::transcript::Transcript;
use ds4::weights::{bind_weights, Part, WeightsError};

/// A platform without native backends.
const PLAIN: Platform = Platform { system: System::Linux, metal: false, cuda: false };

fn write_u32(w: &mut Vec<u8>, v: u32) {
    w.extend_from_slice(&v.to_le_bytes());
}

fn write_u64(w: &mut Vec<u8>, v: u64) {
    w.extend_from_slice(&v.to_le_bytes());
}

fn write_str(w: &mut Vec<u8>, s: &str) {
    write_u64(w, s.len() as u64);
    w.extend_from_slice(s.as_bytes());
}

fn synth_gguf(tensor_name: &str) -> Vec<u8> {
    let mut out = Vec::new();
    out.extend_from_slice(b"GGUF");
    write_u32(&mut out, 3); // version
    write_u64(&mut out, 1); // n_tensors
    write_u64(&mut out, 1); // n_kv
    // KV: "general.architecture" = "ds4"
    write_str(&mut out, "general.architecture");
    write_u32(&mut out, 8); // String value kind
    write_str(&mut out, "ds4");
    // Tensor: dims=[0], dtype=F32, offset=0
    write_str(&mut out, tensor_name);
    write_u32(&mut out, 1); // n_dims
    write_u64(&mut out, 0); // dim 0 = 0 elements
    write_u32(&mut out, 0); // dtype F32
    write_u64(&mut out, 0); // tensor offset
    // Pad to alignment 32.
    while out.len() % 32 != 0 {
        out.push(0);
    }
    out
}

/// A file under construction.
struct File {
    kv: Vec<u8>,
    n_kv: u64,
    tensors: Vec<u8>,
    n_tensors: u64,
    data: Vec<u8>,
}

impl File {
    fn new() -> File {
        File { kv: Vec::new(), n_kv: 0, tensors: Vec::new(), n_tensors: 0, data: Vec::new() }
    }

    fn key(&mut self, key: &str, kind: u32) {
        self.n_kv += 1;
        write_str(&mut self.kv, key);
        write_u32(&mut self.kv, kind);
    }

    fn number(&mut self, key: &str, v: u32) {
        self.key(key, 4);
        write_u32(&mut self.kv, v);
    }

    fn text(&mut self, key: &str, v: &str) {
        self.key(key, 8);
        write_str(&mut self.kv, v);
    }

    fn texts(&mut self, key: &str, items: &[&str]) {
        self.key(key, 9);
        write_u32(&mut self.kv, 8);
        write_u64(&mut self.kv, items.len() as u64);
        for s in items {
            write_str(&mut self.kv, s);
        }
    }

    fn tensor(&mut self, name: &str, dtype: u32, shape: &[u64], offset: u64) {
        self.n_tensors += 1;
        write_str(&mut self.tensors, name);
        write_u32(&mut self.tensors, shape.len() as u32);
        for d in shape {
            write_u64(&mut self.tensors, *d);
        }
        write_u32(&mut self.tensors, dtype);
        write_u64(&mut self.tensors, offset);
    }

    fn bytes(&self) -> Vec<u8> {
        let mut out = b"GGUF".to_vec();
        write_u32(&mut out, 3);
        write_u64(&mut out, self.n_tensors);
        write_u64(&mut out, self.n_kv);
        out.extend_from_slice(&self.kv);
        out.extend_from_slice(&self.tensors);
        while out.len() % 32 != 0 {
            out.push(0);
        }
        out.extend_from_slice(&self.data);
        out
    }
}

#[test]
fn parser_round_trips_minimal_gguf() {
    let bytes = synth_gguf("zeros");
    let g = Gguf::parse(&bytes).expect("parse synth gguf");
    assert_eq!(g.version, 3);
    assert_eq!(g.tensors.len(), 1);
    assert!(g.tensors.contains_key("zeros"));
    let arch = g.meta_str("general.architecture").unwrap_or("");
    assert_eq!(arch, "ds4");
    if let Some(Value::String(s)) = g.metadata.get("general.architecture") {
        assert_eq!(s, "ds4");
    } else {
        panic!("missing or wrong-typed general.architecture");
    }
}

#[test]
fn every_value_kind_is_read() {
    let mut f = File::new();
    f.key("u8", 0);
    f.kv.push(200);
    f.key("i8", 1);
    f.kv.push(0xff);
    f.key("u16", 2);
    f.kv.extend_from_slice(&513u16.to_le_bytes());
    f.key("i16", 3);
    f.kv.extend_from_slice(&(-2i16).to_le_bytes());
    f.number("u32", 7);
    f.key("i32", 5);
    f.kv.extend_from_slice(&(-3i32).to_le_bytes());
    f.key("f32", 6);
    f.kv.extend_from_slice(&1.5f32.to_le_bytes());
    f.key("bool", 7);
    f.kv.push(2);
    f.text("text", "日");
    f.key("list", 9);
    write_u32(&mut f.kv, 9);
    write_u64(&mut f.kv, 2);
    for n in [1u64, 0] {
        write_u32(&mut f.kv, 0);
        write_u64(&mut f.kv, n);
        for _ in 0..n {
            f.kv.push(9);
        }
    }
    f.key("u64", 10);
    f.kv.extend_from_slice(&0x1_0000_0005u64.to_le_bytes());
    f.key("i64", 11);
    f.kv.extend_from_slice(&(-1i64).to_le_bytes());
    f.key("f64", 12);
    f.kv.extend_from_slice(&0.25f64.to_le_bytes());
    f.text("text", "again");
    let bytes = f.bytes();
    let g = Gguf::parse(&bytes).unwrap();
    assert_eq!(g.metadata.len(), 13);
    assert!(matches!(g.metadata.get("u8"), Some(Value::U8(200))));
    assert!(matches!(g.metadata.get("i8"), Some(Value::I8(-1))));
    assert!(matches!(g.metadata.get("u16"), Some(Value::U16(513))));
    assert!(matches!(g.metadata.get("i16"), Some(Value::I16(-2))));
    assert!(matches!(g.metadata.get("bool"), Some(Value::Bool(true))));
    match g.metadata.get("list") {
        Some(Value::Array(items)) => {
            assert_eq!(items.len(), 2);
            assert!(matches!(&items[0], Value::Array(v) if v.len() == 1));
            assert!(matches!(&items[1], Value::Array(v) if v.is_empty()));
        }
        _ => panic!("no list"),
    }
    assert_eq!(g.meta_u32("u32"), Some(7));
    assert_eq!(g.meta_u32("i32"), Some(-3i32 as u32));
    assert_eq!(g.meta_u32("u64"), Some(5));
    assert_eq!(g.meta_u32("i64"), Some(u32::MAX));
    assert_eq!(g.meta_u32("u8"), None);
    assert_eq!(g.meta_u32("absent"), None);
    assert_eq!(g.meta_f32("f32"), Some(1.5f32.to_bits()));
    assert_eq!(g.meta_f32("f64"), Some(0.25f32.to_bits()));
    assert_eq!(g.meta_f32("u32"), None);
    // A name that comes again replaces the value.
    assert_eq!(g.meta_str("text"), Some("again"));
    assert_eq!(g.meta_str("u32"), None);
}

fn parse_error(bytes: &[u8]) -> String {
    Gguf::parse(bytes).unwrap_err().message()
}

#[test]
fn bad_files_are_refused() {
    assert_eq!(parse_error(b"GG"), "gguf: short read");
    assert_eq!(parse_error(b"GGML...."), "gguf: bad magic 0x4c4d4747");
    assert_eq!(parse_error(b"GGUF\x04\x00\x00\x00"), "gguf: unsupported version 4");
    assert_eq!(parse_error(b"GGUF\x02\x00\x00\x00\x00"), "gguf: short read");

    let mut f = File::new();
    f.key("k", 13);
    assert_eq!(parse_error(&f.bytes()), "gguf: unknown value kind 13");

    let mut f = File::new();
    f.n_kv = 1;
    write_u64(&mut f.kv, 1);
    f.kv.push(0xff);
    assert_eq!(
        parse_error(&f.bytes()),
        "gguf: non-utf8 string (invalid utf-8 sequence of 1 bytes from index 0)",
    );
    for bad in [&b"ab\xe6\x97"[..], b"\xe6\x97x", b"\xed\xa0\x80", b"x\xf0\x9f\x98", b"\xc3("] {
        let mut f = File::new();
        f.n_kv = 1;
        write_u64(&mut f.kv, bad.len() as u64);
        f.kv.extend_from_slice(bad);
        let e = std::str::from_utf8(bad).unwrap_err();
        assert_eq!(parse_error(&f.bytes()), format!("gguf: non-utf8 string ({e})"));
    }

    let mut f = File::new();
    f.n_kv = 1;
    write_u64(&mut f.kv, u64::MAX);
    assert_eq!(parse_error(&f.bytes()), "gguf: overflow");

    let mut f = File::new();
    f.tensor("t", 4, &[1], 0);
    assert_eq!(parse_error(&f.bytes()), "gguf: unknown dtype 4");

    let mut f = File::new();
    f.tensor("t", 8, &[3, 5], 0);
    assert_eq!(
        parse_error(&f.bytes()),
        "gguf: element count 15 not divisible by block 32 for dtype Q8_0",
    );

    let mut f = File::new();
    f.tensor("t", 0, &[1 << 40, 1 << 40], 0);
    assert_eq!(parse_error(&f.bytes()), "gguf: tensor size overflow");

    let mut f = File::new();
    f.tensor("t", 0, &[1], u64::MAX);
    assert_eq!(parse_error(&f.bytes()), "gguf: tensor offset overflow");

    let mut f = File::new();
    f.number("general.alignment", 0);
    assert_eq!(parse_error(&f.bytes()), "gguf: alignment is zero");
}

#[test]
fn tensors_are_placed_behind_the_header() {
    let mut f = File::new();
    f.number("general.alignment", 64);
    f.tensor("a", 0, &[2], 0);
    f.tensor("b", 24, &[3], 8);
    f.tensor("c", 0, &[1000], 0);
    let mut bytes = f.bytes();
    while bytes.len() % 64 != 0 {
        bytes.push(0);
    }
    let start = bytes.len();
    bytes.extend_from_slice(&[1, 2, 3, 4, 5, 6, 7, 8, 9, 10, 11]);
    let g = Gguf::parse(&bytes).unwrap();
    assert_eq!(g.alignment, 64);
    assert_eq!(g.data_offset as usize, start);
    let a = g.tensors.get("a").unwrap();
    assert_eq!(g.tensor_bytes(a).unwrap(), &[1, 2, 3, 4, 5, 6, 7, 8]);
    let b = g.tensors.get("b").unwrap();
    assert_eq!(g.tensor_bytes(b).unwrap(), &[9, 10, 11]);
    assert_eq!(b.dtype, DType::I8);
    let c = g.tensors.get("c").unwrap();
    assert_eq!(
        g.tensor_bytes(c).unwrap_err().message(),
        "gguf: tensor `c` extends past mmap",
    );
    let far = Tensor {
        name: "far".to_string(),
        dtype: DType::F32,
        shape: vec![1],
        offset: u64::MAX,
        size_bytes: 4,
    };
    assert!(matches!(g.tensor_bytes(&far), Err(GgufError::TensorOverflow)));
}

#[test]
fn tensor_sizes() {
    assert_eq!(tensor_size_bytes(DType::F16, &[3, 5]).unwrap(), 30);
    assert_eq!(tensor_size_bytes(DType::Q8_0, &[64]).unwrap(), 68);
    assert_eq!(tensor_size_bytes(DType::Q2_K, &[256, 2]).unwrap(), 168);
    assert_eq!(tensor_size_bytes(DType::IQ2_XXS, &[512]).unwrap(), 132);
    assert_eq!(tensor_size_bytes(DType::F64, &[]).unwrap(), 8);
    assert!(matches!(
        tensor_size_bytes(DType::F64, &[1 << 62]),
        Err(GgufError::SizeOverflow)
    ));
    assert_eq!(element_count(&[1 << 40, 1 << 40, 0]), Some(0));
    assert_eq!(element_count(&[1 << 40, 1 << 40]), None);
    let mut known = 0;
    for v in 0..40u32 {
        match DType::from_raw(v) {
            Ok(d) => {
                known += 1;
                assert_eq!(d.name(), format!("{d:?}"));
            }
            Err(e) => assert_eq!(e.message(), format!("gguf: unknown dtype {v}")),
        }
    }
    assert_eq!(known, 29);
}

fn minimal_config() -> Config {
    Config {
        n_layers: 1,
        d_model: N_EMBD,
        n_heads: 64,
        n_kv_heads: 1,
        d_head: N_HEAD_DIM,
        d_ff: N_FF_EXP,
        n_experts: N_EXPERT,
        n_experts_per_tok: 6,
        vocab_size: N_VOCAB,
        rope_base: 10_000.0f32.to_bits(),
        rms_norm_eps: 1.0e-6f32.to_bits(),
        max_context: 65_536,
        q_lora_rank: 1024,
        kv_lora_rank: 0,
    }
}

#[test]
fn binder_reports_missing_tensors_cleanly() {
    let bytes = synth_gguf("zeros");
    let g = Gguf::parse(&bytes).expect("parse synth gguf");

    let cfg = minimal_config();

    let err = bind_weights(&g, &cfg).expect_err("should report missing tensors").message();
    assert!(err.contains("missing"), "error should mention missing tensor: {err}");
    assert!(err.contains("token_embd"), "first failure should be the embedding table: {err}");
}

/// The largest global tensors overlap at the start of the data, so that the file
/// stays small enough to build.
fn weights_file(first_dtype: u32, elems: u64) -> Vec<u8> {
    let mut f = File::new();
    f.tensor("token_embd.weight", first_dtype, &[elems], 0);
    f.bytes()
}

#[test]
fn binder_checks_in_order() {
    let mut cfg = minimal_config();
    cfg.n_layers = 0;
    let bytes = synth_gguf("zeros");
    let g = Gguf::parse(&bytes).unwrap();
    let e = bind_weights(&g, &cfg).unwrap_err();
    assert_eq!(e.message(), "weights: config reports zero layers");

    let cfg = minimal_config();
    let bytes = weights_file(0, 1);
    let g = Gguf::parse(&bytes).unwrap();
    assert_eq!(
        bind_weights(&g, &cfg).unwrap_err().message(),
        "weights: tensor `token_embd.weight` has dtype F32, expected F16",
    );
    let bytes = weights_file(1, 12);
    let g = Gguf::parse(&bytes).unwrap();
    assert_eq!(
        bind_weights(&g, &cfg).unwrap_err().message(),
        "weights: tensor `token_embd.weight` has 12 elements, expected 529530880",
    );
    let bytes = weights_file(1, 529530880);
    let g = Gguf::parse(&bytes).unwrap();
    assert_eq!(
        bind_weights(&g, &cfg).unwrap_err().message(),
        "weights: required tensor is missing: output_norm.weight",
    );
    let name = || "t".to_string();
    assert_eq!(
        WeightsError::NotExpert(name(), DType::F16).message(),
        "weights: tensor `t` has dtype F16, expected routed expert quant (Q2_K / Q4_K / IQ2_XXS)",
    );
    assert_eq!(
        WeightsError::Ragged(name(), 7, 2).message(),
        "weights: tensor `t` byte length 7 not a multiple of 2 (u16 cast)",
    );
    assert_eq!(
        WeightsError::Ragged(name(), 7, 4).message(),
        "weights: tensor `t` byte length 7 not a multiple of 4 (f32 cast)",
    );
    assert_eq!(WeightsError::PastEnd(name()).message(), "gguf: tensor `t` extends past mmap");
    assert_eq!(WeightsError::TensorOverflow.message(), "gguf: tensor size overflow");
    assert_eq!(WeightsError::Misaligned(name()).message(), "weights: tensor `t` is misaligned");
    assert_eq!(WeightsError::TooLarge(name()).message(), "weights: tensor `t` has too many elements");
    assert_eq!(Part::HcFfnBase.name(7), "blk.7.hc_ffn_base.weight");
    assert_eq!(Part::Output.name(7), "output.weight");
}

/// A whole file of one layer, with all tensors at the start of zeroed data.
fn full_weights(expert_dtype: u32, shift: u64, data: usize) -> Vec<u8> {
    let (e, v) = (N_EMBD as u64, N_VOCAB as u64);
    let mut f = File::new();
    f.tensor("token_embd.weight", 1, &[e, v], 0);
    f.tensor("output_norm.weight", 0, &[e], 0);
    f.tensor("output.weight", 8, &[e, v], 0);
    f.tensor("output_hc_fn.weight", 1, &[8], 2);
    f.tensor("output_hc_scale.weight", 0, &[1], 4);
    f.tensor("output_hc_base.weight", 0, &[4], 0);
    let l = |s: &str| format!("blk.0.{s}.weight");
    f.tensor(&l("attn_norm"), 0, &[e], shift);
    f.tensor(&l("ffn_norm"), 0, &[e], 0);
    f.tensor(&l("attn_q"), 8, &[64], 0);
    f.tensor(&l("attn_kv"), 8, &[e, 512], 0);
    f.tensor(&l("attn_output"), 8, &[32], 0);
    for s in ["ffn_gate_shexp", "ffn_up_shexp", "ffn_down_shexp"] {
        f.tensor(&l(s), 8, &[e, 2048], 0);
    }
    f.tensor(&l("ffn_down_exps"), expert_dtype, &[256], 0);
    f.tensor(&l("ffn_gate_inp"), 1, &[e, 256], 0);
    for s in ["attn", "ffn"] {
        f.tensor(&l(&format!("hc_{s}_fn")), 1, &[6], 0);
        f.tensor(&l(&format!("hc_{s}_scale")), 0, &[3], 0);
        f.tensor(&l(&format!("hc_{s}_base")), 0, &[24], 0);
    }
    let mut bytes = f.bytes();
    let at = bytes.len();
    bytes.resize(at + data, 0);
    bytes[at..at + 8].copy_from_slice(&[1, 2, 3, 4, 5, 6, 7, 8]);
    bytes
}

/// The bytes of the largest tensor.
const LARGEST: usize = 2 * 529_530_880;

#[test]
fn weights_are_bound_to_their_bytes() {
    let bytes = full_weights(10, 0, LARGEST);
    let g = Gguf::parse(&bytes).unwrap();
    let cfg = minimal_config();
    match bind_weights(&g, &cfg) {
        Ok(w) => {
            assert_eq!(w.layers.len(), 1);
            assert_eq!(w.tok_embed.len(), 529_530_880);
            assert_eq!(w.tok_embed[0], u16::from_ne_bytes([1, 2]));
            assert_eq!(w.output_norm[1], u32::from_ne_bytes([5, 6, 7, 8]));
            assert_eq!(w.output_hc_fn[0], u16::from_ne_bytes([3, 4]));
            assert_eq!(&w.output[..3], &[1, 2, 3]);
            let l = &w.layers[0];
            assert_eq!(l.il, 0);
            assert_eq!(l.attn_norm[0], u32::from_ne_bytes([1, 2, 3, 4]));
            assert_eq!(l.attn_q.len(), 68);
            assert!(l.ffn_gate_exps.is_none() && l.ffn_up_exps.is_none());
            assert_eq!(l.ffn_down_exps.map(|b| b.len()), Some(84));
            assert_eq!(l.ffn_router.map(|b| b.len()), Some(4096 * 256));
            assert_eq!(l.hc_attn_scale.len(), 3);
        }
        // Where the file happens to lie at an odd address.
        Err(e) => assert!(matches!(e, WeightsError::Misaligned(_))),
    }
}

#[test]
fn bad_layers_are_refused() {
    let bytes = full_weights(1, 0, 16 << 20);
    let g = Gguf::parse(&bytes).unwrap();
    let e = bind_weights(&g, &minimal_config()).unwrap_err();
    assert!(matches!(&e, WeightsError::NotExpert(n, DType::F16) if n == "blk.0.ffn_down_exps.weight"));

    let bytes = full_weights(10, u64::MAX / 4, 16 << 20);
    let g = Gguf::parse(&bytes).unwrap();
    let e = bind_weights(&g, &minimal_config()).unwrap_err();
    assert!(matches!(&e, WeightsError::PastEnd(n) if n == "blk.0.attn_norm.weight"));

    // The bytes of the global tensors are looked at last.
    let bytes = full_weights(10, 0, 16 << 20);
    let g = Gguf::parse(&bytes).unwrap();
    let e = bind_weights(&g, &minimal_config()).unwrap_err();
    assert!(matches!(&e, WeightsError::PastEnd(n) if n == "token_embd.weight"));

    let mut cfg = minimal_config();
    cfg.n_layers = 2;
    let e = bind_weights(&g, &cfg).unwrap_err();
    assert!(matches!(&e, WeightsError::Missing(n) if n == "blk.1.attn_norm.weight"));
}

#[test]
fn misaligned_words_are_refused() {
    // A shift by one byte cannot be had as words of four bytes.
    let bytes = full_weights(10, 1, LARGEST);
    let g = Gguf::parse(&bytes).unwrap();
    let e = bind_weights(&g, &minimal_config()).unwrap_err();
    assert!(matches!(e, WeightsError::Misaligned(_)));
}

fn config_file(keys: &[&str]) -> File {
    let mut f = File::new();
    f.text("general.architecture", "ds4");
    for (i, k) in keys.iter().enumerate() {
        f.number(&format!("ds4.{k}"), 10 + i as u32);
    }
    f
}

const KEYS: [&str; 4] =
    ["block_count", "embedding_length", "attention.head_count", "feed_forward_length"];

#[test]
fn configuration_defaults_and_errors() {
    let bytes = config_file(&KEYS).bytes();
    let g = Gguf::parse(&bytes).unwrap();
    let c = Config::from_gguf(&g).unwrap();
    assert_eq!((c.n_layers, c.d_model, c.n_heads, c.d_ff), (10, 11, 12, 13));
    assert_eq!(c.n_kv_heads, 12);
    assert_eq!(c.d_head, 128);
    assert_eq!((c.n_experts, c.n_experts_per_tok, c.vocab_size, c.max_context), (0, 0, 0, 0));
    assert_eq!((c.q_lora_rank, c.kv_lora_rank), (0, 0));
    assert_eq!(c.rope_base, 10000.0f32.to_bits());
    assert_eq!(c.rms_norm_eps, 1e-5f32.to_bits());

    let mut f = config_file(&KEYS);
    f.number("ds4.attention.head_count_kv", 1);
    f.number("tokenizer.ggml.vocab_size", 99);
    f.key("ds4.rope.freq_base", 12);
    f.kv.extend_from_slice(&5e5f64.to_le_bytes());
    let bytes = f.bytes();
    let g = Gguf::parse(&bytes).unwrap();
    let c = Config::from_gguf(&g).unwrap();
    assert_eq!((c.n_kv_heads, c.vocab_size), (1, 99));
    assert_eq!(c.rope_base, 5e5f32.to_bits());

    let texts = [
        "model: missing block_count",
        "embedding_length",
        "head_count",
        "feed_forward_length",
    ];
    for n in 0..4 {
        let bytes = config_file(&KEYS[..n]).bytes();
        let g = Gguf::parse(&bytes).unwrap();
        assert_eq!(Config::from_gguf(&g).unwrap_err().message(), texts[n]);
    }
    let bytes = File::new().bytes();
    let g = Gguf::parse(&bytes).unwrap();
    let e = Config::from_gguf(&g).unwrap_err();
    assert!(matches!(e, ModelError::MissingField(Field::Architecture)));
    assert_eq!(e.message(), "model: missing general.architecture");
}

/// A small model: its tensors are empty, its vocabulary is given.
fn engine_file(tokens: Option<&[&str]>, leave_out: &str) -> File {
    let mut f = File::new();
    f.text("general.architecture", "ds4");
    f.number("ds4.block_count", 1);
    for k in &KEYS[1..] {
        f.number(&format!("ds4.{k}"), 8);
    }
    if let Some(t) = tokens {
        f.texts("tokenizer.ggml.tokens", t);
    }
    f.texts("tokenizer.ggml.merges", &["h i", "no-space", "hi !"]);
    f.number("tokenizer.ggml.eos_token_id", 77);
    let layer = [
        "attn_norm", "attn_q", "attn_kv", "attn_output", "ffn_norm", "ffn_gate", "ffn_up",
        "ffn_down",
    ];
    for s in layer {
        let name = format!("blk.0.{s}.weight");
        if name != leave_out {
            f.tensor(&name, 0, &[0], 0);
        }
    }
    f.tensor("blk.0.ffn_down_exps.weight", 10, &[0], 0);
    for name in ["token_embd.weight", "output_norm.weight", "output.weight"] {
        if name != leave_out {
            f.tensor(name, 0, &[0], 0);
        }
    }
    f
}

const VOCAB: [&str; 10] = [
    "h",
    "i",
    "!",
    "hi",
    "<\u{ff5c}begin\u{2581}of\u{2581}sentence\u{ff5c}>",
    "<\u{ff5c}User\u{ff5c}>",
    "<\u{ff5c}Assistant\u{ff5c}>",
    "<think>",
    "</think>",
    "<|im_end|>",
];

#[test]
fn missing_tensors_are_named() {
    for name in ["blk.0.ffn_up.weight", "output.weight", "token_embd.weight"] {
        let bytes = engine_file(Some(&VOCAB), name).bytes();
        let g = Gguf::parse(&bytes).unwrap();
        let c = Config::from_gguf(&g).unwrap();
        let e = Tensors::resolve(&g, &c).unwrap_err();
        assert_eq!(e.message(), format!("model: missing tensor `{name}`"));
    }
    assert_eq!(layer_tensor(42, "x"), "blk.42.x");
}

#[test]
fn engines_open() {
    let bytes = engine_file(Some(&VOCAB), "").bytes();
    let e = Engine::open(&bytes, None, None, PLAIN, 3).unwrap();
    assert_eq!(e.backend(), Backend::Cpu);
    assert!(!e.has_mtp());
    assert_eq!(e.mtp_draft_tokens(), 3);
    assert_eq!(e.routed_quant_bits(), 2);
    assert_eq!(e.config().n_layers, 1);
    assert_eq!(e.gguf().version, 3);
    assert_eq!(
        e.summary(),
        "ds4: arch=ds4 backend=cpu layers=1 d_model=8 n_heads=8 n_kv=8 d_head=128 d_ff=8 \
         experts=0/0 vocab=0 ctx_max=0",
    );
    let t = e.tokenizer();
    assert_eq!(t.vocab.len(), 10);
    assert_eq!((t.bos, t.eos), (4, 77));
    assert_eq!((t.user_role, t.assistant_role, t.system_role), (5, 6, -1));
    assert_eq!((t.think_start, t.think_end), (7, 8));
    assert_eq!((t.im_start, t.im_end), (-1, 9));
    assert_eq!(t.merges.len(), 2);
    assert_eq!(t.merges.get(&(b"hi".to_vec(), b"!".to_vec())), Some(&2));
    let names: Vec<&String> = t.special.keys().collect();
    assert_eq!(names, [VOCAB[4], VOCAB[5], VOCAB[6], VOCAB[7], VOCAB[8], VOCAB[9]]);
    let mut out = Tokens::new();
    t.encode("hi", &mut out);
    assert_eq!(out.as_slice(), &[3]);

    let draft = synth_gguf("zeros");
    let e = Engine::open(&bytes, Some(&draft), Some(Backend::Metal), PLAIN, 0).unwrap();
    assert!(e.has_mtp());
    assert_eq!(e.backend(), Backend::Metal);

    let native = Platform { system: System::MacOs, metal: true, cuda: true };
    let e = Engine::open(&bytes, None, None, native, 0).unwrap();
    assert_eq!(e.backend(), Backend::Metal);
}

#[test]
fn native_backends_are_the_default() {
    let choose = |system, metal, cuda| default_backend(Platform { system, metal, cuda });
    assert_eq!(choose(System::MacOs, true, false), Backend::Metal);
    assert_eq!(choose(System::MacOs, false, true), Backend::Cpu);
    assert_eq!(choose(System::Linux, true, true), Backend::Cuda);
    assert_eq!(choose(System::Linux, true, false), Backend::Cpu);
    assert_eq!(choose(System::Other, true, true), Backend::Cpu);
}

#[test]
fn engine_errors_come_in_order() {
    let open = |b: &[u8]| Engine::open(b, None, None, PLAIN, 0).err().unwrap();
    assert!(matches!(open(b""), EngineError::Gguf(GgufError::ShortRead)));
    assert_eq!(open(&File::new().bytes()).message(), "model: missing general.architecture");
    let bytes = engine_file(None, "output.weight").bytes();
    assert_eq!(open(&bytes).message(), "model: missing tensor `output.weight`");
    let bytes = engine_file(None, "").bytes();
    assert_eq!(open(&bytes).message(), "tokenizer: no tokens array in gguf");
    let bytes = engine_file(Some(&VOCAB), "").bytes();
    let e = Engine::open(&bytes, Some(b"GGUF"), None, PLAIN, 0).err().unwrap();
    assert!(matches!(e, EngineError::Mtp(GgufError::ShortRead)));
    assert_eq!(e.message(), "gguf: short read");
}

#[test]
fn token_listing() {
    let bytes = engine_file(Some(&VOCAB), "").bytes();
    let e = Engine::open(&bytes, None, None, PLAIN, 0).unwrap();
    let (line, text) = e.dump_line(3, 2);
    assert_eq!(line, format!("[{:5}] {:>6}  ", 3, 2));
    assert_eq!(text, b"!");
    let (line, text) = e.dump_line(1234567, -7);
    assert_eq!(line, format!("[{:5}] {:>6}  ", 1234567, -7));
    assert_eq!(text, b"<?>");
}

#[test]
fn chat_prompts() {
    let bytes = engine_file(Some(&VOCAB), "").bytes();
    let e = Engine::open(&bytes, None, None, PLAIN, 0).unwrap();
    let prompt = |system: Option<&str>, mode: ThinkMode| {
        let mut out = Tokens::new();
        encode_chat_prompt(&e, system, "hi", mode, "!!", &mut out);
        out.into_vec()
    };
    assert_eq!(prompt(None, ThinkMode::High), vec![4, 5, 3, 6, 7]);
    assert_eq!(prompt(Some(""), ThinkMode::Off), vec![4, 5, 3, 6, 8]);
    assert_eq!(prompt(Some("i"), ThinkMode::Max), vec![4, 2, 2, 1, 5, 3, 6, 7]);

    let mut out = Tokens::new();
    begin(&e, &mut out);
    append_max_effort_prefix(&e, &mut out, "h");
    append_message(&e, &mut out, "user", "i");
    append_message(&e, &mut out, "system", "i");
    append_message(&e, &mut out, "assistant", "h");
    append_message(&e, &mut out, "tool", "!");
    append_assistant_prefix(&e, &mut out, ThinkMode::Off);
    assert_eq!(out.into_vec(), vec![4, 0, 5, 1, 1, 6, 0, 2, 6, 8]);
}

#[test]
fn transcripts_render_like_prompts_and_grow() {
    let bytes = engine_file(Some(&VOCAB), "").bytes();
    let e = Engine::open(&bytes, None, None, PLAIN, 0).unwrap();
    let render = |t: &Transcript| {
        let mut out = Tokens::new();
        t.render(&e, ThinkMode::High, "!", &mut out);
        out.into_vec()
    };
    let mut t = Transcript::new();
    t.set_system("i");
    t.push_user("hi");
    let one = render(&t);
    let mut prompt = Tokens::new();
    encode_chat_prompt(&e, Some("i"), "hi", ThinkMode::High, "!", &mut prompt);
    assert_eq!(one, prompt.into_vec());
    t.push_assistant("h");
    t.push_user("i");
    let two = render(&t);
    assert_eq!(two, vec![4, 1, 5, 3, 6, 0, 5, 1, 6, 7]);
    // All but the closing prefix is shared.
    assert_eq!(&two[..one.len() - 2], &one[..one.len() - 2]);
}

#[test]
fn generation_on_the_cpu_backend() {
    let bytes = engine_file(Some(&VOCAB), "").bytes();
    let e = Engine::open(&bytes, None, None, PLAIN, 0).unwrap();
    let prompt = Tokens::from_vec(vec![1, 2, 3]);
    let mut sink = TokenLog::new();
    let mut progress = ProgressLog::new();
    assert_eq!(e.generate_argmax(&prompt, 0, 8, &mut sink, &mut progress).unwrap(), 0);
    assert!(sink.complete);
    assert_eq!(progress.events, vec![("prefill".to_string(), 3, 3)]);
    // The backend has no logits to choose from.
    let mut sink = TokenLog::new();
    let mut progress = ProgressLog::new();
    let r = e.generate_argmax(&prompt, 1, 8, &mut sink, &mut progress);
    assert_eq!(r.unwrap_err().message(), "no logits to choose from");
    assert!(!sink.complete && sink.tokens.is_empty());
    assert_eq!(progress.events, vec![("prefill".to_string(), 3, 3)]);
    let r = e.generate_argmax(&prompt, 0, 2, &mut sink, &mut progress);
    assert_eq!(r.unwrap_err().message(), "cpu backend: context overflow");
    let r = e.generate_argmax(&prompt, 0, -5, &mut sink, &mut progress);
    assert_eq!(r.unwrap_err().message(), "cpu backend: context overflow");

    let metal = Engine::open(&bytes, None, Some(Backend::Metal), PLAIN, 0).unwrap();
    let r = metal.generate_argmax(&prompt, 0, 8, &mut sink, &mut progress);
    assert!(matches!(r, Err(Error::Unsupported("metal"))));
    assert_eq!(progress.events.len(), 1);
}

#[test]
fn benchmark_prompts() {
    let bytes = engine_file(Some(&VOCAB), "").bytes();
    let e = Engine::open(&bytes, None, None, PLAIN, 0).unwrap();
    assert_eq!(build_prompt(&e, "hi<|im_end|>", None).as_slice(), &[3, 1]);
    // Only "i" of the rendered text's letters is in the vocabulary, and the end
    // marker is a special token.
    let chat = build_prompt(&e, "hi!", Some("h")).into_vec();
    assert_eq!(chat.iter().filter(|&&t| t == 9).count(), 2);
    let user: Vec<i32> = chat.iter().copied().skip_while(|&t| t != 9).collect();
    assert!(user.windows(2).any(|w| w == [3, 2]) || user.contains(&3));
}
