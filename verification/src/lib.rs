//! Inference engine for the DeepSeek V4 Flash model.
//!
//! The engine reads a model file, tokenizes text, and keeps sessions in step
//! with prompts; the numeric kernels that run the graph stand outside of it.
//! Floating-point numbers are handled as their bits throughout.

pub mod api;
pub mod backend;
pub mod bench;
pub mod bytes;
pub mod chat;
pub mod cli;
pub mod context_memory;
pub mod cpu_generate;
pub mod cuda;
pub mod dequant;
pub mod dot;
pub mod double;
pub mod engine;
pub mod ffn;
pub mod generate;
pub mod gguf;
pub mod half;
pub mod hc;
pub mod ieee;
pub mod kv_cache;
pub mod layer;
pub mod log;
pub mod matvec;
pub mod matvec_q;
pub mod model;
pub mod moe;
pub mod quant;
pub mod rounding;
pub mod sampler;
pub mod sampling;
pub mod session;
pub mod shape;
pub mod stored;
pub mod sums;
pub mod table;
pub mod text;
pub mod think;
pub mod timeline;
pub mod tokenizer;
pub mod tokens;
pub mod transcript;
pub mod weights;
