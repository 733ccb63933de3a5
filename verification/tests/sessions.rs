use ds4::api::{
    Backend, Error, ProgressLog, ProgressSink, Quiet, SessionRewriteResult, ThinkMode, TokenLog,
    TokenScore, Tokens,
};
use ds4::backend::cpu::CpuBackend;
use ds4::backend::{self, BackendImpl, PrefillStats};
use ds4::bench::{
    check_prompt, csv_header, decode_frontier, goes_on, prefill_frontier, BenchArgs, BenchError,
};
use ds4::cli::{
    choose_task, is_blank, parse_options, reply, text_of_tokens, OptionError, Task,
};
use ds4::cpu_generate::{Action, CpuGenerate};
use ds4::cuda::{
    available, elementwise_shape, ensure_available, matmul_q8_0_shape, quantize_q8_0_shape,
    rms_norm_shape, rope_tail_shape, LaunchShape,
};
use ds4::generate::generate_greedy;
use ds4::half::{f16_to_f32, f32_to_f16};
use ds4::hc::{embed_token_f16, hc_from_plain};
use ds4::matvec::{dot_q8_0_row, q8_0_row_bytes, Q8_0_BLOCK_BYTES};
use ds4::model::Config;
use ds4::session::Session;
use ds4::shape::{N_EMBD, N_HC, N_LAYER, N_VOCAB};
use ds4::tokenizer::Tokenizer;
use std::cell::{Cell, RefCell};
use std::rc::Rc;

/// A backend whose logits favour the successor of the last cached token, modulo
/// the size of the vocabulary. It counts the tokens that it prefills.
struct Successor {
    cached: Vec<i32>,
    logits: Vec<u32>,
    prefilled: usize,
    room: usize,
    stuck: Cell<bool>,
    seen: Rc<RefCell<Vec<String>>>,
}

impl Successor {
    fn new(vocab: usize, room: usize) -> Successor {
        let mut b = Successor {
            cached: Vec::new(),
            logits: vec![0; vocab],
            prefilled: 0,
            room,
            stuck: Cell::new(false),
            seen: Rc::default(),
        };
        b.score();
        b
    }

    fn note(&self, what: String) {
        self.seen.borrow_mut().push(what);
    }

    fn score(&mut self) {
        let n = self.logits.len();
        let next = self.cached.last().map_or(0, |t| (*t as usize + 1) % n);
        for (i, l) in self.logits.iter_mut().enumerate() {
            *l = if i == next { 2.0f32 } else { -(i as f32) }.to_bits();
        }
    }
}

impl BackendImpl for Successor {
    fn name(&self) -> Backend {
        Backend::Cpu
    }
    fn reset(&mut self) {
        self.note("reset".to_string());
        self.cached.clear();
        self.score();
    }
    fn prefill(&mut self, tokens: &Tokens, start: u32) -> Result<PrefillStats, Error> {
        self.note(format!("prefill {:?} from {start}", tokens.as_slice()));
        let suffix = &tokens.as_slice()[start as usize..];
        if self.cached.len() + suffix.len() > self.room {
            return Err(Error::Other("full".to_string()));
        }
        self.cached.extend_from_slice(suffix);
        self.prefilled += suffix.len();
        self.score();
        Ok(PrefillStats { tokens: suffix.len() as u32, elapsed_ms: 0 })
    }
    fn decode(&mut self, token: i32) -> Result<(), Error> {
        if self.cached.len() >= self.room {
            return Err(Error::Other("full".to_string()));
        }
        self.cached.push(token);
        self.score();
        Ok(())
    }
    fn logits(&self) -> &[u32] {
        &self.logits
    }
    fn rewind(&mut self, pos: u32) -> Result<(), Error> {
        self.note(format!("rewind {pos}"));
        if self.stuck.get() || pos as usize > self.cached.len() {
            return Err(Error::RebuildRequired);
        }
        self.cached.truncate(pos as usize);
        self.score();
        Ok(())
    }
    fn n_tokens(&self) -> u32 {
        self.cached.len() as u32
    }
    fn save_payload(&self) -> Result<Vec<u8>, Error> {
        Ok(vec![self.cached.len() as u8])
    }
    fn load_payload(&mut self, bytes: &[u8]) -> Result<(), Error> {
        self.rewind(bytes[0] as u32)
    }
    fn top_logprobs(&self, k: usize) -> Vec<TokenScore> {
        vec![TokenScore { id: 1, logit: 0, logprob: 0 }; k]
    }
}

type Live = Session<Successor, ProgressLog>;

fn live(vocab: usize, room: usize) -> Live {
    Session::new(Successor::new(vocab, room), room as u32)
}

fn tokens(v: &[i32]) -> Tokens {
    Tokens::from_vec(v.to_vec())
}

fn config() -> Config {
    Config {
        n_layers: 1,
        d_model: 1,
        n_heads: 1,
        n_kv_heads: 1,
        d_head: 1,
        d_ff: 1,
        n_experts: 0,
        n_experts_per_tok: 0,
        vocab_size: 0,
        rope_base: 0,
        rms_norm_eps: 0,
        max_context: 0,
        q_lora_rank: 0,
        kv_lora_rank: 0,
    }
}

#[test]
fn sync_prefills_only_the_suffix() {
    let mut s = live(10, 100);
    s.set_progress(ProgressLog::new());
    s.sync(&tokens(&[1, 2, 3])).unwrap();
    assert_eq!(s.backend().prefilled, 3);
    s.sync(&tokens(&[1, 2, 3, 4, 5])).unwrap();
    assert_eq!(s.backend().prefilled, 5);
    s.sync(&tokens(&[1, 2, 9])).unwrap();
    assert_eq!(s.backend().prefilled, 6);
    assert_eq!(s.backend().cached, vec![1, 2, 9]);
    assert_eq!(s.tokens().as_slice(), &[1, 2, 9]);
    assert_eq!((s.pos(), s.ctx()), (3, 100));
    // Shorter prompts need no prefill at all.
    s.sync(&tokens(&[1])).unwrap();
    assert_eq!(s.backend().prefilled, 6);
    let events = &s.progress().unwrap().events;
    let seen: Vec<(i32, i32)> = events.iter().map(|e| (e.1, e.2)).collect();
    assert_eq!(seen, vec![(0, 3), (3, 5), (2, 3), (1, 1)]);
    assert!(events.iter().all(|e| e.0 == "sync"));
}

/// A sink that shares its list of events with a backend.
struct Listener(Rc<RefCell<Vec<String>>>);

impl ProgressSink for Listener {
    fn report(&mut self, event: &str, current: i32, total: i32) {
        self.0.borrow_mut().push(format!("report {event} {current}/{total}"));
    }
}

#[test]
fn sync_reports_before_it_calls_the_backend() {
    let backend = Successor::new(10, 4);
    let seen = backend.seen.clone();
    let mut s: Session<Successor, Listener> = Session::new(backend, 4);
    s.set_progress(Listener(seen.clone()));
    let take = || std::mem::take(&mut *seen.borrow_mut());
    s.sync(&tokens(&[1, 2])).unwrap();
    assert_eq!(take(), ["report sync 0/2", "rewind 0", "prefill [1, 2] from 0"]);
    s.sync(&tokens(&[1, 2, 3])).unwrap();
    assert_eq!(take(), ["report sync 2/3", "rewind 2", "prefill [1, 2, 3] from 2"]);
    s.sync(&tokens(&[1])).unwrap();
    assert_eq!(take(), ["report sync 1/1", "rewind 1"]);
    s.backend().stuck.set(true);
    s.sync(&tokens(&[1, 9])).unwrap();
    assert_eq!(
        take(),
        ["report sync 1/2", "rewind 1", "reset", "prefill [1, 9] from 0"],
    );
    s.backend().stuck.set(false);
    s.sync(&tokens(&[1, 9, 3, 4, 5])).unwrap_err();
    assert_eq!(take(), ["report sync 2/5", "rewind 2", "prefill [1, 9, 3, 4, 5] from 2"]);
    assert_eq!(s.tokens().as_slice(), &[1, 9]);
}

#[test]
fn sync_rebuilds_where_the_backend_cannot_rewind() {
    let mut s = live(10, 100);
    s.sync(&tokens(&[1, 2, 3])).unwrap();
    s.backend().stuck.set(true);
    let r = s.rewrite_from_common(&tokens(&[1, 4]), 1).unwrap();
    assert_eq!(r, SessionRewriteResult::RebuildNeeded);
    assert_eq!(s.tokens().as_slice(), &[1, 2, 3]);
    // So is one that a prompt shorter than the common part asks for.
    let calls = s.backend().seen.borrow().len();
    let r = s.rewrite_from_common(&tokens(&[1]), 2).unwrap();
    assert_eq!(r, SessionRewriteResult::RebuildNeeded);
    assert_eq!(s.backend().seen.borrow().len(), calls);
    s.sync(&tokens(&[1, 4])).unwrap();
    assert_eq!(s.backend().cached, vec![1, 4]);
    assert_eq!(s.backend().prefilled, 5);
    assert_eq!(s.tokens().as_slice(), &[1, 4]);
}

#[test]
fn sync_reports_a_full_backend() {
    let mut s = live(10, 3);
    s.sync(&tokens(&[1, 2])).unwrap();
    assert!(s.sync(&tokens(&[1, 2, 3, 4])).is_err());
    assert_eq!(s.tokens().as_slice(), &[1, 2]);
}

#[test]
fn rewriting() {
    assert!(!Live::rewrite_requires_rebuild(5, 10, 5));
    assert!(Live::rewrite_requires_rebuild(4, 10, 5));
    assert!(Live::rewrite_requires_rebuild(5, 4, 5));
    let mut s = live(10, 100);
    s.sync(&tokens(&[1, 2, 3])).unwrap();
    let r = s.rewrite_from_common(&tokens(&[1, 2, 7, 8]), 2).unwrap();
    assert_eq!(r, SessionRewriteResult::Rewritten);
    assert_eq!(s.backend().cached, vec![1, 2, 7, 8]);
    // The cache holds fewer tokens than are said to be common.
    let r = s.rewrite_from_common(&tokens(&[1, 2, 7, 8, 9]), 5).unwrap();
    assert_eq!(r, SessionRewriteResult::RebuildNeeded);
    assert_eq!(s.common_prefix(&tokens(&[1, 2, 3])), 2);
    s.invalidate();
    assert!(s.tokens().is_empty());
    assert_eq!(s.pos(), 0);
}

#[test]
fn evaluation_and_rewinding() {
    let mut s = live(5, 4);
    s.sync(&tokens(&[1, 2])).unwrap();
    assert_eq!(s.argmax(), 3);
    assert_eq!(s.argmax_excluding(3), 0);
    s.eval(3).unwrap();
    assert_eq!(s.argmax(), 4);
    assert_eq!(s.tokens().as_slice(), &[1, 2, 3]);
    s.rewind(1);
    assert_eq!(s.tokens().as_slice(), &[1]);
    assert_eq!(s.backend().cached, vec![1]);
    s.rewind(9);
    assert_eq!(s.tokens().as_slice(), &[1]);
    assert_eq!(s.top_logprobs(2).len(), 2);
    let saved = s.payload_bytes().unwrap();
    s.eval(2).unwrap();
    s.load_payload(&saved).unwrap();
    assert_eq!(s.pos(), 1);
    let mut full = live(5, 1);
    full.eval(0).unwrap();
    assert!(full.eval(1).is_err());
    assert_eq!(full.tokens().len(), 1);
}

#[test]
fn speculative_decoding_is_greedy() {
    let mut s = live(6, 100);
    s.sync(&tokens(&[1])).unwrap();
    let mut accepted = vec![99];
    assert_eq!(s.eval_speculative_argmax(7, 10, 4, &mut accepted).unwrap(), 3);
    assert_eq!(accepted, vec![2, 3, 4]);
    assert_eq!(s.tokens().as_slice(), &[1, 2, 3, 4]);
    assert_eq!(s.eval_speculative_argmax(0, 2, 99, &mut accepted).unwrap(), 2);
    assert_eq!(accepted, vec![5, 0]);
    assert_eq!(s.eval_speculative_argmax(0, -1, 4, &mut accepted).unwrap(), 0);
    assert!(accepted.is_empty());
}

#[test]
fn greedy_generation() {
    let mut s = live(6, 100);
    s.sync(&tokens(&[1])).unwrap();
    let mut sink = TokenLog::new();
    let mut progress = ProgressLog::new();
    assert_eq!(generate_greedy(&mut s, 10, 4, &mut sink, &mut progress).unwrap(), 3);
    // The token that ends the text is emitted but not committed.
    assert_eq!(sink.tokens.as_slice(), &[2, 3, 4]);
    assert_eq!(s.tokens().as_slice(), &[1, 2, 3]);
    assert!(sink.complete);
    let seen: Vec<(i32, i32)> = progress.events.iter().map(|e| (e.1, e.2)).collect();
    assert_eq!(seen, vec![(1, 10), (2, 10), (3, 10)]);
    // A backend that runs full ends the generation with an error.
    let mut s = live(6, 2);
    let mut sink = TokenLog::new();
    assert!(generate_greedy(&mut s, 10, 4, &mut sink, &mut progress).is_err());
    assert_eq!(sink.tokens.as_slice(), &[0, 1, 2]);
    assert!(!sink.complete);
}

#[test]
fn quiet_sinks_change_nothing() {
    let mut s: Session<Successor, Quiet> = Session::new(Successor::new(5, 9), 9);
    assert!(s.progress().is_none());
    s.set_progress(Quiet::new());
    s.sync(&tokens(&[1, 2])).unwrap();
    assert!(s.progress().is_some());
    assert_eq!(s.tokens().as_slice(), &[1, 2]);
    assert_eq!((s.logits().len(), s.argmax()), (5, 3));
}

#[test]
fn cpu_backend_counts_tokens() {
    let mut b: CpuBackend = backend::open(Backend::Cpu, &config(), 4).ok().unwrap();
    assert_eq!(b.name(), Backend::Cpu);
    let stats = b.prefill(&tokens(&[1, 2, 3]), 1).unwrap();
    assert_eq!((stats.tokens, b.n_tokens()), (2, 2));
    let e = b.prefill(&tokens(&[1, 2, 3]), 0).unwrap_err();
    assert_eq!(e.message(), "cpu backend: context overflow");
    b.decode(7).unwrap();
    b.decode(7).unwrap();
    assert_eq!(b.decode(7).unwrap_err().message(), "cpu backend: context full");
    assert_eq!(b.rewind(5).unwrap_err().message(), "rewind past end");
    b.rewind(1).unwrap();
    assert_eq!(b.n_tokens(), 1);
    assert!(b.logits().is_empty());
    assert!(b.save_payload().unwrap().is_empty());
    b.load_payload(&[1]).unwrap();
    assert!(b.top_logprobs(3).is_empty());
    b.reset();
    assert_eq!(b.n_tokens(), 0);
    for (which, name) in [(Backend::Metal, "metal"), (Backend::Cuda, "cuda")] {
        match backend::open(which, &config(), 4) {
            Err(Error::Unsupported(s)) => assert_eq!(s, name),
            _ => panic!("unexpected backend"),
        }
    }
    // A session on it cannot choose a token.
    let b = backend::open(Backend::Cpu, &config(), 4).ok().unwrap();
    let mut s: Session<CpuBackend, ProgressLog> = Session::new(b, 4);
    let mut accepted = Vec::new();
    let e = s.eval_speculative_argmax(0, 1, 2, &mut accepted).unwrap_err();
    assert_eq!(e.message(), "no logits to choose from");
}

fn words() -> Tokenizer {
    let mut t = Tokenizer::default();
    for w in ["zero ", "one ", "two ", "three ", "end", "five "] {
        t.vocab.push(w.as_bytes().to_vec());
    }
    t.eos = 4;
    t
}

#[test]
fn replies() {
    let t = words();
    let mut s = live(6, 100);
    s.sync(&tokens(&[0])).unwrap();
    assert_eq!(reply(&mut s, &t, 10).unwrap(), b"one two three ");
    assert_eq!(s.tokens().as_slice(), &[0, 1, 2, 3]);
    let mut s = live(6, 100);
    s.sync(&tokens(&[0])).unwrap();
    assert_eq!(reply(&mut s, &t, 2).unwrap(), b"one two ");
    assert_eq!(reply(&mut s, &t, 0).unwrap(), b"");
    // Ids beyond the vocabulary have no text.
    assert_eq!(text_of_tokens(&t, &[5, 4, 77, -1, 0]), b"five zero ");
}

#[test]
fn command_line_options() {
    let (b, m) = parse_options(Some("CUDA"), "max").unwrap();
    assert_eq!((b, m), (Some(Backend::Cuda), ThinkMode::Max));
    let (b, m) = parse_options(None, "").unwrap();
    assert_eq!((b, m), (None, ThinkMode::Off));
    let e = parse_options(Some("tpu"), "bogus").unwrap_err();
    assert_eq!(e.message(), "unknown backend `tpu`");
    let e = parse_options(Some("cpu"), "bogus").unwrap_err();
    assert!(matches!(e, OptionError::InvalidThink));
    assert_eq!(e.message(), "invalid --think value");
    assert_eq!(choose_task(true, true), Task::DumpTokens);
    assert_eq!(choose_task(false, true), Task::OneShot);
    assert_eq!(choose_task(false, false), Task::Converse);
    assert!(is_blank(" \t") && is_blank("") && !is_blank(" x "));
}

#[test]
fn benchmark_steps() {
    let a = BenchArgs::default();
    assert_eq!(a.model, "./ds4flash.gguf");
    assert!(a.backend.is_none());
    assert_eq!((a.warmup, a.decode, a.prefill, a.ctx_size), (32, 256, 1024, 4096));
    assert_eq!(
        csv_header(),
        "ctx_tokens,prefill_tokens,prefill_tps,gen_tokens,gen_tps,kvcache_bytes",
    );
    let prompt = tokens(&[1, 2, 3, 1, 2, 3]);
    check_prompt(&prompt, 6).unwrap();
    let e = check_prompt(&prompt, 7).unwrap_err();
    assert_eq!(e.message(), "prompt has 6 tokens, need at least --ctx-max=7");
    assert!(goes_on(2, 3) && !goes_on(3, 3));

    let mut s = live(5, 8);
    prefill_frontier(&mut s, &prompt, 3).unwrap();
    assert_eq!(s.tokens().as_slice(), &[1, 2, 3]);
    // The favourite after 3 is 4, which ends the text: the next best is chosen.
    decode_frontier(&mut s, 3, 4, 3).unwrap();
    assert_eq!(s.tokens().as_slice(), &[1, 2, 3, 0, 1, 2]);
    // No more than asked for are decoded, however much room there is.
    let mut wide = live(5, 100);
    decode_frontier(&mut wide, 1, 4, 3).unwrap();
    assert_eq!(wide.tokens().len(), 1);
    let e = decode_frontier(&mut s, 9, 4, 3).unwrap_err();
    assert!(matches!(e, BenchError::ContextFull(3)));
    assert_eq!(e.message(), "generation would exceed allocated context at frontier 3");
    decode_frontier(&mut s, 0, 4, 3).unwrap();

    let mut s = live(1, 8);
    let e = decode_frontier(&mut s, 1, 0, 5).unwrap_err();
    assert_eq!(e.message(), "no non-EOS token at frontier 5");
    let mut s = live(5, 2);
    let e = prefill_frontier(&mut s, &prompt, 3).unwrap_err();
    assert_eq!(e.message(), "full");
}

#[test]
fn generate_with_identity_layer_emits_same_token_each_step() {
    let n_embd = N_EMBD as usize;
    let n_hc = N_HC as usize;
    let n_vocab = N_VOCAB as usize;
    const WINNER: usize = 0;

    let tok_embed: Vec<u16> = (0..n_embd)
        .map(|i| f32_to_f16((0.01 * ((i % 17) as f32 - 8.0)).to_bits()))
        .collect();

    // Rows of the output matrix: scale one in every block, quants zero but for
    // the winner's.
    let scale = f32_to_f16(1.0f32.to_bits()).to_le_bytes();
    let row = |quant: u8| {
        let mut bytes = vec![quant; q8_0_row_bytes(n_embd)];
        for block in bytes.chunks_mut(Q8_0_BLOCK_BYTES) {
            block[0] = scale[0];
            block[1] = scale[1];
        }
        bytes
    };
    // A state of ones stays a vector of ones up to the output matrix, quantized
    // with the scale 1/127.
    let logit = |row: &[u8], state: &[f32]| {
        let xq: Vec<i8> = state[..n_embd].iter().map(|v| (v * 127.0).round() as i8).collect();
        dot_q8_0_row(row, &xq)
            .iter()
            .map(|b| f32::from_bits(f16_to_f32(b.d)) / 127.0 * b.sum as f32)
            .sum::<f32>()
    };
    let (plain_row, winner_row) = (row(0), row(127));

    let n_predict = 5;
    let mut g = CpuGenerate::start(&tokens(&[0]), n_predict, -1).ok().unwrap();
    let mut sink = TokenLog::new();
    let mut plain = vec![0u32; n_embd];
    let mut cur = vec![0u32; n_hc * n_embd];
    let mut state = vec![0.0f32; n_hc * n_embd];
    loop {
        match g.action() {
            Action::Embed(token, _) => {
                embed_token_f16(&mut plain, &tok_embed, n_embd, token as usize);
                hc_from_plain(&mut cur, &plain);
                assert_eq!(cur[n_embd..2 * n_embd], plain[..]);
                g.embedded();
            },
            Action::Layer(_, _, _) => {
                // Every layer writes ones.
                state.fill(1.0);
                g.layered();
            },
            Action::Score => {
                let mut logits = vec![logit(&plain_row, &state).to_bits(); n_vocab];
                logits[WINNER] = logit(&winner_row, &state).to_bits();
                g.scored(&logits, &mut sink);
            },
            Action::Announce => g.finish(&mut sink),
            Action::Finish => break,
        }
    }
    assert!(sink.complete);
    assert_eq!(g.emitted(), n_predict);
    assert_eq!(sink.tokens.len(), n_predict as usize);
    for (i, &t) in sink.tokens.as_slice().iter().enumerate() {
        assert_eq!(t, WINNER as i32, "step {i}: expected token {WINNER}, got {t}");
    }
}

/// Run a token through all layers, checking that they come in order.
fn run_layers(g: &mut CpuGenerate, token: i32, pos: u64) {
    assert_eq!(g.action(), Action::Embed(token, pos));
    g.embedded();
    for il in 0..N_LAYER {
        assert_eq!(g.action(), Action::Layer(il, token, pos));
        g.layered();
    }
}

#[test]
fn cpu_generation_decides_in_order() {
    let one_hot = |n: usize, i: usize| {
        let mut v = vec![0u32; n];
        v[i] = 1.0f32.to_bits();
        v
    };
    let e = CpuGenerate::start(&Tokens::new(), 1, 0).err().unwrap();
    assert_eq!(e.message(), "generate_argmax_cpu: prompt is empty");

    let mut g = CpuGenerate::start(&tokens(&[7, 8]), 3, 5).ok().unwrap();
    let mut sink = TokenLog::new();
    run_layers(&mut g, 7, 0);
    run_layers(&mut g, 8, 1);
    assert_eq!(g.action(), Action::Score);
    g.scored(&one_hot(9, 2), &mut sink);
    run_layers(&mut g, 2, 2);
    g.scored(&one_hot(9, 3), &mut sink);
    run_layers(&mut g, 3, 3);
    // The last token asked for is not run.
    g.scored(&one_hot(9, 4), &mut sink);
    assert_eq!(g.action(), Action::Announce);
    assert!(!sink.complete);
    g.finish(&mut sink);
    assert!(sink.complete);
    assert_eq!((g.action(), g.emitted()), (Action::Finish, 3));
    assert_eq!(sink.tokens.as_slice(), &[2, 3, 4]);

    // The token that ends the text is not emitted.
    let mut g = CpuGenerate::start(&tokens(&[7]), 3, 5).ok().unwrap();
    run_layers(&mut g, 7, 0);
    g.scored(&one_hot(9, 5), &mut sink);
    assert_eq!((g.action(), g.emitted()), (Action::Announce, 0));
    assert_eq!(sink.tokens.len(), 3);

    let mut g = CpuGenerate::start(&tokens(&[7]), 0, 5).ok().unwrap();
    run_layers(&mut g, 7, 0);
    assert_eq!(g.action(), Action::Announce);
}

#[test]
fn cuda_launches() {
    assert!(!available());
    let e = ensure_available().unwrap_err();
    assert_eq!(e.message(), "ds4-cuda: CUDA backend is only built on Linux");
    assert_eq!(quantize_q8_0_shape(33), (LaunchShape { grid_x: 2, block_x: 32 }, 2));
    assert_eq!(quantize_q8_0_shape(u32::MAX).1, 134_217_728);
    assert_eq!(matmul_q8_0_shape(17, 64), (LaunchShape { grid_x: 3, block_x: 256 }, 2));
    assert_eq!(rms_norm_shape(), LaunchShape { grid_x: 1, block_x: 256 });
    assert_eq!(elementwise_shape(0).grid_x, 0);
    assert_eq!(elementwise_shape(257), LaunchShape { grid_x: 2, block_x: 256 });
    let (shape, pos0) = rope_tail_shape(64, 64, 0x1_0000_0007);
    assert_eq!((shape.grid_x, pos0), (8, 7));
    assert_eq!(rope_tail_shape(u32::MAX, 64, 0).0.grid_x, 16_777_216);
}
