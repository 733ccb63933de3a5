//! Public engine boundary.
//!
//! Callers treat the engine as the loaded model and a session as one mutable
//! inference timeline. The module is narrow on purpose: code around the library
//! must not depend on tensor internals.

use crate::text::{lowered, lowered_eq};
use vstd::prelude::*;
use vstd::string::*;

verus! {

/// Where the graph runs.
#[derive(Copy, Clone, Debug, PartialEq, Eq, Structural)]
pub enum Backend {
    Metal,
    Cuda,
    Cpu,
}

impl Backend {
    /// The name of the backend.
    pub open spec fn label(self) -> Seq<char> {
        match self {
            Backend::Metal => "metal"@,
            Backend::Cuda => "cuda"@,
            Backend::Cpu => "cpu"@,
        }
    }

    pub fn name(self) -> (s: &'static str)
        ensures
            s@ == self.label(),
    {
        match self {
            Backend::Metal => "metal",
            Backend::Cuda => "cuda",
            Backend::Cpu => "cpu",
        }
    }

    /// The backend of that name, in any mix of upper and lower case.
    pub fn parse(s: &str) -> (r: Option<Backend>)
        ensures
            match r {
                Some(b) => lowered(s@) == b.label(),
                None => forall|b: Backend| lowered(s@) != #[trigger] b.label(),
            },
    {
        if lowered_eq(s, "metal") {
            Some(Backend::Metal)
        } else if lowered_eq(s, "cuda") {
            Some(Backend::Cuda)
        } else if lowered_eq(s, "cpu") {
            Some(Backend::Cpu)
        } else {
            None
        }
    }
}

/// Different backends have different names, so that at most one is parsed.
pub proof fn lemma_backend_labels_distinct(a: Backend, b: Backend)
    requires
        a.label() == b.label(),
    ensures
        a == b,
{
    reveal_strlit("metal");
    reveal_strlit("cuda");
    reveal_strlit("cpu");
    assert("metal"@.len() == 5 && "cuda"@.len() == 4 && "cpu"@.len() == 3);
}

/// Parsing a backend's name gives the backend back.
pub proof fn lemma_backend_label_is_lower(b: Backend)
    ensures
        lowered(b.label()) == b.label(),
{
    reveal_strlit("metal");
    reveal_strlit("cuda");
    reveal_strlit("cpu");
    assert(lowered(b.label()) =~= b.label());
}

/// How much the model thinks before it answers.
#[derive(Copy, Clone, Debug, PartialEq, Eq, Structural)]
pub enum ThinkMode {
    /// No thinking; named "none".
    Off,
    High,
    Max,
}

/// Context, in tokens, below which `ThinkMode::Max` is not used.
pub const MAX_MIN_CONTEXT: u32 = 32 * 1024;

impl ThinkMode {
    pub open spec fn label(self) -> Seq<char> {
        match self {
            ThinkMode::Off => "none"@,
            ThinkMode::High => "high"@,
            ThinkMode::Max => "max"@,
        }
    }

    /// Whether the model thinks at all.
    pub fn enabled(self) -> (r: bool)
        ensures
            r == (self != ThinkMode::Off),
    {
        !matches!(self, ThinkMode::Off)
    }

    pub fn name(self) -> (s: &'static str)
        ensures
            s@ == self.label(),
    {
        match self {
            ThinkMode::Off => "none",
            ThinkMode::High => "high",
            ThinkMode::Max => "max",
        }
    }

    /// Minimum context, in tokens, required to use `ThinkMode::Max`. Below it
    /// the chain-of-thought scratch alone would dominate the window.
    pub fn max_min_context() -> (n: u32)
        ensures
            n == 32 * 1024,
    {
        MAX_MIN_CONTEXT
    }

    pub fn max_prefix() -> (s: &'static str)
        ensures
            s@ == "<|im_start|>think_max\n"@,
    {
        "<|im_start|>think_max\n"
    }

    /// Downgrade `mode` if the supplied `ctx_size` cannot support it.
    pub fn for_context(mode: ThinkMode, ctx_size: i32) -> (r: ThinkMode)
        ensures
            r == if mode == ThinkMode::Max && ctx_size < 32 * 1024 {
                ThinkMode::High
            } else {
                mode
            },
            r == fitted(mode, ctx_size),
    {
        if matches!(mode, ThinkMode::Max) && (ctx_size < 0 || (ctx_size as u32)
            < Self::max_min_context()) {
            ThinkMode::High
        } else {
            mode
        }
    }
}

/// What a log line is about.
#[derive(Copy, Clone, Debug, PartialEq, Eq, Structural)]
pub enum LogType {
    Default,
    Prefill,
    Generation,
    KvCache,
    Tool,
    Warning,
    Timing,
    /// Something went well; tagged "ok".
    Success,
    Error,
}

/// Mutable token sequence used at API boundaries. Its view is the sequence of
/// token ids.
#[derive(Clone, Debug)]
pub struct Tokens {
    v: Vec<i32>,
}

impl View for Tokens {
    type V = Seq<i32>;

    closed spec fn view(&self) -> Seq<i32> {
        self.v@
    }
}

impl Default for Tokens {
    fn default() -> (r: Self)
        ensures
            r@ == Seq::<i32>::empty(),
    {
        Tokens { v: Vec::new() }
    }
}

impl Tokens {
    pub fn new() -> (r: Self)
        ensures
            r@ == Seq::<i32>::empty(),
    {
        Tokens { v: Vec::new() }
    }

    pub fn from_vec(v: Vec<i32>) -> (r: Self)
        ensures
            r@ == v@,
    {
        Tokens { v }
    }

    pub fn as_slice(&self) -> (r: &[i32])
        ensures
            r@ == self@,
    {
        self.v.as_slice()
    }

    pub fn as_mut_slice(&mut self) -> (r: &mut [i32])
        ensures
            r@ == old(self)@,
            final(self)@ == final(r)@,
    {
        self.v.as_mut_slice()
    }

    pub fn into_vec(self) -> (r: Vec<i32>)
        ensures
            r@ == self@,
    {
        self.v
    }

    pub fn len(&self) -> (n: usize)
        ensures
            n == self@.len(),
    {
        self.v.len()
    }

    pub fn is_empty(&self) -> (r: bool)
        ensures
            r == (self@.len() == 0),
    {
        self.v.len() == 0
    }

    pub fn push(&mut self, t: i32)
        ensures
            final(self)@ == old(self)@.push(t),
    {
        self.v.push(t);
    }

    pub fn clear(&mut self)
        ensures
            final(self)@ == Seq::<i32>::empty(),
    {
        self.v.clear();
    }

    /// Make room for `n` more tokens; the sequence itself stays.
    pub fn reserve(&mut self, n: usize)
        requires
            old(self)@.len() + n <= isize::MAX / 4,
        ensures
            final(self)@ == old(self)@,
    {
        self.v.reserve(n);
    }

    pub fn extend(&mut self, slice: &[i32])
        ensures
            final(self)@ == old(self)@ + slice@,
    {
        self.v.extend_from_slice(slice);
        assert(self.v@ =~= old(self).v@ + slice@);
    }

    pub fn copy_from(&mut self, src: &Tokens)
        ensures
            final(self)@ == src@,
    {
        self.v.clear();
        self.v.extend_from_slice(src.v.as_slice());
        assert(self.v@ =~= src.v@);
    }

    pub fn starts_with(&self, prefix: &Tokens) -> (r: bool)
        ensures
            r == (prefix@.len() <= self@.len() && self@.take(prefix@.len() as int) == prefix@),
    {
        if prefix.v.len() > self.v.len() {
            return false;
        }
        let mut i: usize = 0;
        while i < prefix.v.len()
            invariant
                i <= prefix.v.len() <= self.v.len(),
                forall|j: int| 0 <= j < i ==> self.v@[j] == prefix.v@[j],
            decreases prefix.v.len() - i,
        {
            if self.v[i] != prefix.v[i] {
                assert(self@.take(prefix@.len() as int)[i as int] != prefix@[i as int]);
                return false;
            }
            i = i + 1;
        }
        assert(self@.take(prefix@.len() as int) =~= prefix@);
        true
    }
}

/// A token with its logit and its log-probability, as the bits of
/// single-precision numbers.
#[derive(Copy, Clone, Debug, PartialEq, Eq, Structural)]
pub struct TokenScore {
    pub id: i32,
    pub logit: u32,
    pub logprob: u32,
}

/// The memory that a context window takes.
#[derive(Copy, Clone, Debug, PartialEq, Eq, Structural)]
pub struct ContextMemory {
    pub total_bytes: u64,
    pub raw_bytes: u64,
    pub compressed_bytes: u64,
    pub scratch_bytes: u64,
    pub prefill_cap: u32,
    pub raw_cap: u32,
    pub comp_cap: u32,
}

impl Default for ContextMemory {
    fn default() -> (r: Self)
        ensures
            r == (ContextMemory {
                total_bytes: 0,
                raw_bytes: 0,
                compressed_bytes: 0,
                scratch_bytes: 0,
                prefill_cap: 0,
                raw_cap: 0,
                comp_cap: 0,
            }),
    {
        ContextMemory {
            total_bytes: 0,
            raw_bytes: 0,
            compressed_bytes: 0,
            scratch_bytes: 0,
            prefill_cap: 0,
            raw_cap: 0,
            comp_cap: 0,
        }
    }
}

/// A saved session.
#[derive(Debug)]
pub struct SessionSnapshot {
    pub buf: Vec<u8>,
}

impl Default for SessionSnapshot {
    fn default() -> (r: Self)
        ensures
            r.buf@ == Seq::<u8>::empty(),
    {
        SessionSnapshot { buf: Vec::new() }
    }
}

/// Whether a session could be rewritten.
#[derive(Copy, Clone, Debug, PartialEq, Eq, Structural)]
pub enum SessionRewriteResult {
    Rewritten,
    /// The live backend state cannot be rewritten safely in place. The caller
    /// should restore an older checkpoint, then sync to the prompt.
    RebuildNeeded,
}

/// What can go wrong at the engine boundary.
#[derive(Debug)]
pub enum Error {
    /// An I/O error, by its text.
    Io(String),
    Gguf(String),
    Tokenizer(String),
    Backend(&'static str, String),
    Invalid(String),
    RebuildRequired,
    Unsupported(&'static str),
    Other(String),
}

/// The two texts, one after the other.
pub(crate) fn prefixed(prefix: &str, text: &str) -> (r: String)
    ensures
        r@ == prefix@ + text@,
{
    let mut s: String = String::from_str(prefix);
    s.append(text);
    s
}

impl Error {
    /// The text that the error is shown with.
    pub open spec fn text(&self) -> Seq<char> {
        match self {
            Error::Io(e) => "io error: "@ + e@,
            Error::Gguf(e) => "gguf: "@ + e@,
            Error::Tokenizer(e) => "tokenizer: "@ + e@,
            Error::Backend(name, e) => "backend ("@ + name@ + "): "@ + e@,
            Error::Invalid(e) => "invalid arg: "@ + e@,
            Error::RebuildRequired => "rebuild required"@,
            Error::Unsupported(what) => "not supported on this build: "@ + what@,
            Error::Other(e) => e@,
        }
    }

    /// The text that the error is shown with.
    pub fn message(&self) -> (s: String)
        ensures
            s@ == self.text(),
    {
        match self {
            Error::Io(e) => prefixed("io error: ", e.as_str()),
            Error::Gguf(e) => prefixed("gguf: ", e.as_str()),
            Error::Tokenizer(e) => prefixed("tokenizer: ", e.as_str()),
            Error::Backend(name, e) => {
                let mut s: String = prefixed("backend (", name);
                s.append("): ");
                s.append(e.as_str());
                s
            },
            Error::Invalid(e) => prefixed("invalid arg: ", e.as_str()),
            Error::RebuildRequired => String::from_str("rebuild required"),
            Error::Unsupported(what) => prefixed("not supported on this build: ", what),
            Error::Other(e) => e.clone(),
        }
    }
}

/// Receiver of generated tokens. A verified receiver defines for itself what it
/// has received.
pub trait TokenSink {
    /// The tokens received so far.
    open spec fn emitted(&self) -> Seq<i32> {
        seq![]
    }

    /// Whether the end of the generation was announced.
    open spec fn finished(&self) -> bool {
        true
    }

    fn emit(&mut self, token: i32)
        ensures
            final(self).emitted() == old(self).emitted().push(token),
            final(self).finished() == old(self).finished(),
    ;

    fn done(&mut self)
        ensures
            final(self).emitted() == old(self).emitted(),
            final(self).finished(),
    ;
}

/// A sink that keeps what it receives.
#[derive(Debug)]
pub struct TokenLog {
    pub tokens: Tokens,
    pub complete: bool,
}

impl TokenLog {
    pub fn new() -> (r: Self)
        ensures
            r.emitted() == Seq::<i32>::empty(),
            !r.finished(),
    {
        TokenLog { tokens: Tokens::new(), complete: false }
    }
}

impl TokenSink for TokenLog {
    open spec fn emitted(&self) -> Seq<i32> {
        self.tokens@
    }

    open spec fn finished(&self) -> bool {
        self.complete
    }

    fn emit(&mut self, token: i32) {
        self.tokens.push(token);
    }

    fn done(&mut self) {
        self.complete = true;
    }
}

/// Receiver of the progress of long-running session operations. A verified
/// receiver defines for itself what it has received.
pub trait ProgressSink {
    /// The reports received so far: event, current and total.
    open spec fn reports(&self) -> Seq<(Seq<char>, i32, i32)> {
        seq![]
    }

    fn report(&mut self, event: &str, current: i32, total: i32)
        ensures
            final(self).reports() == old(self).reports().push((event@, current, total)),
    ;
}

/// A sink that keeps what it receives.
#[derive(Debug)]
pub struct ProgressLog {
    pub events: Vec<(String, i32, i32)>,
}

impl ProgressLog {
    pub fn new() -> (r: Self)
        ensures
            r.reports() == Seq::<(Seq<char>, i32, i32)>::empty(),
    {
        let r: ProgressLog = ProgressLog { events: Vec::new() };
        assert(r.reports() =~= Seq::<(Seq<char>, i32, i32)>::empty());
        r
    }
}

impl ProgressSink for ProgressLog {
    open spec fn reports(&self) -> Seq<(Seq<char>, i32, i32)> {
        self.events@.map_values(|e: (String, i32, i32)| (e.0@, e.1, e.2))
    }

    fn report(&mut self, event: &str, current: i32, total: i32) {
        self.events.push((event.to_owned(), current, total));
        assert(self.reports() =~= old(self).reports().push((event@, current, total)));
    }
}

/// A sink that drops what it receives.
pub struct Quiet {
    heard: Ghost<Seq<(Seq<char>, i32, i32)>>,
}

impl Quiet {
    pub fn new() -> (r: Self)
        ensures
            r.reports() == Seq::<(Seq<char>, i32, i32)>::empty(),
    {
        Quiet { heard: Ghost(Seq::empty()) }
    }
}

impl ProgressSink for Quiet {
    closed spec fn reports(&self) -> Seq<(Seq<char>, i32, i32)> {
        self.heard@
    }

    fn report(&mut self, event: &str, current: i32, total: i32) {
        self.heard = Ghost(self.heard@.push((event@, current, total)));
    }
}

/// The mode that a context supports in place of another.
pub open spec fn fitted(mode: ThinkMode, ctx_size: i32) -> ThinkMode {
    if mode == ThinkMode::Max && ctx_size < MAX_MIN_CONTEXT {
        ThinkMode::High
    } else {
        mode
    }
}

/// Only the highest mode is ever given up, for the next one, and only in contexts of
/// fewer than 32768 tokens; giving it up twice changes nothing, and a larger context
/// never supports less.
pub proof fn lemma_fitted(mode: ThinkMode, ctx_size: i32, larger: i32)
    requires
        ctx_size <= larger,
    ensures
        mode != ThinkMode::Max ==> fitted(mode, ctx_size) == mode,
        ctx_size >= 32768 ==> fitted(mode, ctx_size) == mode,
        ctx_size < 32768 ==> fitted(mode, ctx_size) != ThinkMode::Max,
        mode == ThinkMode::Max && ctx_size < 32768 ==> fitted(mode, ctx_size) == ThinkMode::High,
        fitted(fitted(mode, ctx_size), ctx_size) == fitted(mode, ctx_size),
        fitted(mode, larger) == mode || fitted(mode, ctx_size) == fitted(mode, larger),
{
}

/// The names of the backends and of the think modes.
pub proof fn lemma_names()
    ensures
        Backend::Metal.label() == seq!['m', 'e', 't', 'a', 'l'],
        Backend::Cuda.label() == seq!['c', 'u', 'd', 'a'],
        Backend::Cpu.label() == seq!['c', 'p', 'u'],
        ThinkMode::Off.label() == seq!['n', 'o', 'n', 'e'],
        ThinkMode::High.label() == seq!['h', 'i', 'g', 'h'],
        ThinkMode::Max.label() == seq!['m', 'a', 'x'],
{
    reveal_strlit("metal");
    reveal_strlit("cuda");
    reveal_strlit("cpu");
    reveal_strlit("none");
    reveal_strlit("high");
    reveal_strlit("max");
    assert("metal"@ =~= seq!['m', 'e', 't', 'a', 'l']);
    assert("cuda"@ =~= seq!['c', 'u', 'd', 'a']);
    assert("cpu"@ =~= seq!['c', 'p', 'u']);
    assert("none"@ =~= seq!['n', 'o', 'n', 'e']);
    assert("high"@ =~= seq!['h', 'i', 'g', 'h']);
    assert("max"@ =~= seq!['m', 'a', 'x']);
}

} // verus!
