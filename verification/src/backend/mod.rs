//! Backend dispatch.
//!
//! All backends expose the same trait, so that a session is unaware of which
//! one it is talking to.

pub mod cpu;

use self::cpu::CpuBackend;
use crate::api::{Backend, Error, TokenScore, Tokens};
use crate::model::Config;
use vstd::prelude::*;

verus! {

/// What a prefill took. The time is the bits of a double-precision number of
/// milliseconds.
#[derive(Debug, Clone, Copy, PartialEq, Eq, Structural)]
pub struct PrefillStats {
    pub tokens: u32,
    pub elapsed_ms: u64,
}

/// A call that changes a backend, with its arguments.
pub ghost enum Call {
    Reset,
    Prefill(Seq<i32>, u32),
    Decode(i32),
    Rewind(u32),
    Load(Seq<u8>),
}

/// A graph with its key/value cache. Where an operation fails, nothing is said
/// of what the cache holds afterwards.
///
/// The contracts speak of the state of a backend through the first few
/// functions, which a verified backend defines for itself.
pub trait BackendImpl: Sized {
    /// The backend is in a proper state.
    open spec fn wf(&self) -> bool {
        true
    }

    /// The tokens whose keys and values are in the cache.
    open spec fn cached(&self) -> Seq<i32> {
        seq![]
    }

    /// The current logits, as the bits of single-precision numbers.
    open spec fn scores(&self) -> Seq<u32> {
        seq![]
    }

    /// The number of tokens that were ever prefilled.
    open spec fn work(&self) -> nat {
        0
    }

    /// The calls made so far, whether or not they succeeded.
    open spec fn calls(&self) -> Seq<Call> {
        seq![]
    }

    /// The logits after each decode that succeeded so far.
    open spec fn trail(&self) -> Seq<Seq<u32>> {
        seq![]
    }

    /// A cache of `n` tokens is sure to be accepted.
    open spec fn fits(&self, n: nat) -> bool {
        false
    }

    /// A cache of `n` tokens is sure to be refused.
    open spec fn refuses(&self, n: nat) -> bool {
        false
    }

    /// The backend never computes logits.
    open spec fn scoreless(&self) -> bool {
        false
    }

    /// A rewind to `pos` tokens is sure to succeed.
    open spec fn rewindable(&self, pos: u32) -> bool {
        false
    }

    /// Which backend it is.
    open spec fn kind(&self) -> Backend {
        Backend::Cpu
    }

    /// What is saved of the session.
    open spec fn payload(&self) -> Seq<u8> {
        seq![]
    }

    /// Saving is sure to succeed.
    open spec fn savable(&self) -> bool {
        false
    }

    /// Restoring the payload is sure to succeed.
    open spec fn restorable(&self, bytes: Seq<u8>) -> bool {
        false
    }

    /// The payload that was restored last.
    open spec fn restored(&self) -> Seq<u8> {
        seq![]
    }

    /// The ranking of the `k` likeliest tokens.
    open spec fn ranked(&self, k: usize) -> Seq<TokenScore> {
        seq![]
    }

    fn name(&self) -> (b: Backend)
        ensures
            b == self.kind(),
    ;

    /// Reset session state.
    fn reset(&mut self)
        requires
            old(self).wf(),
        ensures
            final(self).wf(),
            final(self).calls() == old(self).calls().push(Call::Reset),
            final(self).cached() == Seq::<i32>::empty(),
            final(self).work() == old(self).work(),
            forall|n: nat| #[trigger] final(self).fits(n) == old(self).fits(n),
            forall|n: nat| #[trigger] final(self).refuses(n) == old(self).refuses(n),
            final(self).scoreless() == old(self).scoreless(),
    ;

    /// Run a prefill over `tokens[start..]`, that is resume from `start`.
    fn prefill(&mut self, tokens: &Tokens, start: u32) -> (r: Result<PrefillStats, Error>)
        requires
            old(self).wf(),
            start <= tokens@.len() <= u32::MAX,
        ensures
            final(self).wf(),
            final(self).calls() == old(self).calls().push(Call::Prefill(tokens@, start)),
            match r {
                Ok(stats) => stats.tokens == tokens@.len() - start && final(self).cached() == old(
                    self,
                ).cached() + tokens@.skip(start as int) && final(self).work() == old(self).work()
                    + stats.tokens && !old(self).refuses(
                    (old(self).cached().len() + tokens@.len() - start) as nat,
                ),
                Err(_) => !old(self).fits(
                    (old(self).cached().len() + tokens@.len() - start) as nat,
                ),
            },
            forall|n: nat| #[trigger] final(self).fits(n) == old(self).fits(n),
            forall|n: nat| #[trigger] final(self).refuses(n) == old(self).refuses(n),
            final(self).scoreless() == old(self).scoreless(),
    ;

    /// Decode a single token and append it to the cache.
    fn decode(&mut self, token: i32) -> (r: Result<(), Error>)
        requires
            old(self).wf(),
        ensures
            final(self).wf(),
            final(self).calls() == old(self).calls().push(Call::Decode(token)),
            r is Ok ==> final(self).cached() == old(self).cached().push(token),
            r is Ok ==> !old(self).refuses(old(self).cached().len() + 1),
            r is Ok ==> final(self).work() == old(self).work(),
            r is Ok ==> final(self).trail() == old(self).trail().push(final(self).scores()),
            r is Err ==> !old(self).fits(old(self).cached().len() + 1),
            r is Err ==> final(self).trail() == old(self).trail(),
            forall|n: nat| #[trigger] final(self).fits(n) == old(self).fits(n),
            forall|n: nat| #[trigger] final(self).refuses(n) == old(self).refuses(n),
            final(self).scoreless() == old(self).scoreless(),
    ;

    /// Get current logits.
    fn logits(&self) -> (r: &[u32])
        requires
            self.wf(),
        ensures
            r@ == self.scores(),
            self.scoreless() ==> r@.len() == 0,
    ;

    /// Rewind to `pos` tokens, dropping those behind from the cache. Where it
    /// fails, a rebuild is required.
    fn rewind(&mut self, pos: u32) -> (r: Result<(), Error>)
        requires
            old(self).wf(),
        ensures
            final(self).wf(),
            final(self).calls() == old(self).calls().push(Call::Rewind(pos)),
            r is Ok ==> pos <= old(self).cached().len() && final(self).cached() == old(
                self,
            ).cached().take(pos as int),
            r is Err ==> !old(self).rewindable(pos),
            final(self).work() == old(self).work(),
            forall|n: nat| #[trigger] final(self).fits(n) == old(self).fits(n),
            forall|n: nat| #[trigger] final(self).refuses(n) == old(self).refuses(n),
            final(self).scoreless() == old(self).scoreless(),
    ;

    /// The number of tokens in the cache.
    fn n_tokens(&self) -> (n: u32)
        requires
            self.wf(),
        ensures
            n == self.cached().len(),
    ;

    /// Encode a session payload. The format is opaque to the caller.
    fn save_payload(&self) -> (r: Result<Vec<u8>, Error>)
        requires
            self.wf(),
        ensures
            match r {
                Ok(bytes) => bytes@ == self.payload(),
                Err(_) => !self.savable(),
            },
    ;

    /// Restore a session payload.
    fn load_payload(&mut self, bytes: &[u8]) -> (r: Result<(), Error>)
        requires
            old(self).wf(),
        ensures
            final(self).wf(),
            final(self).calls() == old(self).calls().push(Call::Load(bytes@)),
            r is Ok ==> final(self).restored() == bytes@,
            r is Err ==> !old(self).restorable(bytes@),
    ;

    /// Approximate log-probability ranking.
    fn top_logprobs(&self, k: usize) -> (r: Vec<TokenScore>)
        requires
            self.wf(),
        ensures
            r@ == self.ranked(k),
    ;
}

/// The two backends accept and refuse the same, and compute logits alike.
pub open spec fn same_limits<B: BackendImpl>(a: &B, b: &B) -> bool {
    &&& forall|n: nat| #[trigger] a.fits(n) == b.fits(n)
    &&& forall|n: nat| #[trigger] a.refuses(n) == b.refuses(n)
    &&& a.scoreless() == b.scoreless()
}

/// Build a backend instance. Backends that are not compiled in are unsupported.
pub fn open(backend: Backend, cfg: &Config, ctx_size: u32) -> (r: Result<CpuBackend, Error>)
    ensures
        match r {
            Ok(b) => backend == Backend::Cpu && b.wf() && b.cached() == Seq::<i32>::empty()
                && b.work() == 0 && b.capacity() == ctx_size && b.scores() == Seq::<u32>::empty(),
            Err(Error::Unsupported(what)) => backend != Backend::Cpu && what@ == backend.label(),
            Err(_) => false,
        },
{
    match backend {
        Backend::Metal => Err(Error::Unsupported("metal")),
        Backend::Cuda => Err(Error::Unsupported("cuda")),
        Backend::Cpu => Ok(cpu::open(cfg, ctx_size)),
    }
}

} // verus!
