//! CPU reference backend.
//!
//! It counts tokens against the context size and computes no logits.

use super::{BackendImpl, Call, PrefillStats};
use crate::api::{Backend, Error, TokenScore, Tokens};
use crate::model::Config;
use vstd::prelude::*;
use vstd::string::*;

verus! {

/// The CPU backend.
pub struct CpuBackend {
    logits: Vec<u32>,
    n_tokens: u32,
    ctx_size: u32,
    held: Ghost<Seq<i32>>,
    done: Ghost<nat>,
    seen: Ghost<Seq<Seq<u32>>>,
    loaded: Ghost<Seq<u8>>,
    made: Ghost<Seq<Call>>,
}

impl CpuBackend {
    /// The number of tokens that the cache can hold.
    pub closed spec fn capacity(&self) -> u32 {
        self.ctx_size
    }

    /// Nothing but the record of calls differs from another state.
    pub open spec fn unchanged(&self, other: &CpuBackend) -> bool {
        &&& self.cached() == other.cached()
        &&& self.scores() == other.scores()
        &&& self.work() == other.work()
        &&& self.trail() == other.trail()
        &&& self.restored() == other.restored()
        &&& self.capacity() == other.capacity()
    }
}

/// A CPU backend with an empty cache of `ctx_size` tokens.
pub fn open(cfg: &Config, ctx_size: u32) -> (b: CpuBackend)
    ensures
        b.wf(),
        b.calls() == Seq::<Call>::empty(),
        b.cached() == Seq::<i32>::empty(),
        b.scores() == Seq::<u32>::empty(),
        b.capacity() == ctx_size,
        b.work() == 0,
{
    CpuBackend {
        logits: Vec::new(),
        n_tokens: 0,
        ctx_size,
        held: Ghost(Seq::empty()),
        done: Ghost(0),
        seen: Ghost(Seq::empty()),
        loaded: Ghost(Seq::empty()),
        made: Ghost(Seq::empty()),
    }
}

impl BackendImpl for CpuBackend {
    closed spec fn wf(&self) -> bool {
        self.n_tokens == self.held@.len() && self.logits@.len() == 0
    }

    closed spec fn cached(&self) -> Seq<i32> {
        self.held@
    }

    closed spec fn scores(&self) -> Seq<u32> {
        self.logits@
    }

    closed spec fn work(&self) -> nat {
        self.done@
    }

    closed spec fn calls(&self) -> Seq<Call> {
        self.made@
    }

    closed spec fn trail(&self) -> Seq<Seq<u32>> {
        self.seen@
    }

    open spec fn fits(&self, n: nat) -> bool {
        n <= self.capacity()
    }

    open spec fn refuses(&self, n: nat) -> bool {
        n > self.capacity()
    }

    open spec fn scoreless(&self) -> bool {
        true
    }

    open spec fn rewindable(&self, pos: u32) -> bool {
        pos <= self.cached().len()
    }

    open spec fn kind(&self) -> Backend {
        Backend::Cpu
    }

    open spec fn payload(&self) -> Seq<u8> {
        seq![]
    }

    open spec fn savable(&self) -> bool {
        true
    }

    open spec fn restorable(&self, bytes: Seq<u8>) -> bool {
        true
    }

    closed spec fn restored(&self) -> Seq<u8> {
        self.loaded@
    }

    open spec fn ranked(&self, k: usize) -> Seq<TokenScore> {
        seq![]
    }

    fn name(&self) -> (b: Backend) {
        Backend::Cpu
    }

    fn reset(&mut self)
        ensures
            final(self).scores() == Seq::<u32>::empty(),
            final(self).capacity() == old(self).capacity(),
    {
        self.n_tokens = 0;
        self.logits.clear();
        self.held = Ghost(Seq::empty());
        self.made = Ghost(self.made@.push(Call::Reset));
    }

    /// It fails exactly if the tokens do not fit in the context, and then
    /// changes nothing.
    fn prefill(&mut self, tokens: &Tokens, start: u32) -> (r: Result<PrefillStats, Error>)
        ensures
            r is Ok <==> old(self).cached().len() + (tokens@.len() - start) <= old(
                self,
            ).capacity(),
            r is Err ==> final(self).unchanged(old(self)) && r->Err_0.text()
                == "cpu backend: context overflow"@,
            final(self).scores() == old(self).scores(),
            final(self).capacity() == old(self).capacity(),
    {
        let n: u32 = tokens.len() as u32 - start;
        self.made = Ghost(self.made@.push(Call::Prefill(tokens@, start)));
        if self.n_tokens as u64 + n as u64 > self.ctx_size as u64 {
            return Err(Error::Other(String::from_str("cpu backend: context overflow")));
        }
        self.n_tokens = self.n_tokens + n;
        self.held = Ghost(self.held@ + tokens@.skip(start as int));
        self.done = Ghost(self.done@ + n as nat);
        Ok(PrefillStats { tokens: n, elapsed_ms: 0 })
    }

    /// It fails exactly if the context is full, and then changes nothing.
    fn decode(&mut self, token: i32) -> (r: Result<(), Error>)
        ensures
            r is Ok <==> old(self).cached().len() < old(self).capacity(),
            r is Err ==> final(self).unchanged(old(self)) && r->Err_0.text()
                == "cpu backend: context full"@,
            final(self).scores() == old(self).scores(),
            final(self).capacity() == old(self).capacity(),
    {
        self.made = Ghost(self.made@.push(Call::Decode(token)));
        if self.n_tokens >= self.ctx_size {
            return Err(Error::Other(String::from_str("cpu backend: context full")));
        }
        self.n_tokens = self.n_tokens + 1;
        self.held = Ghost(self.held@.push(token));
        self.seen = Ghost(self.seen@.push(self.logits@));
        Ok(())
    }

    fn logits(&self) -> (r: &[u32]) {
        self.logits.as_slice()
    }

    /// It fails exactly if there are fewer than `pos` tokens, and then changes
    /// nothing.
    fn rewind(&mut self, pos: u32) -> (r: Result<(), Error>)
        ensures
            r is Ok <==> pos <= old(self).cached().len(),
            r is Err ==> final(self).unchanged(old(self)) && r->Err_0.text() == "rewind past end"@,
            final(self).scores() == old(self).scores(),
            final(self).capacity() == old(self).capacity(),
    {
        self.made = Ghost(self.made@.push(Call::Rewind(pos)));
        if pos > self.n_tokens {
            return Err(Error::Other(String::from_str("rewind past end")));
        }
        self.n_tokens = pos;
        self.held = Ghost(self.held@.take(pos as int));
        Ok(())
    }

    fn n_tokens(&self) -> (n: u32) {
        self.n_tokens
    }

    /// There is nothing to save.
    fn save_payload(&self) -> (r: Result<Vec<u8>, Error>) {
        Ok(Vec::new())
    }

    /// There is nothing to restore.
    fn load_payload(&mut self, bytes: &[u8]) -> (r: Result<(), Error>)
        ensures
            final(self).cached() == old(self).cached(),
            final(self).scores() == old(self).scores(),
            final(self).capacity() == old(self).capacity(),
    {
        self.loaded = Ghost(bytes@);
        self.made = Ghost(self.made@.push(Call::Load(bytes@)));
        Ok(())
    }

    fn top_logprobs(&self, k: usize) -> (r: Vec<TokenScore>) {
        Vec::new()
    }
}

} // verus!
