//! Session.
//!
//! A session owns the live key/value cache of one inference timeline. The caller
//! provides a full prompt and asks the session to sync: the session finds how
//! much of its cache still matches the prompt, keeps that, throws away the rest,
//! and prefills only the suffix.

use crate::api::{Error, ProgressSink, SessionRewriteResult, TokenScore, Tokens};
use crate::backend::{same_limits, BackendImpl, Call, PrefillStats};
use crate::bytes::{to_signed_32, wrap_to_i32, wrapped_i32};
use crate::sampler::{
    argmax, argmax_excluding, argmax_of, eligible, is_argmax, is_argmax_excluding,
};
use crate::timeline::{Event, Timeline};
use crate::tokens::{common_prefix_len, is_common_prefix_len};
use vstd::prelude::*;
use vstd::slice::{slice_subrange, slice_to_vec};
use vstd::string::*;

verus! {

pub struct Session<B: BackendImpl, P: ProgressSink> {
    /// The backend and the progress sink.
    pub line: Timeline<B, P>,
    pub tokens: Tokens,
    pub ctx_size: u32,
}

/// Whether the live cache cannot be rewritten: it does not hold the common part,
/// or the new sequence does not.
pub open spec fn needs_rebuild(live_len: i32, canonical_len: i32, common: i32) -> bool {
    live_len < common || canonical_len < common
}

/// The reports of an optional sink.
pub open spec fn reports_of<P: ProgressSink>(p: Option<P>) -> Option<Seq<(Seq<char>, i32, i32)>> {
    match p {
        Some(p) => Some(p.reports()),
        None => None,
    }
}

/// A further report, where there is a sink.
pub open spec fn reported(
    old_reports: Option<Seq<(Seq<char>, i32, i32)>>,
    event: Seq<char>,
    current: i32,
    total: i32,
) -> Option<Seq<(Seq<char>, i32, i32)>> {
    match old_reports {
        Some(s) => Some(s.push((event, current, total))),
        None => None,
    }
}

impl<B: BackendImpl, P: ProgressSink> Session<B, P> {
    pub open spec fn wf(&self) -> bool {
        self.line.wf()
    }

    /// The backend as it stands.
    pub open spec fn live(&self) -> B {
        self.line.live()
    }

    /// The progress sink, where there is one.
    pub open spec fn listener(&self) -> Option<P> {
        self.line.listener()
    }

    /// The reports and the calls on the backend so far, in order.
    pub open spec fn trace(&self) -> Seq<Event> {
        self.line.trace()
    }

    /// The cache holds exactly the tokens of the session.
    pub open spec fn in_sync(&self) -> bool {
        self.live().cached() == self.tokens@
    }

    /// A session without tokens on a backend.
    pub fn new(backend: B, ctx_size: u32) -> (s: Self)
        requires
            backend.wf(),
        ensures
            s.wf(),
            s.live() == backend,
            s.tokens@ == Seq::<i32>::empty(),
            s.ctx_size == ctx_size,
            s.listener() is None,
            s.trace() == Seq::<Event>::empty(),
    {
        Session { line: Timeline::new(backend), tokens: Tokens::new(), ctx_size }
    }

    pub fn set_progress(&mut self, p: P)
        ensures
            final(self).listener() == Some(p),
            final(self).live() == old(self).live(),
            final(self).trace() == old(self).trace(),
            old(self).wf() ==> final(self).wf(),
            final(self).tokens == old(self).tokens,
            final(self).ctx_size == old(self).ctx_size,
    {
        self.line.set_progress(p);
    }

    /// The number of tokens in the cache.
    pub fn pos(&self) -> (n: u32)
        requires
            self.wf(),
        ensures
            n == self.live().cached().len(),
    {
        self.line.backend().n_tokens()
    }

    pub fn ctx(&self) -> (n: u32)
        ensures
            n == self.ctx_size,
    {
        self.ctx_size
    }

    pub fn tokens(&self) -> (t: &Tokens)
        ensures
            *t == self.tokens,
    {
        &self.tokens
    }

    /// The backend, to look at.
    pub fn backend(&self) -> (b: &B)
        ensures
            *b == self.live(),
    {
        self.line.backend()
    }

    /// The progress sink, to look at.
    pub fn progress(&self) -> (p: Option<&P>)
        ensures
            match p {
                Some(p) => self.listener() == Some(*p),
                None => self.listener() is None,
            },
    {
        self.line.progress()
    }

    /// The current logits.
    pub fn logits(&self) -> (r: &[u32])
        requires
            self.wf(),
        ensures
            r@ == self.live().scores(),
            self.live().scoreless() ==> r@.len() == 0,
    {
        self.line.backend().logits()
    }

    /// Forget everything.
    pub fn invalidate(&mut self)
        requires
            old(self).wf(),
        ensures
            final(self).wf(),
            final(self).in_sync(),
            final(self).tokens@ == Seq::<i32>::empty(),
            final(self).live().work() == old(self).live().work(),
            same_limits(&final(self).live(), &old(self).live()),
            final(self).ctx_size == old(self).ctx_size,
            final(self).listener() == old(self).listener(),
            final(self).trace() == old(self).trace().push(Event::Backend(Call::Reset)),
    {
        self.line.reset();
        self.tokens.clear();
    }

    /// The length of the longest prefix of `prompt` that is already committed.
    pub fn common_prefix(&self, prompt: &Tokens) -> (n: usize)
        ensures
            is_common_prefix_len(self.tokens@, prompt@, n as int),
    {
        common_prefix_len(self.tokens.as_slice(), prompt.as_slice())
    }

    /// Whether the live cache cannot be rewritten at this gap. Anything that
    /// would splice tokens into the middle of the cache forces a full rebuild.
    pub fn rewrite_requires_rebuild(live_len: i32, canonical_len: i32, common: i32) -> (r: bool)
        ensures
            r == needs_rebuild(live_len, canonical_len, common),
    {
        live_len < common || canonical_len < common
    }

    /// Keep the first `common` tokens of the cache and prefill the rest of
    /// `prompt`. A backend that cannot rewind makes a rebuild necessary.
    pub fn rewrite_from_common(&mut self, prompt: &Tokens, common: u32) -> (r: Result<
        SessionRewriteResult,
        Error,
    >)
        requires
            old(self).wf(),
            prompt@.len() <= u32::MAX,
            common <= prompt@.len() || needs_rebuild(
                wrapped_i32(old(self).live().cached().len() as int),
                wrapped_i32(prompt@.len() as int),
                wrapped_i32(common as int),
            ),
        ensures
            final(self).wf(),
            final(self).ctx_size == old(self).ctx_size,
            final(self).listener() == old(self).listener(),
            match r {
                Ok(SessionRewriteResult::Rewritten) => {
                    &&& common <= old(self).live().cached().len()
                    &&& final(self).tokens@ == prompt@
                    &&& final(self).live().cached() == old(self).live().cached().take(
                        common as int,
                    ) + prompt@.skip(common as int)
                    &&& final(self).live().work() == old(self).live().work() + prompt@.len()
                        - common
                    &&& common < prompt@.len() ==> !old(self).live().refuses(prompt@.len())
                    &&& final(self).trace() == old(self).trace() + reuse_events(
                        prompt@,
                        common as int,
                    )
                },
                Ok(SessionRewriteResult::RebuildNeeded) => {
                    &&& final(self).tokens == old(self).tokens
                    &&& final(self).live().work() == old(self).live().work()
                    &&& final(self).trace() == old(self).trace() || final(self).trace() == old(
                        self,
                    ).trace().push(Event::Backend(Call::Rewind(common)))
                },
                Err(_) => {
                    &&& final(self).tokens@ == prompt@.take(common as int)
                    &&& common < prompt@.len()
                    &&& !old(self).live().fits(prompt@.len())
                    &&& final(self).trace() == old(self).trace() + reuse_events(
                        prompt@,
                        common as int,
                    )
                },
            },
            same_limits(&final(self).live(), &old(self).live()),
            r == Ok::<SessionRewriteResult, Error>(SessionRewriteResult::RebuildNeeded)
                ==> needs_rebuild(
                wrapped_i32(old(self).live().cached().len() as int),
                wrapped_i32(prompt@.len() as int),
                wrapped_i32(common as int),
            ) || !old(self).live().rewindable(common),
            needs_rebuild(
                wrapped_i32(old(self).live().cached().len() as int),
                wrapped_i32(prompt@.len() as int),
                wrapped_i32(common as int),
            ) ==> r == Ok::<SessionRewriteResult, Error>(SessionRewriteResult::RebuildNeeded)
                && *final(self) == *old(self),
            r == Ok::<SessionRewriteResult, Error>(SessionRewriteResult::RebuildNeeded)
                && !needs_rebuild(
                wrapped_i32(old(self).live().cached().len() as int),
                wrapped_i32(prompt@.len() as int),
                wrapped_i32(common as int),
            ) ==> !old(self).live().rewindable(common) && final(self).trace() == old(
                self,
            ).trace().push(Event::Backend(Call::Rewind(common))),
    {
        let live: i32 = to_signed_32(self.line.backend().n_tokens());
        if Self::rewrite_requires_rebuild(live, wrap_to_i32(prompt.len()), to_signed_32(common)) {
            return Ok(SessionRewriteResult::RebuildNeeded);
        }
        match self.line.rewind(common) {
            Ok(()) => {},
            Err(_) => {
                return Ok(SessionRewriteResult::RebuildNeeded);
            },
        }
        self.tokens = Tokens::from_vec(
            slice_to_vec(slice_subrange(prompt.as_slice(), 0, common as usize)),
        );
        assert(self.tokens@ =~= prompt@.take(common as int));
        if prompt.len() as u32 > common {
            match self.line.prefill(prompt, common) {
                Ok(_) => {},
                Err(e) => {
                    assert(self.trace() =~= old(self).trace() + reuse_events(
                        prompt@,
                        common as int,
                    ));
                    return Err(e);
                },
            }
            self.tokens.extend(slice_subrange(prompt.as_slice(), common as usize, prompt.len()));
        }
        assert(self.tokens@ =~= prompt@);
        assert(self.live().cached() =~= old(self).live().cached().take(common as int)
            + prompt@.skip(common as int));
        assert(self.trace() =~= old(self).trace() + reuse_events(prompt@, common as int));
        Ok(SessionRewriteResult::Rewritten)
    }

    /// Synchronize the live state to `prompt`: on success the session holds
    /// exactly the prompt. The sink hears of it first, with the length of the
    /// common prefix. A cache that holds the common prefix is then rewound to it
    /// and prefilled with the suffix only, once; one that does not, or cannot be
    /// rewound, is emptied and prefilled with the whole prompt. It succeeds where
    /// the backend is sure to accept the prompt.
    pub fn sync(&mut self, prompt: &Tokens) -> (r: Result<(), Error>)
        requires
            old(self).wf(),
            prompt@.len() <= u32::MAX,
        ensures
            final(self).wf(),
            final(self).ctx_size == old(self).ctx_size,
            same_limits(&final(self).live(), &old(self).live()),
            exists|common: int, path: SyncPath|
                is_common_prefix_len(old(self).tokens@, prompt@, common) && #[trigger] synced(
                    old(self),
                    final(self),
                    prompt@,
                    common,
                    path,
                    r,
                ),
    {
        let n: usize = self.common_prefix(prompt);
        let common: u32 = n as u32;
        self.line.report("sync", to_signed_32(common), wrap_to_i32(prompt.len()));
        let ghost told = *self;
        let rewritten: SessionRewriteResult = match self.rewrite_from_common(prompt, common) {
            Ok(v) => v,
            Err(e) => {
                proof {
                    assert(self.trace() =~= old(self).trace() + sync_events(
                        old(self).listener() is Some,
                        prompt@,
                        common as int,
                        SyncPath::Reuse,
                    ));
                    assert(synced(
                        old(self),
                        &*self,
                        prompt@,
                        common as int,
                        SyncPath::Reuse,
                        Err(e),
                    ));
                }
                return Err(e);
            },
        };
        match rewritten {
            SessionRewriteResult::Rewritten => {
                proof {
                    if told.in_sync() {
                        assert(self.live().cached() =~= prompt@) by {
                            assert(prompt@ =~= prompt@.take(common as int) + prompt@.skip(
                                common as int,
                            ));
                        }
                    }
                    assert(self.trace() =~= old(self).trace() + sync_events(
                        old(self).listener() is Some,
                        prompt@,
                        common as int,
                        SyncPath::Reuse,
                    ));
                    assert(synced(
                        old(self),
                        &*self,
                        prompt@,
                        common as int,
                        SyncPath::Reuse,
                        Ok(()),
                    ));
                }
                Ok(())
            },
            SessionRewriteResult::RebuildNeeded => {
                let ghost path = if needs_rebuild(
                    wrapped_i32(old(self).live().cached().len() as int),
                    wrapped_i32(prompt@.len() as int),
                    wrapped_i32(common as int),
                ) {
                    SyncPath::Rebuild
                } else {
                    SyncPath::Retry
                };
                self.invalidate();
                let filled: Result<PrefillStats, Error> = self.line.prefill(prompt, 0);
                proof {
                    assert(prompt@.take(0) =~= Seq::<i32>::empty());
                    assert(Seq::<i32>::empty() + prompt@.skip(0) =~= prompt@);
                    assert(self.trace() =~= old(self).trace() + sync_events(
                        old(self).listener() is Some,
                        prompt@,
                        common as int,
                        path,
                    ));
                }
                match filled {
                    Ok(_) => {},
                    Err(e) => {
                        assert(synced(old(self), &*self, prompt@, common as int, path, Err(e)));
                        return Err(e);
                    },
                }
                self.tokens.copy_from(prompt);
                assert(synced(old(self), &*self, prompt@, common as int, path, Ok(())));
                Ok(())
            },
        }
    }

    /// The greedy choice.
    pub fn argmax(&self) -> (t: i32)
        requires
            self.wf(),
            self.live().scores().len() > 0,
        ensures
            is_argmax(self.live().scores(), argmax_of(self.live().scores())),
            t == wrapped_i32(argmax_of(self.live().scores())),
    {
        argmax(self.logits())
    }

    /// The greedy choice other than an excluded token; `-1` where none may be
    /// chosen.
    pub fn argmax_excluding(&self, excluded: i32) -> (t: i32)
        requires
            self.wf(),
        ensures
            (exists|k: int|
                is_argmax_excluding(self.live().scores(), excluded, k) && t == wrapped_i32(k)) || (
            t == -1 && forall|j: int|
                0 <= j < self.live().scores().len() ==> !eligible(
                    self.live().scores(),
                    excluded,
                    j,
                )),
    {
        argmax_excluding(self.logits(), excluded)
    }

    /// The backend's ranking of the `k` likeliest tokens.
    pub fn top_logprobs(&self, k: usize) -> (r: Vec<TokenScore>)
        requires
            self.wf(),
        ensures
            r@ == self.live().ranked(k),
    {
        self.line.backend().top_logprobs(k)
    }

    /// Decode a token and commit it.
    pub fn eval(&mut self, token: i32) -> (r: Result<(), Error>)
        requires
            old(self).wf(),
        ensures
            final(self).wf(),
            final(self).ctx_size == old(self).ctx_size,
            final(self).listener() == old(self).listener(),
            final(self).trace() == old(self).trace().push(Event::Backend(Call::Decode(token))),
            match r {
                Ok(_) => {
                    &&& final(self).tokens@ == old(self).tokens@.push(token)
                    &&& final(self).live().cached() == old(self).live().cached().push(token)
                    &&& final(self).live().trail() == old(self).live().trail().push(
                        final(self).live().scores(),
                    )
                    &&& old(self).in_sync() ==> final(self).in_sync()
                    &&& !old(self).live().refuses(old(self).live().cached().len() + 1)
                },
                Err(_) => {
                    &&& final(self).tokens == old(self).tokens
                    &&& !old(self).live().fits(old(self).live().cached().len() + 1)
                    &&& final(self).live().trail() == old(self).live().trail()
                },
            },
            same_limits(&final(self).live(), &old(self).live()),
    {
        match self.line.decode(token) {
            Ok(()) => {},
            Err(e) => {
                return Err(e);
            },
        }
        self.tokens.push(token);
        Ok(())
    }

    /// Decode greedily, at most `max_tokens` tokens or until `eos_token`, and
    /// commit every token. There is no draft model, so `first_token` is not
    /// used. A backend without logits is an error, and so is one that refuses a
    /// token.
    pub fn eval_speculative_argmax(
        &mut self,
        first_token: i32,
        max_tokens: i32,
        eos_token: i32,
        accepted: &mut Vec<i32>,
    ) -> (r: Result<i32, Error>)
        requires
            old(self).wf(),
        ensures
            final(self).wf(),
            final(self).ctx_size == old(self).ctx_size,
            final(self).listener() == old(self).listener(),
            final(accepted)@.len() <= if max_tokens < 0 {
                0
            } else {
                max_tokens as int
            },
            forall|i: int|
                0 <= i < final(accepted)@.len() - 1 ==> #[trigger] final(accepted)@[i] != eos_token,
            max_tokens <= 0 ==> r == Ok::<i32, Error>(0),
            max_tokens > 0 && old(self).live().scores().len() > 0 ==> final(accepted)@.len() > 0
                && final(accepted)@[0] == wrapped_i32(argmax_of(old(self).live().scores())),
            match r {
                Ok(n) => {
                    &&& greedy(old(self), final(self), final(accepted)@)
                    &&& n == final(accepted)@.len()
                    &&& final(self).tokens@ == old(self).tokens@ + final(accepted)@
                    &&& final(self).live().cached() == old(self).live().cached()
                        + final(accepted)@
                    &&& n < max_tokens ==> n > 0 && final(accepted)@[n - 1] == eos_token
                },
                Err(e) => run_failed(
                    old(self),
                    final(self),
                    final(accepted)@,
                    max_tokens as int,
                    eos_token,
                    e,
                ),
            },
            final(self).trace() == old(self).trace() + decodes(final(accepted)@),
            same_limits(&final(self).live(), &old(self).live()),
    {
        accepted.clear();
        let mut n: i32 = 0;
        let mut stop: bool = false;
        assert(old(self).tokens@ + accepted@ =~= old(self).tokens@);
        assert(old(self).live().cached() + accepted@ =~= old(self).live().cached());
        assert(old(self).trace() + decodes(accepted@) =~= old(self).trace());
        while n < max_tokens && !stop
            invariant
                self.wf(),
                self.ctx_size == old(self).ctx_size,
                self.listener() == old(self).listener(),
                n == accepted@.len(),
                0 <= n,
                n <= max_tokens || n == 0,
                self.tokens@ == old(self).tokens@ + accepted@,
                self.live().cached() == old(self).live().cached() + accepted@,
                forall|i: int| 0 <= i < n - 1 ==> #[trigger] accepted@[i] != eos_token,
                greedy(old(self), &*self, accepted@),
                self.trace() == old(self).trace() + decodes(accepted@),
                self.live().trail().len() == old(self).live().trail().len() + n,
                n > 0 ==> self.live().scores() == self.live().trail().last(),
                n == 0 ==> self.live() == old(self).live(),
                same_limits(&self.live(), &old(self).live()),
                stop ==> n > 0 && accepted@[n - 1] == eos_token,
                !stop ==> n > 0 ==> accepted@[n - 1] != eos_token,
            decreases max_tokens - n + (if stop { 0int } else { 1int }),
        {
            if self.logits().len() == 0 {
                return Err(Error::Other(String::from_str("no logits to choose from")));
            }
            let t: i32 = self.argmax();
            let ghost before = accepted@;
            let ghost before_eval = *self;
            accepted.push(t);
            let done: Result<(), Error> = self.eval(t);
            assert(self.trace() =~= old(self).trace() + decodes(accepted@));
            match done {
                Ok(()) => {},
                Err(e) => {
                    proof {
                        assert(accepted@.drop_last() =~= before);
                        lemma_greedy_choice(old(self), &before_eval, &*self, before, t);
                    }
                    return Err(e);
                },
            }
            assert(self.tokens@ =~= old(self).tokens@ + accepted@);
            assert(self.live().cached() =~= old(self).live().cached() + accepted@);
            proof {
                lemma_greedy_choice(old(self), &before_eval, &*self, before, t);
            }
            n = n + 1;
            stop = t == eos_token;
        }
        Ok(n)
    }

    /// Drop all tokens behind the first `pos`. Where the backend cannot rewind,
    /// the session's own tokens are cut all the same.
    pub fn rewind(&mut self, pos: u32)
        requires
            old(self).wf(),
        ensures
            final(self).wf(),
            final(self).ctx_size == old(self).ctx_size,
            final(self).listener() == old(self).listener(),
            final(self).trace() == old(self).trace().push(Event::Backend(Call::Rewind(pos))),
            final(self).tokens@ == if pos <= old(self).tokens@.len() {
                old(self).tokens@.take(pos as int)
            } else {
                old(self).tokens@
            },
            old(self).live().rewindable(pos) ==> pos <= old(self).live().cached().len()
                && final(self).live().cached() == old(self).live().cached().take(pos as int),
            old(self).live().rewindable(pos) && old(self).in_sync() ==> final(self).in_sync(),
            same_limits(&final(self).live(), &old(self).live()),
    {
        match self.line.rewind(pos) {
            Ok(()) => {},
            Err(_) => {},
        }
        if (pos as usize) < self.tokens.len() {
            let kept: Vec<i32> = slice_to_vec(
                slice_subrange(self.tokens.as_slice(), 0, pos as usize),
            );
            self.tokens = Tokens::from_vec(kept);
            assert(self.tokens@ =~= old(self).tokens@.take(pos as int));
        } else {
            assert(pos == old(self).tokens@.len() ==> old(self).tokens@.take(pos as int)
                =~= old(self).tokens@);
        }
    }

    /// The backend's payload of the session.
    pub fn payload_bytes(&self) -> (r: Result<Vec<u8>, Error>)
        requires
            self.wf(),
        ensures
            match r {
                Ok(bytes) => bytes@ == self.live().payload(),
                Err(_) => !self.live().savable(),
            },
    {
        self.line.backend().save_payload()
    }

    /// Restore a payload of the backend.
    pub fn load_payload(&mut self, bytes: &[u8]) -> (r: Result<(), Error>)
        requires
            old(self).wf(),
        ensures
            final(self).wf(),
            r is Ok ==> final(self).live().restored() == bytes@,
            r is Err ==> !old(self).live().restorable(bytes@),
            final(self).trace() == old(self).trace().push(Event::Backend(Call::Load(bytes@))),
            final(self).tokens == old(self).tokens,
            final(self).ctx_size == old(self).ctx_size,
            final(self).listener() == old(self).listener(),
    {
        self.line.load_payload(bytes)
    }
}

/// The logits that choice number `i` of a run of decodes is made from: those at
/// the start, then those after each decode.
pub open spec fn logits_at(
    start: Seq<u32>,
    trail: Seq<Seq<u32>>,
    base: int,
    i: int,
) -> Seq<u32> {
    if i == 0 {
        start
    } else {
        trail[base + i - 1]
    }
}

/// There are logits, and the token is the greedy choice from them.
pub open spec fn is_greedy_choice(logits: Seq<u32>, t: i32) -> bool {
    logits.len() > 0 && t == wrapped_i32(argmax_of(logits))
}

/// The calls that decode some tokens.
pub open spec fn decodes(tokens: Seq<i32>) -> Seq<Event> {
    tokens.map_values(|t: i32| Event::Backend(Call::Decode(t)))
}

/// Each token is the greedy choice from the logits current at its turn.
pub open spec fn greedy<B: BackendImpl, P: ProgressSink>(
    before: &Session<B, P>,
    after: &Session<B, P>,
    tokens: Seq<i32>,
) -> bool {
    forall|i: int|
        0 <= i < tokens.len() ==> is_greedy_choice(
            logits_at(
                before.live().scores(),
                after.live().trail(),
                before.live().trail().len() as int,
                i,
            ),
            #[trigger] tokens[i],
        )
}

/// One more choice extends a run of greedy choices, whether it is then decoded or
/// not: what was decoded before stays on the trail.
pub proof fn lemma_greedy_choice<B: BackendImpl, P: ProgressSink>(
    start: &Session<B, P>,
    before: &Session<B, P>,
    after: &Session<B, P>,
    tokens: Seq<i32>,
    t: i32,
)
    requires
        greedy(start, before, tokens),
        before.live().trail().len() == start.live().trail().len() + tokens.len(),
        after.live().trail() == before.live().trail() || after.live().trail()
            == before.live().trail().push(after.live().scores()),
        tokens.len() == 0 ==> before.live().scores() == start.live().scores(),
        tokens.len() > 0 ==> before.live().scores() == before.live().trail().last(),
        is_greedy_choice(before.live().scores(), t),
    ensures
        greedy(start, after, tokens.push(t)),
{
    let base = start.live().trail().len() as int;
    let all = tokens.push(t);
    assert forall|i: int| 0 <= i < all.len() implies is_greedy_choice(
        logits_at(start.live().scores(), after.live().trail(), base, i),
        #[trigger] all[i],
    ) by {
        if i < tokens.len() {
            assert(tokens[i] == all[i]);
            if i > 0 {
                assert(after.live().trail()[base + i - 1] == before.live().trail()[base + i - 1]);
            }
        } else if i > 0 {
            assert(after.live().trail()[base + i - 1] == before.live().trail().last());
        }
    }
}

/// The text of the error for a backend without logits.
pub open spec fn no_logits_text() -> Seq<char> {
    "no logits to choose from"@
}

/// What holds after a run of at most `limit` decodes up to the token `end` that
/// broke off with an error: further choices were due and there were no logits to
/// choose from, or the backend refused the last token chosen.
pub open spec fn run_failed<B: BackendImpl, P: ProgressSink>(
    before: &Session<B, P>,
    after: &Session<B, P>,
    tokens: Seq<i32>,
    limit: int,
    end: i32,
    e: Error,
) -> bool {
    &&& greedy(before, after, tokens)
    &&& {
        ||| {
            &&& after.live().scores().len() == 0
            &&& e.text() == no_logits_text()
            &&& tokens.len() < limit
            &&& tokens.len() > 0 ==> tokens.last() != end
            &&& after.tokens@ == before.tokens@ + tokens
            &&& after.live().cached() == before.live().cached() + tokens
        }
        ||| {
            &&& 0 < tokens.len() <= limit
            &&& after.tokens@ == before.tokens@ + tokens.drop_last()
            &&& !before.live().fits(before.live().cached().len() + tokens.len())
        }
    }
}

/// What a session does with its backend to synchronize.
pub ghost enum SyncPath {
    /// Rewind to the common prefix and prefill what is left of the prompt.
    Reuse,
    /// Empty the cache and prefill the prompt, because the cache cannot be
    /// rewritten.
    Rebuild,
    /// The same, after a rewind that failed.
    Retry,
}

/// The calls that rewrite a cache from the common prefix on.
pub open spec fn reuse_events(prompt: Seq<i32>, common: int) -> Seq<Event> {
    let rewind = Event::Backend(Call::Rewind(common as u32));
    if common < prompt.len() {
        seq![rewind, Event::Backend(Call::Prefill(prompt, common as u32))]
    } else {
        seq![rewind]
    }
}

/// Everything that a sync does, in order: the report, where there is a sink, then
/// the calls on the backend.
pub open spec fn sync_events(
    sink: bool,
    prompt: Seq<i32>,
    common: int,
    path: SyncPath,
) -> Seq<Event> {
    let report = if sink {
        seq![Event::Report("sync"@, wrapped_i32(common), wrapped_i32(prompt.len() as int))]
    } else {
        seq![]
    };
    let rebuild = seq![Event::Backend(Call::Reset), Event::Backend(Call::Prefill(prompt, 0))];
    report + match path {
        SyncPath::Reuse => reuse_events(prompt, common),
        SyncPath::Rebuild => rebuild,
        SyncPath::Retry => seq![Event::Backend(Call::Rewind(common as u32))] + rebuild,
    }
}

/// What a sync does, given the length of the common prefix and the path that it
/// takes.
pub open spec fn synced<B: BackendImpl, P: ProgressSink>(
    before: &Session<B, P>,
    after: &Session<B, P>,
    prompt: Seq<i32>,
    common: int,
    path: SyncPath,
    r: Result<(), Error>,
) -> bool {
    &&& after.trace() == before.trace() + sync_events(
        before.listener() is Some,
        prompt,
        common,
        path,
    )
    &&& reports_of(after.listener()) == reported(
        reports_of(before.listener()),
        "sync"@,
        wrapped_i32(common),
        wrapped_i32(prompt.len() as int),
    )
    &&& path == SyncPath::Rebuild <==> needs_rebuild(
        wrapped_i32(before.live().cached().len() as int),
        wrapped_i32(prompt.len() as int),
        wrapped_i32(common),
    )
    &&& path == SyncPath::Retry ==> !before.live().rewindable(common as u32)
    &&& r is Ok ==> {
        &&& after.tokens@ == prompt
        &&& before.in_sync() ==> after.in_sync()
        &&& common < prompt.len() ==> !before.live().refuses(prompt.len())
        &&& if path == SyncPath::Reuse {
            &&& common <= before.live().cached().len()
            &&& after.live().cached() == before.live().cached().take(common) + prompt.skip(common)
            &&& after.live().work() == before.live().work() + prompt.len() - common
        } else {
            &&& after.in_sync()
            &&& after.live().work() == before.live().work() + prompt.len()
        }
    }
    &&& r is Err ==> {
        &&& after.tokens@ == if path == SyncPath::Reuse {
            prompt.take(common)
        } else {
            seq![]
        }
        &&& !before.live().fits(prompt.len())
    }
}

/// Where the cache is as long as the session's tokens and can be rewound, a sync
/// reports, rewinds to the common prefix, and prefills the rest of the prompt in
/// one call; the shared prefix is never prefilled again.
pub proof fn lemma_suffix_only<B: BackendImpl, P: ProgressSink>(
    before: &Session<B, P>,
    after: &Session<B, P>,
    prompt: Seq<i32>,
    common: int,
    path: SyncPath,
    r: Result<(), Error>,
)
    requires
        is_common_prefix_len(before.tokens@, prompt, common),
        synced(before, after, prompt, common, path, r),
        before.live().cached().len() == before.tokens@.len(),
        before.live().rewindable(common as u32),
        before.tokens@.len() <= i32::MAX,
        prompt.len() <= i32::MAX,
    ensures
        path == SyncPath::Reuse,
        after.trace() == before.trace() + (if before.listener() is Some {
            seq![Event::Report("sync"@, common as i32, prompt.len() as i32)]
        } else {
            seq![]
        }) + reuse_events(prompt, common),
        r is Ok ==> after.tokens@ == prompt && after.live().work() == before.live().work()
            + prompt.len() - common,
{
    let report: Seq<Event> = if before.listener() is Some {
        seq![Event::Report("sync"@, common as i32, prompt.len() as i32)]
    } else {
        seq![]
    };
    assert(before.trace() + (report + reuse_events(prompt, common)) =~= before.trace() + report
        + reuse_events(prompt, common));
}

/// A cache that is shorter than the common prefix, or a prompt that is, cannot be
/// rewritten, and any other can, for lengths that fit in 32 bits with a sign.
pub proof fn lemma_needs_rebuild(live: int, prompt: int, common: int)
    requires
        0 <= live <= i32::MAX,
        0 <= prompt <= i32::MAX,
        0 <= common <= i32::MAX,
    ensures
        needs_rebuild(wrapped_i32(live), wrapped_i32(prompt), wrapped_i32(common)) <==> live < common
            || prompt < common,
{
}

/// Whatever a sync does, every token of the prompt that is not in the rewound cache is
/// prefilled exactly once: the last call is the only prefill, and it is of this
/// prompt.
pub proof fn lemma_sync_prefills_once(sink: bool, prompt: Seq<i32>, common: int, path: SyncPath)
    requires
        0 <= common <= prompt.len() <= u32::MAX,
    ensures
        ({
            let events = sync_events(sink, prompt, common, path);
            &&& forall|i: int|
                0 <= i < events.len() - 1 ==> match #[trigger] events[i] {
                    Event::Backend(Call::Prefill(_, _)) => false,
                    _ => true,
                }
            &&& path == SyncPath::Reuse && common < prompt.len() ==> events.last()
                == Event::Backend(Call::Prefill(prompt, common as u32))
            &&& path != SyncPath::Reuse ==> events.last() == Event::Backend(
                Call::Prefill(prompt, 0),
            ) && events[events.len() - 2] == Event::Backend(Call::Reset)
            &&& sink ==> events[0] == Event::Report(
                "sync"@,
                wrapped_i32(common),
                wrapped_i32(prompt.len() as int),
            )
        }),
{
}

} // verus!
