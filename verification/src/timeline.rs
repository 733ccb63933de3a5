//! A backend and the sink that hears of its progress.
//!
//! A timeline makes every call on the two and records it, in the order in which
//! the calls are made, so that contracts can speak of that order.

use crate::api::{Error, ProgressSink, Tokens};
use crate::backend::{same_limits, BackendImpl, Call, PrefillStats};
use vstd::prelude::*;

verus! {

/// Something that happened on a timeline.
pub ghost enum Event {
    /// A report to the sink: event, current and total.
    Report(Seq<char>, i32, i32),
    /// A call on the backend, whether or not it succeeded.
    Backend(Call),
}

/// The calls on the backend among some events.
pub open spec fn calls_of(trace: Seq<Event>) -> Seq<Call>
    decreases trace.len(),
{
    if trace.len() == 0 {
        seq![]
    } else {
        match trace.last() {
            Event::Backend(c) => calls_of(trace.drop_last()).push(c),
            Event::Report(_, _, _) => calls_of(trace.drop_last()),
        }
    }
}

/// A further call comes last among the calls.
proof fn lemma_recorded(before: Seq<Call>, trace: Seq<Event>, c: Call)
    ensures
        before + calls_of(trace.push(Event::Backend(c))) == (before + calls_of(trace)).push(c),
{
    assert(trace.push(Event::Backend(c)).drop_last() =~= trace);
    assert(before + calls_of(trace.push(Event::Backend(c))) =~= (before + calls_of(trace)).push(c));
}

/// A backend, an optional sink, and what happened on them. The fields are only
/// reached through the methods below, each of which makes one call and records
/// it.
pub struct Timeline<B: BackendImpl, P: ProgressSink> {
    backend: B,
    progress: Option<P>,
    trace: Ghost<Seq<Event>>,
    before: Ghost<Seq<Call>>,
}

impl<B: BackendImpl, P: ProgressSink> Timeline<B, P> {
    /// The backend as it stands.
    pub closed spec fn live(&self) -> B {
        self.backend
    }

    /// The sink, where there is one.
    pub closed spec fn listener(&self) -> Option<P> {
        self.progress
    }

    /// What happened since the timeline was made.
    pub closed spec fn trace(&self) -> Seq<Event> {
        self.trace@
    }

    /// The calls that the backend had seen before.
    pub closed spec fn earlier(&self) -> Seq<Call> {
        self.before@
    }

    /// The backend is in a proper state, and has seen the recorded calls and no
    /// others.
    pub open spec fn wf(&self) -> bool {
        &&& self.live().wf()
        &&& self.live().calls() == self.earlier() + calls_of(self.trace())
    }

    /// A timeline on which nothing has happened.
    pub fn new(backend: B) -> (r: Self)
        requires
            backend.wf(),
        ensures
            r.wf(),
            r.live() == backend,
            r.listener() is None,
            r.trace() == Seq::<Event>::empty(),
    {
        let ghost before = backend.calls();
        let r: Self = Timeline {
            backend,
            progress: None,
            trace: Ghost(Seq::empty()),
            before: Ghost(before),
        };
        assert(before + calls_of(r.trace()) =~= before);
        r
    }

    pub fn set_progress(&mut self, p: P)
        ensures
            final(self).listener() == Some(p),
            final(self).live() == old(self).live(),
            final(self).trace() == old(self).trace(),
            final(self).earlier() == old(self).earlier(),
    {
        self.progress = Some(p);
    }

    /// The backend, to look at.
    pub fn backend(&self) -> (b: &B)
        ensures
            *b == self.live(),
    {
        &self.backend
    }

    /// The sink, to look at.
    pub fn progress(&self) -> (p: Option<&P>)
        ensures
            match p {
                Some(p) => self.listener() == Some(*p),
                None => self.listener() is None,
            },
    {
        match &self.progress {
            Some(p) => Some(p),
            None => None,
        }
    }

    /// Report to the sink. Without one nothing happens.
    pub fn report(&mut self, event: &str, current: i32, total: i32)
        requires
            old(self).wf(),
        ensures
            final(self).wf(),
            final(self).live() == old(self).live(),
            final(self).earlier() == old(self).earlier(),
            match old(self).listener() {
                Some(p) => final(self).listener() is Some && final(self).listener()->0.reports()
                    == p.reports().push((event@, current, total)) && final(self).trace() == old(
                    self,
                ).trace().push(Event::Report(event@, current, total)),
                None => *final(self) == *old(self),
            },
    {
        match &mut self.progress {
            Some(p) => {
                p.report(event, current, total);
                self.trace = Ghost(self.trace@.push(Event::Report(event@, current, total)));
            },
            None => {},
        }
        proof {
            if old(self).progress is Some {
                assert(self.trace@.drop_last() =~= old(self).trace@);
            }
        }
    }

    /// Only the backend changed, by a recorded call.
    pub open spec fn called(&self, before: &Self, c: Call) -> bool {
        &&& self.wf()
        &&& self.listener() == before.listener()
        &&& self.earlier() == before.earlier()
        &&& self.trace() == before.trace().push(Event::Backend(c))
    }

    /// Empty the cache.
    pub fn reset(&mut self)
        requires
            old(self).wf(),
        ensures
            final(self).called(old(self), Call::Reset),
            final(self).live().cached() == Seq::<i32>::empty(),
            final(self).live().work() == old(self).live().work(),
            same_limits(&final(self).live(), &old(self).live()),
    {
        self.backend.reset();
        proof {
            lemma_recorded(self.before@, self.trace@, Call::Reset);
        }
        self.trace = Ghost(self.trace@.push(Event::Backend(Call::Reset)));
    }

    /// Prefill `tokens[start..]`.
    pub fn prefill(&mut self, tokens: &Tokens, start: u32) -> (r: Result<PrefillStats, Error>)
        requires
            old(self).wf(),
            start <= tokens@.len() <= u32::MAX,
        ensures
            final(self).called(old(self), Call::Prefill(tokens@, start)),
            ({
                let total = (old(self).live().cached().len() + tokens@.len() - start) as nat;
                match r {
                    Ok(stats) => stats.tokens == tokens@.len() - start
                        && final(self).live().cached() == old(self).live().cached()
                        + tokens@.skip(start as int) && final(self).live().work() == old(
                        self,
                    ).live().work() + stats.tokens && !old(self).live().refuses(total),
                    Err(_) => !old(self).live().fits(total),
                }
            }),
            same_limits(&final(self).live(), &old(self).live()),
    {
        let r: Result<PrefillStats, Error> = self.backend.prefill(tokens, start);
        proof {
            lemma_recorded(self.before@, self.trace@, Call::Prefill(tokens@, start));
        }
        self.trace = Ghost(self.trace@.push(Event::Backend(Call::Prefill(tokens@, start))));
        r
    }

    /// Decode a token.
    pub fn decode(&mut self, token: i32) -> (r: Result<(), Error>)
        requires
            old(self).wf(),
        ensures
            final(self).called(old(self), Call::Decode(token)),
            match r {
                Ok(_) => {
                    &&& final(self).live().cached() == old(self).live().cached().push(token)
                    &&& !old(self).live().refuses(old(self).live().cached().len() + 1)
                    &&& final(self).live().work() == old(self).live().work()
                    &&& final(self).live().trail() == old(self).live().trail().push(
                        final(self).live().scores(),
                    )
                },
                Err(_) => {
                    &&& !old(self).live().fits(old(self).live().cached().len() + 1)
                    &&& final(self).live().trail() == old(self).live().trail()
                },
            },
            same_limits(&final(self).live(), &old(self).live()),
    {
        let r: Result<(), Error> = self.backend.decode(token);
        proof {
            lemma_recorded(self.before@, self.trace@, Call::Decode(token));
        }
        self.trace = Ghost(self.trace@.push(Event::Backend(Call::Decode(token))));
        r
    }

    /// Drop the tokens behind the first `pos` from the cache.
    pub fn rewind(&mut self, pos: u32) -> (r: Result<(), Error>)
        requires
            old(self).wf(),
        ensures
            final(self).called(old(self), Call::Rewind(pos)),
            match r {
                Ok(_) => pos <= old(self).live().cached().len() && final(self).live().cached()
                    == old(self).live().cached().take(pos as int),
                Err(_) => !old(self).live().rewindable(pos),
            },
            final(self).live().work() == old(self).live().work(),
            same_limits(&final(self).live(), &old(self).live()),
    {
        let r: Result<(), Error> = self.backend.rewind(pos);
        proof {
            lemma_recorded(self.before@, self.trace@, Call::Rewind(pos));
        }
        self.trace = Ghost(self.trace@.push(Event::Backend(Call::Rewind(pos))));
        r
    }

    /// Restore a payload.
    pub fn load_payload(&mut self, bytes: &[u8]) -> (r: Result<(), Error>)
        requires
            old(self).wf(),
        ensures
            final(self).called(old(self), Call::Load(bytes@)),
            r is Ok ==> final(self).live().restored() == bytes@,
            r is Err ==> !old(self).live().restorable(bytes@),
    {
        let r: Result<(), Error> = self.backend.load_payload(bytes);
        proof {
            lemma_recorded(self.before@, self.trace@, Call::Load(bytes@));
        }
        self.trace = Ghost(self.trace@.push(Event::Backend(Call::Load(bytes@))));
        r
    }
}

} // verus!
