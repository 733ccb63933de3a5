//! Decisions of the command line program.

use crate::api::{Backend, Error, ProgressSink, ThinkMode};
use crate::backend::{same_limits, BackendImpl};
use crate::bytes::append_bytes;
use crate::session::{
    decodes, greedy, is_greedy_choice, lemma_greedy_choice, logits_at, no_logits_text, Session,
};
use crate::text::{lowered, trim, trimmed};
use crate::think::{mode_of, parse_mode};
use crate::tokenizer::Tokenizer;
use vstd::prelude::*;
use vstd::string::*;

verus! {

/// Why the options cannot be used.
#[derive(Debug)]
pub enum OptionError {
    /// A name that no backend has.
    UnknownBackend(String),
    InvalidThink,
}

impl OptionError {
    /// The text that the error is shown with.
    pub open spec fn text(&self) -> Seq<char> {
        match self {
            OptionError::UnknownBackend(s) => "unknown backend `"@ + s@ + "`"@,
            OptionError::InvalidThink => "invalid --think value"@,
        }
    }

    /// The text that the error is shown with.
    pub fn message(&self) -> (s: String)
        ensures
            s@ == self.text(),
    {
        match self {
            OptionError::UnknownBackend(name) => {
                let mut s: String = String::from_str("unknown backend `");
                s.append(name.as_str());
                s.append("`");
                s
            },
            OptionError::InvalidThink => String::from_str("invalid --think value"),
        }
    }
}

/// A name that stands for a backend.
pub open spec fn names_backend(s: Seq<char>, b: Backend) -> bool {
    lowered(s) == b.label()
}

/// The backend and the think mode that were asked for. The backend is looked at
/// first.
pub fn parse_options(backend: Option<&str>, think: &str) -> (r: Result<
    (Option<Backend>, ThinkMode),
    OptionError,
>)
    ensures
        match r {
            Ok((b, mode)) => {
                &&& mode_of(lowered(trimmed(think@))) == Some(mode)
                &&& match backend {
                    Some(s) => b is Some && names_backend(s@, b->0),
                    None => b is None,
                }
            },
            Err(OptionError::UnknownBackend(name)) => backend is Some && name@ == backend->0@
                && forall|b: Backend| !#[trigger] names_backend(name@, b),
            Err(OptionError::InvalidThink) => {
                &&& mode_of(lowered(trimmed(think@))) is None
                &&& backend is Some ==> exists|b: Backend| #[trigger] names_backend(backend->0@, b)
            },
        },
{
    let chosen: Option<Backend> = match backend {
        Some(s) => match Backend::parse(s) {
            Some(b) => {
                assert(names_backend(s@, b));
                Some(b)
            },
            None => {
                return Err(OptionError::UnknownBackend(s.to_owned()));
            },
        },
        None => None,
    };
    match parse_mode(think) {
        Some(mode) => Ok((chosen, mode)),
        None => Err(OptionError::InvalidThink),
    }
}

/// What the program does once the model is open.
#[derive(Debug, Clone, Copy, PartialEq, Eq, Structural)]
pub enum Task {
    /// Tokenize standard input and list the tokens.
    DumpTokens,
    /// Answer one prompt.
    OneShot,
    /// Converse.
    Converse,
}

/// What the program does: listing tokens goes before a prompt, and a prompt
/// before conversing.
pub fn choose_task(dump_tokens: bool, has_prompt: bool) -> (t: Task)
    ensures
        t == (if dump_tokens {
            Task::DumpTokens
        } else if has_prompt {
            Task::OneShot
        } else {
            Task::Converse
        }),
{
    if dump_tokens {
        return Task::DumpTokens;
    }
    if has_prompt {
        Task::OneShot
    } else {
        Task::Converse
    }
}

/// Whether a line holds nothing but white space; such lines are passed over.
pub fn is_blank(line: &str) -> (r: bool)
    ensures
        r == (trimmed(line@).len() == 0),
{
    trim(line).unicode_len() == 0
}

/// The text of a token; nothing for an id that has none.
pub open spec fn token_bytes(t: &Tokenizer, id: i32) -> Seq<u8> {
    if 0 <= id < t.vocab@.len() {
        t.vocab@[id as int]@
    } else {
        seq![]
    }
}

/// The text of some tokens, without the token that ends the text.
pub open spec fn tokens_bytes(t: &Tokenizer, tokens: Seq<i32>) -> Seq<u8>
    decreases tokens.len(),
{
    if tokens.len() == 0 {
        seq![]
    } else if tokens.last() == t.eos {
        tokens_bytes(t, tokens.drop_last())
    } else {
        tokens_bytes(t, tokens.drop_last()) + token_bytes(t, tokens.last())
    }
}

/// Append the text of a token.
fn append_token(t: &Tokenizer, id: i32, out: &mut Vec<u8>)
    ensures
        final(out)@ == old(out)@ + token_bytes(t, id),
{
    match t.token_text(id) {
        Some(bytes) => {
            append_bytes(out, bytes);
        },
        None => {
            assert(out@ =~= old(out)@ + token_bytes(t, id));
        },
    }
}

/// The text of some tokens, without the token that ends the text.
pub fn text_of_tokens(t: &Tokenizer, tokens: &[i32]) -> (out: Vec<u8>)
    ensures
        out@ == tokens_bytes(t, tokens@),
{
    let mut out: Vec<u8> = Vec::new();
    let mut i: usize = 0;
    while i < tokens.len()
        invariant
            i <= tokens@.len(),
            out@ == tokens_bytes(t, tokens@.take(i as int)),
        decreases tokens@.len() - i,
    {
        if tokens[i] != t.eos {
            append_token(t, tokens[i], &mut out);
        }
        i = i + 1;
        assert(tokens@.take(i as int).drop_last() =~= tokens@.take(i - 1));
    }
    assert(tokens@.take(i as int) =~= tokens@);
    out
}

/// What holds after an answer that broke off behind the tokens `spoken`: there were
/// no logits to choose from, or the backend refused the next choice.
pub open spec fn reply_failed<B: BackendImpl, P: ProgressSink>(
    before: &Session<B, P>,
    after: &Session<B, P>,
    spoken: Seq<i32>,
    end: i32,
    e: Error,
) -> bool {
    ||| {
        &&& after.live().scores().len() == 0
        &&& e.text() == no_logits_text()
        &&& after.live().cached() == before.live().cached() + spoken
        &&& after.trace() == before.trace() + decodes(spoken)
    }
    ||| {
        &&& !before.live().fits(before.live().cached().len() + spoken.len() + 1)
        &&& exists|refused: i32|
            refused != end && #[trigger] greedy(before, after, spoken.push(refused))
                && after.trace() == before.trace() + decodes(spoken.push(refused))
    }
}

/// The assistant's answer: the text of greedy choices, at most `n_predict` of
/// them or until the end of the text. Every token of the answer is committed to
/// the session. A backend without logits is an error, and so is one that refuses a
/// token.
pub fn reply<B: BackendImpl, P: ProgressSink>(
    session: &mut Session<B, P>,
    t: &Tokenizer,
    n_predict: i32,
) -> (r: Result<Vec<u8>, Error>)
    requires
        old(session).wf(),
    ensures
        final(session).wf(),
        n_predict <= 0 ==> r is Ok,
        ({
            let spoken = final(session).tokens@.skip(old(session).tokens@.len() as int);
            &&& final(session).tokens@ == old(session).tokens@ + spoken
            &&& spoken.len() <= if n_predict < 0 {
                0
            } else {
                n_predict as int
            }
            &&& forall|i: int| 0 <= i < spoken.len() ==> #[trigger] spoken[i] != t.eos
            &&& greedy(old(session), final(session), spoken)
            &&& match r {
                Ok(bytes) => {
                    &&& bytes@ == tokens_bytes(t, spoken)
                    &&& final(session).live().cached() == old(session).live().cached() + spoken
                    &&& spoken.len() < n_predict ==> is_greedy_choice(
                        final(session).live().scores(),
                        t.eos,
                    )
                    &&& final(session).trace() == old(session).trace() + decodes(spoken)
                },
                Err(e) => {
                    &&& spoken.len() < n_predict
                    &&& reply_failed(old(session), final(session), spoken, t.eos, e)
                },
            }
        }),
        final(session).listener() == old(session).listener(),
        final(session).ctx_size == old(session).ctx_size,
        same_limits(&final(session).live(), &old(session).live()),
{
    let ghost mut spoken: Seq<i32> = seq![];
    let ghost start = session.tokens@;
    let mut out: Vec<u8> = Vec::new();
    let mut n: i32 = 0;
    let mut stop: bool = false;
    proof {
        assert(start + spoken =~= start);
        assert(session.live().cached() + spoken =~= session.live().cached());
        assert(start.skip(start.len() as int) =~= spoken);
        assert(session.trace() + decodes(spoken) =~= session.trace());
    }
    while n < n_predict && !stop
        invariant
            session.wf(),
            start == old(session).tokens@,
            session.tokens@ == start + spoken,
            session.live().cached() == old(session).live().cached() + spoken,
            n == spoken.len(),
            0 <= n,
            n <= n_predict || n == 0,
            forall|i: int| 0 <= i < n ==> #[trigger] spoken[i] != t.eos,
            out@ == tokens_bytes(t, spoken),
            greedy(old(session), &*session, spoken),
            session.trace() == old(session).trace() + decodes(spoken),
            session.listener() == old(session).listener(),
            session.ctx_size == old(session).ctx_size,
            session.live().trail().len() == old(session).live().trail().len() + n,
            n > 0 ==> session.live().scores() == session.live().trail().last(),
            n == 0 ==> session.live() == old(session).live(),
            same_limits(&session.live(), &old(session).live()),
            stop ==> is_greedy_choice(session.live().scores(), t.eos),
        decreases n_predict - n + (if stop { 0int } else { 1int }),
    {
        if session.logits().len() == 0 {
            assert((start + spoken).skip(start.len() as int) =~= spoken);
            return Err(Error::Other(String::from_str("no logits to choose from")));
        }
        let token: i32 = session.argmax();
        if token == t.eos {
            stop = true;
        } else {
            append_token(t, token, &mut out);
            let ghost before = spoken;
            let ghost here = *session;
            let done: Result<(), Error> = session.eval(token);
            proof {
                lemma_greedy_choice(old(session), &here, &*session, before, token);
                assert(session.trace() =~= old(session).trace() + decodes(spoken.push(token)));
                assert(greedy(old(session), &*session, spoken)) by {
                    assert forall|i: int| 0 <= i < spoken.len() implies is_greedy_choice(
                        logits_at(
                            old(session).live().scores(),
                            session.live().trail(),
                            old(session).live().trail().len() as int,
                            i,
                        ),
                        #[trigger] spoken[i],
                    ) by {
                        assert(spoken.push(token)[i] == spoken[i]);
                    }
                }
            }
            match done {
                Ok(()) => {},
                Err(e) => {
                    assert((start + spoken).skip(start.len() as int) =~= spoken);
                    return Err(e);
                },
            }
            proof {
                spoken = spoken.push(token);
                assert(session.tokens@ =~= start + spoken);
                assert(session.live().cached() =~= old(session).live().cached() + spoken);
                assert(spoken.drop_last() =~= before);
            }
            n = n + 1;
        }
    }
    assert((start + spoken).skip(start.len() as int) =~= spoken);
    Ok(out)
}

/// The text of tokens is that of the first ones, then that of the others; that of one
/// token is its own, and nothing for the token that ends the text or for one that the
/// vocabulary lacks.
pub proof fn lemma_text_of_tokens(t: &Tokenizer, a: Seq<i32>, b: Seq<i32>, id: i32)
    ensures
        tokens_bytes(t, a + b) == tokens_bytes(t, a) + tokens_bytes(t, b),
        tokens_bytes(t, Seq::<i32>::empty()) == Seq::<u8>::empty(),
        id == t.eos || id < 0 || id >= t.vocab@.len() ==> tokens_bytes(t, seq![id])
            == Seq::<u8>::empty(),
        id != t.eos && 0 <= id < t.vocab@.len() ==> tokens_bytes(t, seq![id])
            == t.vocab@[id as int]@,
    decreases b.len(),
{
    reveal_with_fuel(tokens_bytes, 2);
    assert(seq![id].drop_last() =~= Seq::<i32>::empty());
    assert(tokens_bytes(t, seq![id]) =~= if id == t.eos {
        Seq::<u8>::empty()
    } else {
        token_bytes(t, id)
    });
    if b.len() == 0 {
        assert(a + b =~= a);
        assert(tokens_bytes(t, a) + tokens_bytes(t, b) =~= tokens_bytes(t, a));
    } else {
        lemma_text_of_tokens(t, a, b.drop_last(), id);
        assert((a + b).drop_last() =~= a + b.drop_last());
        assert((a + b).last() == b.last());
        assert(tokens_bytes(t, a + b) =~= tokens_bytes(t, a) + tokens_bytes(t, b));
    }
}

} // verus!
