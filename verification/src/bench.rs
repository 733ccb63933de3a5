//! Decisions of the benchmark.
//!
//! The benchmark prefills growing prefixes of a prompt. At each frontier it
//! times the prefill, decodes some tokens, and restores the session.

use crate::api::{Error, ProgressSink, Tokens};
use crate::backend::{same_limits, BackendImpl};
use crate::bytes::{to_signed_32, wrap_to_i32, wrapped_i32};
use crate::engine::Engine;
use crate::sampler::{eligible, is_argmax_excluding};
use crate::session::{decodes, logits_at, synced, Session, SyncPath};
use crate::text::{append_decimal, append_signed, decimal, signed_decimal};
use crate::tokens::is_common_prefix_len;
use vstd::prelude::*;
use vstd::slice::{slice_subrange, slice_to_vec};
use vstd::string::*;
use vstd::utf8::encode_utf8;

verus! {

/// Options of the benchmark.
#[derive(Debug)]
pub struct BenchArgs {
    /// Path of the model file.
    pub model: String,
    pub backend: Option<String>,
    /// Number of warmup tokens before timing starts.
    pub warmup: i32,
    /// Number of tokens to time during decode.
    pub decode: i32,
    /// Number of tokens to time during prefill.
    pub prefill: i32,
    /// Context size.
    pub ctx_size: i32,
}

impl Default for BenchArgs {
    fn default() -> (a: Self)
        ensures
            a.model@ == "./ds4flash.gguf"@,
            a.backend is None,
            a.warmup == 32,
            a.decode == 256,
            a.prefill == 1024,
            a.ctx_size == 4096,
    {
        BenchArgs {
            model: String::from_str("./ds4flash.gguf"),
            backend: None,
            warmup: 32,
            decode: 256,
            prefill: 1024,
            ctx_size: 4096,
        }
    }
}

/// Why the benchmark stops.
#[derive(Debug)]
pub enum BenchError {
    /// The prompt, of so many tokens, is shorter than the largest context.
    ShortPrompt(usize, i32),
    /// Decoding would exceed the allocated context at a frontier.
    ContextFull(i32),
    /// Every token but the one that ends the text is excluded at a frontier.
    NoToken(i32),
    Backend(Error),
}

impl BenchError {
    /// The text that the error is shown with.
    pub open spec fn text(&self) -> Seq<char> {
        match self {
            BenchError::ShortPrompt(n, max) => "prompt has "@ + decimal(*n as nat)
                + " tokens, need at least --ctx-max="@ + signed_decimal(*max as int),
            BenchError::ContextFull(frontier) => {
                "generation would exceed allocated context at frontier "@ + signed_decimal(
                    *frontier as int,
                )
            },
            BenchError::NoToken(frontier) => "no non-EOS token at frontier "@ + signed_decimal(
                *frontier as int,
            ),
            BenchError::Backend(e) => e.text(),
        }
    }

    /// The text that the error is shown with.
    pub fn message(&self) -> (s: String)
        ensures
            s@ == self.text(),
    {
        match self {
            BenchError::ShortPrompt(n, max) => {
                let mut s: String = String::from_str("prompt has ");
                append_decimal(&mut s, *n as u64);
                s.append(" tokens, need at least --ctx-max=");
                append_signed(&mut s, *max as i64);
                s
            },
            BenchError::ContextFull(frontier) => {
                let mut s: String = String::from_str(
                    "generation would exceed allocated context at frontier ",
                );
                append_signed(&mut s, *frontier as i64);
                s
            },
            BenchError::NoToken(frontier) => {
                let mut s: String = String::from_str("no non-EOS token at frontier ");
                append_signed(&mut s, *frontier as i64);
                s
            },
            BenchError::Backend(e) => e.message(),
        }
    }
}

/// The header of the table that the benchmark writes.
pub fn csv_header() -> (s: &'static str)
    ensures
        s@ == "ctx_tokens,prefill_tokens,prefill_tps,gen_tokens,gen_tps,kvcache_bytes"@,
{
    "ctx_tokens,prefill_tokens,prefill_tps,gen_tokens,gen_tps,kvcache_bytes"
}

/// The prompt must reach the largest context.
pub fn check_prompt(prompt: &Tokens, ctx_max: i32) -> (r: Result<(), BenchError>)
    ensures
        r == if wrapped_i32(prompt@.len() as int) < ctx_max {
            Err::<(), BenchError>(BenchError::ShortPrompt(prompt@.len() as usize, ctx_max))
        } else {
            Ok(())
        },
{
    if wrap_to_i32(prompt.len()) < ctx_max {
        return Err(BenchError::ShortPrompt(prompt.len(), ctx_max));
    }
    Ok(())
}

/// A chat prompt as rendered text.
pub open spec fn rendered_prompt(system: Seq<char>, text: Seq<char>) -> Seq<char> {
    "<|im_start|>system\n"@ + system + "<|im_end|>\n<|im_start|>user\n"@ + text
        + "<|im_end|>\n<|im_start|>assistant\n"@
}

/// The tokens of the benchmark's prompt: the text itself, or the text as the
/// user's message of a chat with the given system prompt.
pub fn build_prompt(engine: &Engine, text: &str, chat_system: Option<&str>) -> (tokens: Tokens)
    requires
        chat_system is Some ==> engine.tokenizer.specials_named(),
    ensures
        tokens@ == match chat_system {
            Some(system) => engine.tokenizer.chat_tokens(
                encode_utf8(rendered_prompt(system@, text@)),
            ),
            None => engine.tokenizer.plain_tokens(encode_utf8(text@)),
        },
{
    let mut tokens: Tokens = Tokens::new();
    match chat_system {
        Some(system) => {
            let mut rendered: String = String::from_str("<|im_start|>system\n");
            rendered.append(system);
            rendered.append("<|im_end|>\n<|im_start|>user\n");
            rendered.append(text);
            rendered.append("<|im_end|>\n<|im_start|>assistant\n");
            engine.tokenizer().encode_rendered_chat(rendered.as_str(), &mut tokens);
        },
        None => {
            engine.tokenizer().encode(text, &mut tokens);
        },
    }
    assert(Seq::<i32>::empty() + tokens@ =~= tokens@);
    tokens
}

/// Prefill the prompt up to a frontier: synchronize the session to that much of
/// it, so that only what is new is prefilled wherever the cache can be rewound.
pub fn prefill_frontier<B: BackendImpl, P: ProgressSink>(
    session: &mut Session<B, P>,
    prompt: &Tokens,
    frontier: i32,
) -> (r: Result<(), BenchError>)
    requires
        old(session).wf(),
        0 <= frontier <= prompt@.len(),
    ensures
        final(session).wf(),
        final(session).ctx_size == old(session).ctx_size,
        same_limits(&final(session).live(), &old(session).live()),
        exists|common: int, path: SyncPath, synced_as: Result<(), Error>|
            is_common_prefix_len(old(session).tokens@, prompt@.take(frontier as int), common)
                && #[trigger] synced(
                old(session),
                final(session),
                prompt@.take(frontier as int),
                common,
                path,
                synced_as,
            ) && r == match synced_as {
                Ok(_) => Ok::<(), BenchError>(()),
                Err(e) => Err(BenchError::Backend(e)),
            },
{
    let prefix: Tokens = Tokens::from_vec(
        slice_to_vec(slice_subrange(prompt.as_slice(), 0, frontier as usize)),
    );
    assert(prefix@ =~= prompt@.take(frontier as int));
    match session.sync(&prefix) {
        Ok(()) => Ok(()),
        Err(e) => Err(BenchError::Backend(e)),
    }
}

/// The token is the greedy choice other than an excluded one.
pub open spec fn chosen_excluding(scores: Seq<u32>, excluded: i32, token: i32) -> bool {
    exists|k: int| #[trigger]
        is_argmax_excluding(scores, excluded, k) && token == wrapped_i32(k)
}

/// Each token is the greedy choice, other than an excluded one, from the logits
/// current at its turn.
pub open spec fn greedy_excluding<B: BackendImpl, P: ProgressSink>(
    before: &Session<B, P>,
    after: &Session<B, P>,
    tokens: Seq<i32>,
    excluded: i32,
) -> bool {
    forall|i: int|
        0 <= i < tokens.len() ==> chosen_excluding(
            logits_at(
                before.live().scores(),
                after.live().trail(),
                before.live().trail().len() as int,
                i,
            ),
            excluded,
            #[trigger] tokens[i],
        )
}

/// No token but an excluded one can be chosen, or the choice has no id of its own:
/// its position does not fit.
pub open spec fn nothing_to_choose(scores: Seq<u32>, excluded: i32) -> bool {
    ||| forall|j: int| 0 <= j < scores.len() ==> !eligible(scores, excluded, j)
    ||| exists|k: int| #[trigger]
        is_argmax_excluding(scores, excluded, k) && wrapped_i32(k) < 0
}

/// One more token would exceed a context, behind `n` tokens.
pub open spec fn context_full(n: int, ctx_size: u32) -> bool {
    wrapped_i32(n) + 1 >= wrapped_i32(ctx_size as int)
}

/// What holds where decoding at a frontier broke off behind the tokens `decoded`:
/// the context is full, or nothing can be chosen, or the backend refused the next
/// choice, looked at in that order.
pub open spec fn decode_failed<B: BackendImpl, P: ProgressSink>(
    before: &Session<B, P>,
    after: &Session<B, P>,
    decoded: Seq<i32>,
    eos: i32,
    frontier: i32,
    e: BenchError,
) -> bool {
    let full = context_full(
        (before.live().cached().len() + decoded.len()) as int,
        before.ctx_size,
    );
    let stopped = after.live().cached() == before.live().cached() + decoded && after.trace()
        == before.trace() + decodes(decoded);
    match e {
        BenchError::ContextFull(f) => f == frontier && full && stopped,
        BenchError::NoToken(f) => f == frontier && !full && stopped && nothing_to_choose(
            after.live().scores(),
            eos,
        ),
        BenchError::Backend(_) => {
            &&& !full
            &&& !before.live().fits(before.live().cached().len() + decoded.len() + 1)
            &&& exists|refused: i32|
                refused >= 0 && #[trigger] greedy_excluding(
                    before,
                    after,
                    decoded.push(refused),
                    eos,
                ) && after.trace() == before.trace() + decodes(decoded.push(refused))
        },
        BenchError::ShortPrompt(_, _) => false,
    }
}

/// Decode `gen_tokens` tokens at a frontier: the greedy choices other than the
/// token that ends the text. It fails where, before as many are decoded, the
/// context would be exceeded, nothing can be chosen, or the backend refuses a token.
pub fn decode_frontier<B: BackendImpl, P: ProgressSink>(
    session: &mut Session<B, P>,
    gen_tokens: i32,
    eos: i32,
    frontier: i32,
) -> (r: Result<(), BenchError>)
    requires
        old(session).wf(),
    ensures
        final(session).wf(),
        final(session).ctx_size == old(session).ctx_size,
        same_limits(&final(session).live(), &old(session).live()),
        gen_tokens <= 0 ==> r is Ok && *final(session) == *old(session),
        final(session).listener() == old(session).listener(),
        ({
            let decoded = final(session).tokens@.skip(old(session).tokens@.len() as int);
            &&& final(session).tokens@ == old(session).tokens@ + decoded
            &&& forall|i: int| 0 <= i < decoded.len() ==> #[trigger] decoded[i] >= 0
            &&& greedy_excluding(old(session), final(session), decoded, eos)
            &&& match r {
                Ok(_) => {
                    &&& decoded.len() == if gen_tokens < 0 {
                        0
                    } else {
                        gen_tokens as int
                    }
                    &&& final(session).live().cached() == old(session).live().cached() + decoded
                    &&& final(session).trace() == old(session).trace() + decodes(decoded)
                },
                Err(e) => {
                    &&& decoded.len() < gen_tokens
                    &&& decode_failed(old(session), final(session), decoded, eos, frontier, e)
                },
            }
        }),
{
    let ghost mut decoded: Seq<i32> = seq![];
    let ghost start = session.tokens@;
    let mut n: i32 = 0;
    proof {
        assert(start + decoded =~= start);
        assert(session.live().cached() + decoded =~= session.live().cached());
        assert(start.skip(start.len() as int) =~= decoded);
        assert(session.trace() + decodes(decoded) =~= session.trace());
    }
    while n < gen_tokens
        invariant
            session.wf(),
            session.ctx_size == old(session).ctx_size,
            start == old(session).tokens@,
            session.tokens@ == start + decoded,
            session.live().cached() == old(session).live().cached() + decoded,
            n == decoded.len(),
            0 <= n,
            n <= gen_tokens || n == 0,
            n == 0 ==> *session == *old(session),
            forall|i: int| 0 <= i < n ==> #[trigger] decoded[i] >= 0,
            greedy_excluding(old(session), &*session, decoded, eos),
            session.trace() == old(session).trace() + decodes(decoded),
            session.listener() == old(session).listener(),
            session.live().trail().len() == old(session).live().trail().len() + n,
            n > 0 ==> session.live().scores() == session.live().trail().last(),
            same_limits(&session.live(), &old(session).live()),
        decreases gen_tokens - n,
    {
        assert((start + decoded).skip(start.len() as int) =~= decoded);
        if to_signed_32(session.pos()) as i64 + 1 >= to_signed_32(session.ctx()) as i64 {
            return Err(BenchError::ContextFull(frontier));
        }
        let token: i32 = session.argmax_excluding(eos);
        if token < 0 {
            return Err(BenchError::NoToken(frontier));
        }
        assert(chosen_excluding(session.live().scores(), eos, token));
        let ghost here = *session;
        let done: Result<(), Error> = session.eval(token);
        let ghost more = decoded.push(token);
        proof {
            let base = old(session).live().trail().len() as int;
            let start_scores = old(session).live().scores();
            assert forall|i: int| 0 <= i < more.len() implies chosen_excluding(
                logits_at(start_scores, session.live().trail(), base, i),
                eos,
                #[trigger] more[i],
            ) by {
                if i < decoded.len() {
                    assert(decoded[i] == more[i]);
                    assert(logits_at(start_scores, session.live().trail(), base, i) == logits_at(
                        start_scores,
                        here.live().trail(),
                        base,
                        i,
                    ));
                } else {
                    assert(logits_at(start_scores, session.live().trail(), base, i)
                        == here.live().scores());
                }
            }
            assert(greedy_excluding(old(session), &*session, decoded, eos)) by {
                assert forall|i: int| 0 <= i < decoded.len() implies chosen_excluding(
                    logits_at(start_scores, session.live().trail(), base, i),
                    eos,
                    #[trigger] decoded[i],
                ) by {
                    assert(more[i] == decoded[i]);
                }
            }
            assert(session.trace() =~= old(session).trace() + decodes(more));
        }
        match done {
            Ok(()) => {},
            Err(e) => {
                assert(greedy_excluding(old(session), &*session, more, eos));
                return Err(BenchError::Backend(e));
            },
        }
        proof {
            decoded = more;
            assert(session.tokens@ =~= start + decoded);
            assert(session.live().cached() =~= old(session).live().cached() + decoded);
        }
        n = n + 1;
    }
    assert((start + decoded).skip(start.len() as int) =~= decoded);
    Ok(())
}

/// Whether a further frontier follows.
pub fn goes_on(frontier: i32, ctx_max: i32) -> (r: bool)
    ensures
        r == (frontier < ctx_max),
{
    frontier < ctx_max
}

/// The prompt of the benchmark's chat: three messages in the markup of the rendered
/// form, of the system, of the user, and of the assistant, which is left open.
pub proof fn lemma_rendered_prompt(system: Seq<char>, text: Seq<char>)
    ensures
        rendered_prompt(system, text) == "<|im_start|>"@ + "system\n"@ + system + "<|im_end|>"@
            + "\n"@ + "<|im_start|>"@ + "user\n"@ + text + "<|im_end|>"@ + "\n"@
            + "<|im_start|>"@ + "assistant\n"@,
{
    reveal_strlit("<|im_start|>system\n");
    reveal_strlit("<|im_end|>\n<|im_start|>user\n");
    reveal_strlit("<|im_end|>\n<|im_start|>assistant\n");
    reveal_strlit("<|im_start|>");
    reveal_strlit("<|im_end|>");
    reveal_strlit("system\n");
    reveal_strlit("user\n");
    reveal_strlit("assistant\n");
    reveal_strlit("\n");
    assert("<|im_start|>system\n"@ =~= "<|im_start|>"@ + "system\n"@);
    assert("<|im_end|>\n<|im_start|>user\n"@ =~= "<|im_end|>"@ + "\n"@ + "<|im_start|>"@
        + "user\n"@);
    assert("<|im_end|>\n<|im_start|>assistant\n"@ =~= "<|im_end|>"@ + "\n"@ + "<|im_start|>"@
        + "assistant\n"@);
    assert(rendered_prompt(system, text) =~= "<|im_start|>"@ + "system\n"@ + system
        + "<|im_end|>"@ + "\n"@ + "<|im_start|>"@ + "user\n"@ + text + "<|im_end|>"@ + "\n"@
        + "<|im_start|>"@ + "assistant\n"@);
}

/// A context is full exactly if one more token would leave it no room, for sizes that
/// fit in 32 bits with a sign.
pub proof fn lemma_context_full(n: int, ctx_size: u32)
    requires
        0 <= n <= i32::MAX,
        ctx_size <= i32::MAX,
    ensures
        context_full(n, ctx_size) <==> n + 1 >= ctx_size,
{
}

/// A choice other than the excluded token is never that token, and none is better.
pub proof fn lemma_choice_excludes(scores: Seq<u32>, excluded: i32, token: i32)
    requires
        chosen_excluding(scores, excluded, token),
        scores.len() <= i32::MAX,
    ensures
        token != excluded,
        0 <= token < scores.len(),
        forall|j: int|
            0 <= j < scores.len() && j != excluded ==> !crate::ieee::above(
                #[trigger] scores[j],
                scores[token as int],
            ),
{
    let k = choose|k: int| #[trigger]
        is_argmax_excluding(scores, excluded, k) && token == wrapped_i32(k);
    assert forall|j: int| 0 <= j < scores.len() && j != excluded implies !crate::ieee::above(
        #[trigger] scores[j],
        scores[token as int],
    ) by {
        if crate::ieee::above(scores[j], scores[k]) {
            assert(eligible(scores, excluded, j));
        }
    }
}

/// Where nothing can be chosen, the logit of every token but the excluded one is no
/// number, or negative infinity.
pub proof fn lemma_nothing_to_choose(scores: Seq<u32>, excluded: i32, j: int)
    requires
        scores.len() <= i32::MAX,
        0 <= j < scores.len(),
        j != excluded,
    ensures
        nothing_to_choose(scores, excluded) ==> crate::ieee::nan(scores[j]) || scores[j]
            == 0xff80_0000,
{
    if nothing_to_choose(scores, excluded) {
        assert(!eligible(scores, excluded, j)) by {
            if exists|k: int| #[trigger]
                is_argmax_excluding(scores, excluded, k) && wrapped_i32(k) < 0 {
                let k = choose|k: int| #[trigger]
                    is_argmax_excluding(scores, excluded, k) && wrapped_i32(k) < 0;
                assert(0 <= k <= i32::MAX);
            }
        }
    }
}

} // verus!
