//! Greedy generation on a session.

use crate::api::{Backend, Error, ProgressSink, TokenSink, Tokens};
use crate::backend::cpu::CpuBackend;
use crate::backend::{same_limits, BackendImpl};
use crate::bytes::{wrap_to_i32, wrapped_i32};
use crate::engine::Engine;
use crate::sampler::argmax_of;
use crate::session::{
    decodes, greedy, lemma_greedy_choice, no_logits_text, run_failed, Session,
};
use crate::text::{append_decimal, append_signed, decimal, signed_decimal};
use vstd::prelude::*;
use vstd::string::*;

verus! {

/// The tokens of a run that are committed to the session: all but a last one
/// that ends the text.
pub open spec fn committed(tokens: Seq<i32>, eos: i32) -> Seq<i32> {
    if tokens.len() > 0 && tokens.last() == eos {
        tokens.drop_last()
    } else {
        tokens
    }
}

/// The reports of a run that emitted `n` of at most `total` tokens.
pub open spec fn run_reports(n: int, total: i32) -> Seq<(Seq<char>, i32, i32)> {
    Seq::new(n as nat, |i: int| ("generation"@, (i + 1) as i32, total))
}

/// The report of a finished prefill.
pub open spec fn prefill_report(prompt: Seq<i32>) -> (Seq<char>, i32, i32) {
    ("prefill"@, wrapped_i32(prompt.len() as int), wrapped_i32(prompt.len() as int))
}

/// The prompt fits in a context; one of a negative size holds nothing.
pub open spec fn fits_in(prompt: Seq<i32>, ctx_size: i32) -> bool {
    prompt.len() == 0 || prompt.len() <= ctx_size
}

/// What was appended to `before`.
pub open spec fn added(before: Seq<i32>, after: Seq<i32>) -> Seq<i32> {
    after.skip(before.len() as int)
}

/// Emit greedy choices, at most `n_predict` of them or until the end of the
/// text, and commit each but the token that ends the text. A backend without
/// logits is an error, and so is one that refuses a token.
pub fn generate_greedy<B: BackendImpl, P: ProgressSink, S: TokenSink, R: ProgressSink>(
    session: &mut Session<B, P>,
    n_predict: i32,
    eos: i32,
    emit: &mut S,
    progress: &mut R,
) -> (r: Result<i32, Error>)
    requires
        old(session).wf(),
    ensures
        final(session).wf(),
        final(session).ctx_size == old(session).ctx_size,
        ({
            let tokens = added(old(emit).emitted(), final(emit).emitted());
            &&& final(emit).emitted() == old(emit).emitted() + tokens
            &&& tokens.len() <= if n_predict < 0 {
                0
            } else {
                n_predict as int
            }
            &&& forall|i: int| 0 <= i < tokens.len() - 1 ==> #[trigger] tokens[i] != eos
            &&& n_predict > 0 && old(session).live().scores().len() > 0 ==> tokens.len() > 0
                && tokens[0] == wrapped_i32(argmax_of(old(session).live().scores()))
            &&& final(progress).reports() == old(progress).reports() + run_reports(
                tokens.len() as int,
                n_predict,
            )
            &&& match r {
                Ok(n) => {
                    &&& n == tokens.len()
                    &&& n < n_predict ==> n > 0 && tokens[n - 1] == eos
                    &&& greedy(old(session), final(session), tokens)
                    &&& final(session).tokens@ == old(session).tokens@ + committed(tokens, eos)
                    &&& final(session).live().cached() == old(session).live().cached()
                        + committed(tokens, eos)
                    &&& final(emit).finished()
                },
                Err(e) => {
                    &&& n_predict > 0
                    &&& final(emit).finished() == old(emit).finished()
                    &&& tokens.len() > 0 ==> tokens.last() != eos
                    &&& run_failed(
                        old(session),
                        final(session),
                        tokens,
                        n_predict as int,
                        eos,
                        e,
                    )
                },
            }
            &&& final(session).trace() == old(session).trace() + decodes(committed(tokens, eos))
        }),
        final(session).listener() == old(session).listener(),
        n_predict > 0 && old(session).live().scoreless() ==> r is Err && r->Err_0.text()
            == no_logits_text() && final(emit).emitted() == old(emit).emitted(),
        same_limits(&final(session).live(), &old(session).live()),
{
    let ghost mut tokens: Seq<i32> = seq![];
    let ghost sent = emit.emitted();
    let ghost told = progress.reports();
    let mut n: i32 = 0;
    let mut stop: bool = false;
    proof {
        assert(sent + tokens =~= sent);
        assert(told + run_reports(0, n_predict) =~= told);
        assert(session.tokens@ + committed(tokens, eos) =~= session.tokens@);
        assert(session.live().cached() + committed(tokens, eos) =~= session.live().cached());
        assert(added(sent, sent) =~= tokens);
        assert(session.trace() + decodes(committed(tokens, eos)) =~= session.trace());
    }
    while n < n_predict && !stop
        invariant
            session.wf(),
            session.ctx_size == old(session).ctx_size,
            sent == old(emit).emitted(),
            told == old(progress).reports(),
            n == tokens.len(),
            0 <= n,
            n <= n_predict || n == 0,
            emit.emitted() == sent + tokens,
            emit.finished() == old(emit).finished(),
            progress.reports() == told + run_reports(n as int, n_predict),
            session.tokens@ == old(session).tokens@ + committed(tokens, eos),
            session.live().cached() == old(session).live().cached() + committed(tokens, eos),
            forall|i: int| 0 <= i < n - 1 ==> #[trigger] tokens[i] != eos,
            greedy(old(session), &*session, tokens),
            session.listener() == old(session).listener(),
            session.trace() == old(session).trace() + decodes(committed(tokens, eos)),
            !stop ==> session.live().trail().len() == old(session).live().trail().len() + n,
            !stop && n > 0 ==> session.live().scores() == session.live().trail().last(),
            n == 0 ==> session.live() == old(session).live(),
            same_limits(&session.live(), &old(session).live()),
            old(session).live().scoreless() ==> n == 0,
            n > 0 ==> tokens[0] == wrapped_i32(argmax_of(old(session).live().scores())),
            stop ==> n > 0 && tokens[n - 1] == eos,
            !stop && n > 0 ==> tokens[n - 1] != eos,
        decreases n_predict - n + (if stop { 0int } else { 1int }),
    {
        if session.logits().len() == 0 {
            assert(added(sent, sent + tokens) =~= tokens);
            return Err(Error::Other(String::from_str("no logits to choose from")));
        }
        let t: i32 = session.argmax();
        let ghost before = tokens;
        let ghost here = *session;
        emit.emit(t);
        n = n + 1;
        progress.report("generation", n, n_predict);
        proof {
            tokens = tokens.push(t);
            assert(emit.emitted() =~= sent + tokens);
            assert(run_reports(n as int, n_predict) =~= run_reports(n - 1, n_predict).push(
                ("generation"@, n, n_predict),
            ));
            assert(progress.reports() =~= told + run_reports(n as int, n_predict));
            assert(added(sent, sent + tokens) =~= tokens);
            assert(committed(before, eos) =~= before);
        }
        if t == eos {
            stop = true;
            proof {
                assert(committed(tokens, eos) =~= before);
                lemma_greedy_choice(old(session), &here, &*session, before, t);
            }
        } else {
            let done: Result<(), Error> = session.eval(t);
            proof {
                lemma_greedy_choice(old(session), &here, &*session, before, t);
                assert(session.trace() =~= old(session).trace() + decodes(tokens));
            }
            match done {
                Ok(()) => {},
                Err(e) => {
                    assert(tokens.drop_last() =~= before);
                    return Err(e);
                },
            }
            proof {
                assert(session.tokens@ =~= old(session).tokens@ + tokens);
                assert(session.live().cached() =~= old(session).live().cached() + tokens);
            }
        }
    }
    emit.done();
    assert(added(sent, sent + tokens) =~= tokens);
    Ok(n)
}

/// `s` with spaces before it, to a width of at least `width`.
pub open spec fn right_aligned(s: Seq<char>, width: nat) -> Seq<char>
    decreases width - s.len(),
{
    if s.len() >= width {
        s
    } else {
        right_aligned(seq![' '] + s, width)
    }
}

fn append_right(out: &mut String, s: &str, width: usize)
    ensures
        final(out)@ == old(out)@ + right_aligned(s@, width as nat),
{
    let n: usize = s.unicode_len();
    let mut k: usize = n;
    let ghost mut pad: Seq<char> = seq![];
    assert(pad + s@ =~= s@);
    assert(old(out)@ + pad =~= old(out)@);
    while k < width
        invariant
            n <= k,
            k <= width || k == n,
            n == s@.len(),
            pad.len() == k - n,
            forall|i: int| 0 <= i < pad.len() ==> pad[i] == ' ',
            out@ == old(out)@ + pad,
            right_aligned(pad + s@, width as nat) == right_aligned(s@, width as nat),
        decreases width - k,
    {
        out.append(" ");
        proof {
            reveal_strlit(" ");
            assert(" "@ =~= seq![' ']);
            let next = pad.push(' ');
            assert(seq![' '] + (pad + s@) =~= next + s@);
            assert(old(out)@ + pad + " "@ =~= old(out)@ + next);
            pad = next;
        }
        k = k + 1;
    }
    out.append(s);
    assert(out@ =~= old(out)@ + (pad + s@));
}

impl<'a> Engine<'a> {
    /// Greedy generation on a temporary session: prefill the prompt, then emit
    /// the greedy choices to `emit`, reporting prefill and generation to
    /// `progress`. The one backend there is computes no logits, so that the
    /// generation ends in an error, behind the report of the prefill, wherever a
    /// token is asked for.
    pub fn generate_argmax<S: TokenSink, P: ProgressSink>(
        &self,
        prompt: &Tokens,
        n_predict: i32,
        ctx_size: i32,
        emit: &mut S,
        progress: &mut P,
    ) -> (r: Result<i32, Error>)
        requires
            prompt@.len() <= u32::MAX,
        ensures
            final(emit).emitted() == old(emit).emitted(),
            ({
                let prefilled = self.backend == Backend::Cpu && fits_in(prompt@, ctx_size);
                &&& final(progress).reports() == if prefilled {
                    old(progress).reports().push(prefill_report(prompt@))
                } else {
                    old(progress).reports()
                }
                &&& match r {
                    Ok(n) => prefilled && n_predict <= 0 && n == 0 && final(emit).finished(),
                    Err(e) => {
                        &&& self.backend != Backend::Cpu ==> match e {
                            Error::Unsupported(what) => what@ == self.backend.label(),
                            _ => false,
                        }
                        &&& prefilled ==> n_predict > 0 && e.text() == no_logits_text()
                        &&& final(emit).finished() == old(emit).finished()
                    },
                }
            }),
    {
        let ctx: u32 = if ctx_size < 0 {
            0
        } else {
            ctx_size as u32
        };
        let mut session: Session<CpuBackend, P> = match self.new_session(ctx) {
            Ok(s) => s,
            Err(e) => {
                assert(added(emit.emitted(), emit.emitted()) =~= Seq::<i32>::empty());
                return Err(e);
            },
        };
        match session.sync(prompt) {
            Ok(()) => {},
            Err(e) => {
                assert(added(emit.emitted(), emit.emitted()) =~= Seq::<i32>::empty());
                return Err(e);
            },
        }
        let n: i32 = wrap_to_i32(prompt.len());
        progress.report("prefill", n, n);
        generate_greedy(&mut session, n_predict, self.tokenizer.eos_id(), emit, progress)
    }

    /// How a token is listed: its position, its id, and its text as bytes, a
    /// placeholder where it has none.
    pub fn dump_line(&self, i: usize, t: i32) -> (r: (String, &[u8]))
        ensures
            r.0@ == "["@ + right_aligned(decimal(i as nat), 5) + "] "@ + right_aligned(
                signed_decimal(t as int),
                6,
            ) + "  "@,
            0 <= t < self.tokenizer.vocab@.len() ==> r.1@ == self.tokenizer.vocab@[t as int]@,
            !(0 <= t < self.tokenizer.vocab@.len()) ==> r.1@ == vstd::utf8::encode_utf8("<?>"@),
    {
        let mut index: String = String::new();
        append_decimal(&mut index, i as u64);
        let mut id: String = String::new();
        append_signed(&mut id, t as i64);
        let mut s: String = String::from_str("[");
        append_right(&mut s, index.as_str(), 5);
        s.append("] ");
        append_right(&mut s, id.as_str(), 6);
        s.append("  ");
        proof {
            assert(index@ =~= decimal(i as nat));
            assert(id@ =~= signed_decimal(t as int));
        }
        let text: &[u8] = match self.tokenizer.token_text(t) {
            Some(b) => b,
            None => "<?>".as_bytes(),
        };
        (s, text)
    }
}

/// A text is aligned to the right with spaces: it is there as it is, behind as many
/// spaces as it takes to fill the width, and never cut.
pub proof fn lemma_right_aligned(s: Seq<char>, width: nat)
    ensures
        ({
            let r = right_aligned(s, width);
            let pad = r.len() - s.len();
            &&& r.len() == if s.len() < width {
                width
            } else {
                s.len()
            }
            &&& forall|i: int| 0 <= i < pad ==> #[trigger] r[i] == ' '
            &&& r.skip(pad) == s
        }),
    decreases width - s.len(),
{
    if s.len() < width {
        let more = seq![' '] + s;
        lemma_right_aligned(more, width);
        let r = right_aligned(s, width);
        let pad = r.len() - s.len();
        assert(r.skip(pad - 1) == more);
        assert(r[pad - 1] == r.skip(pad - 1)[0]);
        assert(r.skip(pad) =~= more.drop_first()) by {
            assert(r.skip(pad) =~= r.skip(pad - 1).drop_first());
        }
        assert(more.drop_first() =~= s);
    } else {
        assert(s.skip(0) =~= s);
    }
}

/// The reports of a run count up from one, each with the number of tokens asked for.
pub proof fn lemma_run_reports(n: int, total: i32, i: int)
    requires
        0 <= i < n <= total,
    ensures
        run_reports(n, total).len() == n,
        run_reports(n, total)[i].1 == i + 1,
        run_reports(n, total)[i].2 == total,
        run_reports(n, total)[i].0 == "generation"@,
{
}

/// All tokens of a run are committed but a last one that ends the text.
pub proof fn lemma_committed(tokens: Seq<i32>, last: i32, eos: i32)
    ensures
        committed(tokens.push(eos), eos) == tokens,
        last != eos ==> committed(tokens.push(last), eos) == tokens.push(last),
        committed(Seq::<i32>::empty(), eos) == Seq::<i32>::empty(),
{
    assert(tokens.push(eos).drop_last() =~= tokens);
}

/// The report of a prefill gives the length of the prompt twice: all of it is there.
pub proof fn lemma_prefill_report(prompt: Seq<i32>)
    requires
        prompt.len() <= i32::MAX,
    ensures
        prefill_report(prompt).0 == "prefill"@,
        prefill_report(prompt).1 == prompt.len(),
        prefill_report(prompt).2 == prompt.len(),
{
}

/// A prompt fits exactly if the context has a place for each of its tokens, and then it
/// fits in every larger context and so does every prefix of it.
pub proof fn lemma_fits(prompt: Seq<i32>, ctx_size: i32, larger: i32, n: int)
    requires
        ctx_size <= larger,
        0 <= n <= prompt.len(),
    ensures
        ctx_size >= 0 ==> (fits_in(prompt, ctx_size) <==> prompt.len() <= ctx_size),
        ctx_size < 0 ==> (fits_in(prompt, ctx_size) <==> prompt.len() == 0),
        fits_in(prompt, ctx_size) ==> fits_in(prompt, larger),
        fits_in(prompt, ctx_size) ==> fits_in(prompt.take(n), ctx_size),
{
}

} // verus!
