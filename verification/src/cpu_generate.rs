//! Decisions of the end-to-end CPU generation.
//!
//! The driver owns the buffers and runs the layers; this module decides what it
//! does next. Every prompt token is run through the layers in turn. Then, at
//! most as often as asked for, logits are computed, the greedy choice is
//! emitted, and the chosen token is run through the layers, until the choice
//! ends the text. At the end the sink is told once.

use crate::api::{Error, TokenSink, Tokens};
use crate::bytes::wrapped_i32;
use crate::sampler::{argmax, argmax_of};
use crate::shape::N_LAYER;
use vstd::prelude::*;
use vstd::slice::slice_to_vec;
use vstd::string::*;

verus! {

/// What the driver has to do next.
#[derive(Debug, Clone, Copy, PartialEq, Eq, Structural)]
pub enum Action {
    /// Embed a token that stands at a position.
    Embed(i32, u64),
    /// Run a layer on a token that stands at a position.
    Layer(u32, i32, u64),
    /// Compute the logits.
    Score,
    /// Tell the sink that the generation is over.
    Announce,
    /// Nothing more.
    Finish,
}

/// A generation in progress.
pub struct CpuGenerate {
    prompt: Vec<i32>,
    n_predict: i32,
    eos: i32,
    n_generated: i32,
    next: Action,
    out: Ghost<Seq<i32>>,
    rows: Ghost<Seq<Seq<u32>>>,
    ran: Ghost<Seq<(u32, i32, u64)>>,
}

/// The text of the error for an empty prompt.
pub open spec fn empty_prompt_text() -> Seq<char> {
    "generate_argmax_cpu: prompt is empty"@
}

/// Layer step number `k` of a generation whose tokens are `all`: the layers run in
/// order on one token after the other, each at its position.
pub open spec fn layer_step(all: Seq<i32>, k: int) -> (u32, i32, u64) {
    ((k % N_LAYER as int) as u32, all[k / N_LAYER as int], (k / N_LAYER as int) as u64)
}

/// The first `n` layer steps of a generation whose tokens are `all`.
pub open spec fn layer_steps(all: Seq<i32>, n: int) -> Seq<(u32, i32, u64)> {
    Seq::new(n as nat, |k: int| layer_step(all, k))
}

impl CpuGenerate {
    /// The prompt.
    pub closed spec fn prompt(&self) -> Seq<i32> {
        self.prompt@
    }

    /// The most tokens that are emitted.
    pub closed spec fn limit(&self) -> int {
        if self.n_predict < 0 {
            0
        } else {
            self.n_predict as int
        }
    }

    /// The token that ends the text.
    pub closed spec fn end(&self) -> i32 {
        self.eos
    }

    /// The tokens emitted so far.
    pub closed spec fn output(&self) -> Seq<i32> {
        self.out@
    }

    /// The logits computed so far.
    pub closed spec fn scores(&self) -> Seq<Seq<u32>> {
        self.rows@
    }

    /// The layer steps made so far: layer, token and position of each.
    pub closed spec fn steps(&self) -> Seq<(u32, i32, u64)> {
        self.ran@
    }

    /// The prompt and what was emitted.
    pub open spec fn all(&self) -> Seq<i32> {
        self.prompt() + self.output()
    }

    /// What has to be done next.
    pub closed spec fn due(&self) -> Action {
        self.next
    }

    /// The number of tokens emitted is kept.
    pub closed spec fn counted(&self) -> bool {
        self.n_generated == self.out@.len()
    }

    /// No token was asked for, all were emitted, or the last choice ends the text.
    pub open spec fn over(&self) -> bool {
        ||| self.output().len() == self.limit()
        ||| self.scores().len() == self.output().len() + 1 && wrapped_i32(
            argmax_of(self.scores().last()),
        ) == self.end()
    }

    /// The number of tokens that have to be run in the end: all of them but the
    /// last token asked for.
    pub open spec fn total_runs(&self) -> int {
        if self.output().len() > 0 && self.output().len() == self.limit() {
            self.all().len() - 1
        } else {
            self.all().len() as int
        }
    }

    /// What was done so far is the beginning of the generation: the layer steps are
    /// in order, and what was emitted is what the logits give.
    pub open spec fn wf(&self) -> bool {
        let n = N_LAYER as int;
        &&& self.counted()
        &&& self.prompt().len() > 0
        &&& self.output().len() <= self.limit() <= i32::MAX
        &&& self.prompt().len() + self.limit() <= u64::MAX
        &&& self.output() == emitted_from(self.scores(), self.limit(), self.end())
        &&& self.steps() == layer_steps(self.all(), self.steps().len() as int)
        &&& match self.due() {
            Action::Embed(token, pos) => {
                &&& pos < self.all().len()
                &&& token == self.all()[pos as int]
                &&& self.steps().len() == n * pos
                &&& self.unfinished(pos)
            },
            Action::Layer(il, token, pos) => {
                &&& il < N_LAYER
                &&& pos < self.all().len()
                &&& token == self.all()[pos as int]
                &&& self.steps().len() == n * pos + il
                &&& self.unfinished(pos)
            },
            Action::Score => {
                &&& self.output().len() < self.limit()
                &&& self.scores().len() == self.output().len()
                &&& self.steps().len() == n * self.all().len()
            },
            Action::Announce | Action::Finish => {
                &&& self.over()
                &&& self.steps().len() == n * self.total_runs()
            },
        }
    }

    /// A token at `pos` is run: one of the prompt before anything was emitted, or
    /// the last one emitted, where more are asked for.
    pub open spec fn unfinished(&self, pos: u64) -> bool {
        &&& self.scores().len() == self.output().len()
        &&& if pos < self.prompt().len() {
            self.output().len() == 0
        } else {
            pos == self.all().len() - 1 && self.output().len() < self.limit()
        }
    }

    /// The generation has the same prompt, limit and end as another.
    pub open spec fn same_run(&self, other: &CpuGenerate) -> bool {
        self.prompt() == other.prompt() && self.limit() == other.limit() && self.end()
            == other.end()
    }

    /// Nothing was emitted or scored since another state.
    pub open spec fn same_output(&self, other: &CpuGenerate) -> bool {
        self.output() == other.output() && self.scores() == other.scores()
    }

    /// Start a generation: the first token of the prompt is due. An empty prompt
    /// is refused.
    pub fn start(prompt: &Tokens, n_predict: i32, eos_token: i32) -> (r: Result<CpuGenerate, Error>)
        requires
            prompt@.len() + (if n_predict < 0 {
                0
            } else {
                n_predict as int
            }) <= u64::MAX,
        ensures
            match r {
                Ok(g) => prompt@.len() > 0 && g.wf() && g.prompt() == prompt@ && g.end()
                    == eos_token && g.limit() == (if n_predict < 0 {
                    0
                } else {
                    n_predict as int
                }) && g.output() == Seq::<i32>::empty() && g.scores() == Seq::<Seq<u32>>::empty()
                    && g.steps() == Seq::<(u32, i32, u64)>::empty() && g.due() == Action::Embed(
                    prompt@[0],
                    0,
                ),
                Err(e) => prompt@.len() == 0 && e.text() == empty_prompt_text(),
            },
    {
        if prompt.is_empty() {
            return Err(Error::Other(String::from_str("generate_argmax_cpu: prompt is empty")));
        }
        let copy: Vec<i32> = slice_to_vec(prompt.as_slice());
        let first: i32 = copy[0];
        let g: CpuGenerate = CpuGenerate {
            prompt: copy,
            n_predict,
            eos: eos_token,
            n_generated: 0,
            next: Action::Embed(first, 0),
            out: Ghost(Seq::empty()),
            rows: Ghost(Seq::empty()),
            ran: Ghost(Seq::empty()),
        };
        assert(g.all() =~= g.prompt());
        assert(g.steps() =~= layer_steps(g.all(), 0));
        Ok(g)
    }

    /// What has to be done next.
    pub fn action(&self) -> (a: Action)
        ensures
            a == self.due(),
    {
        self.next
    }

    /// The number of tokens emitted.
    pub fn emitted(&self) -> (n: i32)
        requires
            self.wf(),
        ensures
            n == self.output().len(),
    {
        self.n_generated
    }

    /// A token was embedded: the first layer is due.
    pub fn embedded(&mut self)
        requires
            old(self).wf(),
            old(self).due() is Embed,
        ensures
            final(self).wf(),
            final(self).same_run(old(self)),
            final(self).same_output(old(self)),
            final(self).steps() == old(self).steps(),
            final(self).due() == Action::Layer(
                0,
                old(self).due()->Embed_0,
                old(self).due()->Embed_1,
            ),
    {
        if let Action::Embed(token, pos) = self.next {
            self.next = Action::Layer(0, token, pos);
        }
    }

    /// A layer was run on a token: the next layer is due. Behind the last layer the
    /// next prompt token is, or, at the end of the prompt and after each chosen
    /// token, the logits. Where no token is asked for, the generation is over.
    pub fn layered(&mut self)
        requires
            old(self).wf(),
            old(self).due() is Layer,
        ensures
            final(self).wf(),
            final(self).same_run(old(self)),
            final(self).same_output(old(self)),
            ({
                let (il, token, pos) = (
                    old(self).due()->Layer_0,
                    old(self).due()->Layer_1,
                    old(self).due()->Layer_2,
                );
                &&& final(self).steps() == old(self).steps().push((il, token, pos))
                &&& final(self).due() == (if il + 1 < N_LAYER {
                    Action::Layer((il + 1) as u32, token, pos)
                } else if pos + 1 < old(self).prompt().len() {
                    Action::Embed(old(self).prompt()[pos + 1], (pos + 1) as u64)
                } else if old(self).limit() == 0 {
                    Action::Announce
                } else {
                    Action::Score
                })
            }),
    {
        if let Action::Layer(il, token, pos) = self.next {
            proof {
                lemma_step_number(il as int, pos as int);
            }
            self.ran = Ghost(self.ran@.push((il, token, pos)));
            let n: u64 = self.prompt.len() as u64;
            if il + 1 < N_LAYER {
                self.next = Action::Layer(il + 1, token, pos);
            } else if pos < n && n - pos > 1 {
                let at: usize = pos as usize + 1;
                self.next = Action::Embed(self.prompt[at], pos + 1);
            } else if self.n_predict <= 0 {
                self.next = Action::Announce;
            } else {
                self.next = Action::Score;
            }
            assert(self.steps() =~= layer_steps(self.all(), self.steps().len() as int));
        }
    }

    /// Logits were computed: the greedy choice is emitted and then run, unless
    /// it ends the text, which ends the generation without being emitted. The
    /// last token asked for is emitted but not run.
    pub fn scored<S: TokenSink>(&mut self, logits: &[u32], sink: &mut S)
        requires
            old(self).wf(),
            old(self).due() is Score,
            logits@.len() > 0,
        ensures
            final(self).wf(),
            final(self).same_run(old(self)),
            final(self).steps() == old(self).steps(),
            final(self).scores() == old(self).scores().push(logits@),
            final(sink).finished() == old(sink).finished(),
            ({
                let token = wrapped_i32(argmax_of(logits@));
                if token == old(self).end() {
                    &&& final(self).due() == Action::Announce
                    &&& final(self).output() == old(self).output()
                    &&& final(sink).emitted() == old(sink).emitted()
                } else {
                    &&& final(self).output() == old(self).output().push(token)
                    &&& final(sink).emitted() == old(sink).emitted().push(token)
                    &&& final(self).due() == if final(self).output().len() == old(self).limit() {
                        Action::Announce
                    } else {
                        Action::Embed(token, old(self).all().len() as u64)
                    }
                }
            }),
    {
        let token: i32 = argmax(logits);
        proof {
            lemma_emitted_turn(self.scores(), logits@, self.limit(), self.end());
        }
        self.rows = Ghost(self.rows@.push(logits@));
        if token == self.eos {
            self.next = Action::Announce;
            return;
        }
        sink.emit(token);
        let pos: u64 = self.prompt.len() as u64 + self.n_generated as u64;
        self.n_generated = self.n_generated + 1;
        self.out = Ghost(self.out@.push(token));
        if self.n_generated == self.n_predict {
            self.next = Action::Announce;
        } else {
            self.next = Action::Embed(token, pos);
        }
        proof {
            let before = old(self).all();
            assert(self.all() =~= before.push(token));
            let n = self.steps().len() as int;
            assert forall|k: int| 0 <= k < n implies #[trigger] layer_step(before, k)
                == layer_step(self.all(), k) by {
                lemma_step_token(k, before.len() as int);
            }
            assert(layer_steps(before, n) =~= layer_steps(self.all(), n));
        }
    }

    /// The generation is over: tell the sink. This can be done only once.
    pub fn finish<S: TokenSink>(&mut self, sink: &mut S)
        requires
            old(self).wf(),
            old(self).due() is Announce,
        ensures
            final(self).wf(),
            final(self).same_run(old(self)),
            final(self).same_output(old(self)),
            final(self).steps() == old(self).steps(),
            final(self).due() == Action::Finish,
            final(sink).finished(),
            final(sink).emitted() == old(sink).emitted(),
    {
        sink.done();
        self.next = Action::Finish;
    }
}

/// The step of layer `il` on the token at `pos`, by its number.
proof fn lemma_step_number(il: int, pos: int)
    requires
        0 <= il < N_LAYER,
        0 <= pos,
    ensures
        (N_LAYER * pos + il) / N_LAYER as int == pos,
        (N_LAYER * pos + il) % N_LAYER as int == il,
        il + 1 == N_LAYER ==> N_LAYER * pos + il + 1 == N_LAYER * (pos + 1),
{
}

/// A step on the first `count` tokens is on one of them.
proof fn lemma_step_token(k: int, count: int)
    requires
        0 <= k < N_LAYER * count,
    ensures
        0 <= k / N_LAYER as int,
        k / (N_LAYER as int) < count,
{
}

/// A generation that is over has run all layers in order on every prompt token and
/// every emitted token, but for the last token asked for, and has emitted what its
/// logits give: as many tokens as asked for, or fewer only where the next choice
/// ends the text, and never the token that ends the text.
pub proof fn lemma_generation_complete(g: &CpuGenerate)
    requires
        g.wf(),
        g.due() == Action::Finish,
    ensures
        g.steps() == layer_steps(g.all(), N_LAYER * g.total_runs()),
        g.output().len() < g.limit() || g.limit() == 0 ==> g.steps().len() == 43 * (g.prompt().len()
            + g.output().len()),
        g.output().len() == g.limit() && g.limit() > 0 ==> g.steps().len() == 43 * (g.prompt().len()
            + g.output().len() - 1),
        g.output() == emitted_from(g.scores(), g.limit(), g.end()),
        g.output().len() <= g.limit(),
        g.output().len() < g.limit() ==> g.scores().len() == g.output().len() + 1 && wrapped_i32(
            argmax_of(g.scores().last()),
        ) == g.end(),
        forall|i: int| 0 <= i < g.output().len() ==> #[trigger] g.output()[i] != g.end(),
{
    lemma_emitted_bounds(g.scores(), g.limit(), g.end());
}

/// The tokens that a run of greedy choices from successive logits emits: up to
/// `limit`, and up to the first that ends the text.
pub open spec fn emitted_from(logits: Seq<Seq<u32>>, limit: int, end: i32) -> Seq<i32>
    decreases logits.len(),
{
    if logits.len() == 0 || limit <= 0 {
        seq![]
    } else {
        let token = wrapped_i32(argmax_of(logits[0]));
        if token == end {
            seq![]
        } else {
            seq![token] + emitted_from(logits.drop_first(), limit - 1, end)
        }
    }
}

/// What is emitted never holds the token that ends the text, and never exceeds
/// the limit.
pub proof fn lemma_emitted_bounds(logits: Seq<Seq<u32>>, limit: int, end: i32)
    requires
        limit >= 0,
    ensures
        emitted_from(logits, limit, end).len() <= limit,
        forall|i: int|
            0 <= i < emitted_from(logits, limit, end).len() ==> #[trigger] emitted_from(
                logits,
                limit,
                end,
            )[i] != end,
    decreases logits.len(),
{
    if logits.len() > 0 && limit > 0 {
        lemma_emitted_bounds(logits.drop_first(), limit - 1, end);
    }
}

/// One more turn: while every choice so far was emitted and more are asked for,
/// the choice from the next logits is emitted, unless it ends the text. This is
/// what each turn of a generation does, so that after any number of turns what
/// was emitted is what the logits of those turns give.
pub proof fn lemma_emitted_turn(logits: Seq<Seq<u32>>, row: Seq<u32>, limit: int, end: i32)
    requires
        emitted_from(logits, limit, end).len() == logits.len(),
        logits.len() < limit,
    ensures
        emitted_from(logits.push(row), limit, end) == (if wrapped_i32(argmax_of(row)) == end {
            emitted_from(logits, limit, end)
        } else {
            emitted_from(logits, limit, end).push(wrapped_i32(argmax_of(row)))
        }),
    decreases logits.len(),
{
    let token = wrapped_i32(argmax_of(row));
    let all = logits.push(row);
    if logits.len() == 0 {
        assert(all.drop_first() =~= Seq::<Seq<u32>>::empty());
        assert(emitted_from(all.drop_first(), limit - 1, end) =~= Seq::<i32>::empty());
        assert(seq![token] + Seq::<i32>::empty() =~= Seq::<i32>::empty().push(token));
    } else {
        let first = wrapped_i32(argmax_of(logits[0]));
        let rest = logits.drop_first();
        assert(all.drop_first() =~= rest.push(row));
        assert(all[0] == logits[0]);
        lemma_emitted_turn(rest, row, limit - 1, end);
        let tail = emitted_from(rest, limit - 1, end);
        assert((seq![first] + tail).push(token) =~= seq![first] + tail.push(token));
    }
}

/// The layers run in order on one token after the other: step `il` of the steps on
/// token `i` is layer `il`, on that token, at position `i`.
pub proof fn lemma_layer_order(all: Seq<i32>, runs: int, i: int, il: int)
    requires
        0 <= i < runs <= all.len() <= u64::MAX,
        0 <= il < 43,
    ensures
        layer_steps(all, 43 * runs).len() == 43 * runs,
        layer_steps(all, 43 * runs)[43 * i + il] == (il as u32, all[i], i as u64),
{
    lemma_step_number(il, i);
    assert(43 * i + il < 43 * runs);
}

/// What is emitted, turn by turn: while tokens are asked for, the greedy choice from
/// the next logits, up to the first choice that ends the text.
pub proof fn lemma_emitted_first(logits: Seq<Seq<u32>>, limit: int, end: i32)
    ensures
        limit <= 0 ==> emitted_from(logits, limit, end) == Seq::<i32>::empty(),
        logits.len() > 0 && limit > 0 && wrapped_i32(argmax_of(logits[0])) != end ==> emitted_from(
            logits,
            limit,
            end,
        ) == seq![wrapped_i32(argmax_of(logits[0]))] + emitted_from(
            logits.skip(1),
            limit - 1,
            end,
        ),
        logits.len() > 0 && wrapped_i32(argmax_of(logits[0])) == end ==> emitted_from(
            logits,
            limit,
            end,
        ) == Seq::<i32>::empty(),
{
    assert(logits.skip(1) =~= logits.drop_first());
}

} // verus!
