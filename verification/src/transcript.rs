//! Chat transcript.
//!
//! Holds the turns of a conversation and turns them into a tokenized prompt.
//! Walking the turns one by one keeps the reuse of the key/value cache working:
//! a longer conversation starts with the tokens of the shorter one.

use crate::api::{ThinkMode, Tokens};
use crate::chat::{
    append_assistant_prefix, append_max_effort_prefix, append_message, assistant_prefix, begin,
    chat_prompt, effort, if_any, lemma_message_parts, message, plain, special,
};
use crate::engine::Engine;
use crate::tokenizer::pretok::spans;
use crate::tokenizer::Tokenizer;
use vstd::prelude::*;
use vstd::string::*;
use vstd::utf8::encode_utf8;

verus! {

/// One message of a conversation.
#[derive(Debug, Clone)]
pub struct Turn {
    pub role: String,
    pub content: String,
}

/// A conversation.
#[derive(Debug)]
pub struct Transcript {
    pub turns: Vec<Turn>,
    pub system: Option<String>,
}

/// A turn's role and content.
pub open spec fn turn_view(t: Turn) -> (Seq<char>, Seq<char>) {
    (t.role@, t.content@)
}

impl Default for Transcript {
    fn default() -> (r: Self)
        ensures
            r.turns@ == Seq::<Turn>::empty(),
            r.system is None,
    {
        Transcript { turns: Vec::new(), system: None }
    }
}

/// The tokens of the first `n` turns.
pub open spec fn turns_tokens(t: &Tokenizer, turns: Seq<Turn>, n: int) -> Seq<i32>
    decreases n,
{
    if n <= 0 {
        seq![]
    } else {
        turns_tokens(t, turns, n - 1) + message(
            t,
            turns[n - 1].role@,
            turns[n - 1].content@,
        )
    }
}

impl Transcript {
    /// The tokens before the first turn.
    pub open spec fn opening(&self, t: &Tokenizer, think: ThinkMode, effort_prefix: Seq<char>) -> Seq<
        i32,
    > {
        special(t.bos) + effort(t, think, effort_prefix) + (match self.system {
            Some(s) => plain(t, s@),
            None => seq![],
        })
    }

    /// The tokens of everything that was said, before the assistant answers.
    pub open spec fn spoken(&self, t: &Tokenizer, think: ThinkMode, effort_prefix: Seq<char>) -> Seq<
        i32,
    > {
        self.opening(t, think, effort_prefix) + turns_tokens(
            t,
            self.turns@,
            self.turns@.len() as int,
        )
    }

    pub fn new() -> (r: Self)
        ensures
            r.turns@ == Seq::<Turn>::empty(),
            r.system is None,
    {
        Transcript { turns: Vec::new(), system: None }
    }

    /// Set the system prompt, in place of any earlier one.
    pub fn set_system(&mut self, s: &str)
        ensures
            final(self).system is Some,
            final(self).system->0@ == s@,
            final(self).turns == old(self).turns,
    {
        self.system = Some(s.to_owned());
    }

    /// Record what the user said.
    pub fn push_user(&mut self, content: &str)
        ensures
            final(self).turns@.len() == old(self).turns@.len() + 1,
            final(self).turns@.drop_last() == old(self).turns@,
            turn_view(final(self).turns@.last()) == ("user"@, content@),
            final(self).system == old(self).system,
    {
        self.turns.push(Turn { role: String::from_str("user"), content: content.to_owned() });
        assert(self.turns@.drop_last() =~= old(self).turns@);
    }

    /// Record what the assistant said.
    pub fn push_assistant(&mut self, content: &str)
        ensures
            final(self).turns@.len() == old(self).turns@.len() + 1,
            final(self).turns@.drop_last() == old(self).turns@,
            turn_view(final(self).turns@.last()) == ("assistant"@, content@),
            final(self).system == old(self).system,
    {
        self.turns.push(Turn { role: String::from_str("assistant"), content: content.to_owned() });
        assert(self.turns@.drop_last() =~= old(self).turns@);
    }

    /// Append the tokens of the conversation, ready for the assistant's answer.
    pub fn render(&self, engine: &Engine, think: ThinkMode, effort_prefix: &str, out: &mut Tokens)
        ensures
            final(out)@ == old(out)@ + self.spoken(&engine.tokenizer, think, effort_prefix@)
                + assistant_prefix(&engine.tokenizer, think),
    {
        let ghost t = &engine.tokenizer;
        begin(engine, out);
        if matches!(think, ThinkMode::Max) {
            append_max_effort_prefix(engine, out, effort_prefix);
        }
        if let Some(sys) = &self.system {
            engine.tokenizer().encode(sys.as_str(), out);
        }
        let ghost head = self.opening(t, think, effort_prefix@);
        assert(out@ =~= old(out)@ + head);
        let mut i: usize = 0;
        assert(out@ =~= old(out)@ + head + turns_tokens(t, self.turns@, 0));
        while i < self.turns.len()
            invariant
                i <= self.turns@.len(),
                t == &engine.tokenizer,
                out@ == old(out)@ + head + turns_tokens(t, self.turns@, i as int),
            decreases self.turns@.len() - i,
        {
            append_message(
                engine,
                out,
                self.turns[i].role.as_str(),
                self.turns[i].content.as_str(),
            );
            i = i + 1;
            assert(out@ =~= old(out)@ + head + turns_tokens(t, self.turns@, i as int));
        }
        append_assistant_prefix(engine, out, think);
        assert(out@ =~= old(out)@ + self.spoken(&engine.tokenizer, think, effort_prefix@)
            + assistant_prefix(&engine.tokenizer, think));
    }
}

proof fn lemma_turns_prefix(t: &Tokenizer, a: Seq<Turn>, b: Seq<Turn>, n: int)
    requires
        0 <= n <= a.len() <= b.len(),
        b.take(a.len() as int) == a,
    ensures
        turns_tokens(t, a, n) == turns_tokens(t, b, n),
    decreases n,
{
    if n > 0 {
        lemma_turns_prefix(t, a, b, n - 1);
        assert(b.take(a.len() as int)[n - 1] == b[n - 1]);
    }
}

proof fn lemma_turns_extend(t: &Tokenizer, turns: Seq<Turn>, m: int, n: int)
    requires
        0 <= m <= n,
    ensures
        turns_tokens(t, turns, m).len() <= turns_tokens(t, turns, n).len(),
        turns_tokens(t, turns, n).take(turns_tokens(t, turns, m).len() as int) == turns_tokens(
            t,
            turns,
            m,
        ),
    decreases n - m,
{
    if m < n {
        lemma_turns_extend(t, turns, m, n - 1);
        let a = turns_tokens(t, turns, m);
        let b = turns_tokens(t, turns, n - 1);
        let c = turns_tokens(t, turns, n);
        assert(c.take(a.len() as int) =~= b.take(a.len() as int));
    } else {
        let a = turns_tokens(t, turns, m);
        assert(a.take(a.len() as int) =~= a);
    }
}

/// A conversation that goes on starts with the tokens of the shorter one, so
/// that a session can reuse its cache for them.
pub proof fn lemma_longer_transcript_extends(
    t: &Tokenizer,
    shorter: &Transcript,
    longer: &Transcript,
    think: ThinkMode,
    effort_prefix: Seq<char>,
)
    requires
        shorter.system == longer.system,
        shorter.turns@.len() <= longer.turns@.len(),
        longer.turns@.take(shorter.turns@.len() as int) == shorter.turns@,
    ensures
        ({
            let a = shorter.spoken(t, think, effort_prefix);
            let b = longer.spoken(t, think, effort_prefix);
            a.len() <= b.len() && b.take(a.len() as int) == a
        }),
{
    let m = shorter.turns@.len() as int;
    let n = longer.turns@.len() as int;
    lemma_turns_prefix(t, shorter.turns@, longer.turns@, m);
    lemma_turns_extend(t, longer.turns@, m, n);
    let head = longer.opening(t, think, effort_prefix);
    let x = turns_tokens(t, longer.turns@, m);
    let y = turns_tokens(t, longer.turns@, n);
    assert((head + y).take((head + x).len() as int) =~= head + y.take(x.len() as int));
}

/// A conversation of one question is the chat prompt of that question.
pub proof fn lemma_single_question(
    t: &Tokenizer,
    one: &Transcript,
    think: ThinkMode,
    effort_prefix: Seq<char>,
)
    requires
        one.turns@.len() == 1,
        one.turns@[0].role@ == "user"@,
    ensures
        one.spoken(t, think, effort_prefix) + assistant_prefix(t, think) == chat_prompt(
            t,
            match one.system {
                Some(s) => s@,
                None => seq![],
            },
            one.turns@[0].content@,
            think,
            effort_prefix,
        ),
{
    let content = one.turns@[0].content@;
    let head = one.opening(t, think, effort_prefix);
    assert(turns_tokens(t, one.turns@, 1) =~= special(t.user_role) + plain(t, content)) by {
        assert(turns_tokens(t, one.turns@, 0) =~= Seq::<i32>::empty());
        reveal_with_fuel(turns_tokens, 2);
    }
    assert(plain(t, seq![]) =~= Seq::<i32>::empty()) by {
        assert(encode_utf8(Seq::<char>::empty()) =~= Seq::<u8>::empty());
        assert(spans(Seq::<u8>::empty(), 0) =~= Seq::<Seq<u8>>::empty());
    }
    match one.system {
        Some(s) => {
            if s@.len() == 0 {
                assert(s@ =~= seq![]);
            }
        },
        None => {},
    }
    assert(head + (special(t.user_role) + plain(t, content)) + assistant_prefix(t, think) =~= head
        + special(t.user_role) + plain(t, content) + assistant_prefix(t, think));
}

/// A further turn of a conversation adds exactly its message behind all that was
/// said before, however long the conversation is: the token of its role and the
/// tokens of its content.
pub proof fn lemma_turn_appends(
    t: &Tokenizer,
    shorter: &Transcript,
    longer: &Transcript,
    turn: Turn,
    think: ThinkMode,
    effort_prefix: Seq<char>,
)
    requires
        shorter.system == longer.system,
        longer.turns@ == shorter.turns@.push(turn),
    ensures
        longer.spoken(t, think, effort_prefix) == shorter.spoken(t, think, effort_prefix)
            + message(t, turn.role@, turn.content@),
        turn.role@ == "user"@ ==> longer.spoken(t, think, effort_prefix) == shorter.spoken(
            t,
            think,
            effort_prefix,
        ) + (if_any(t.user_role) + t.plain_tokens(encode_utf8(turn.content@))),
        turn.role@ == "assistant"@ ==> longer.spoken(t, think, effort_prefix) == shorter.spoken(
            t,
            think,
            effort_prefix,
        ) + (if_any(t.assistant_role) + t.plain_tokens(encode_utf8(turn.content@))),
{
    let n = shorter.turns@.len() as int;
    assert(longer.turns@.take(n) =~= shorter.turns@);
    lemma_turns_prefix(t, shorter.turns@, longer.turns@, n);
    lemma_message_parts(t, turn.role@, turn.content@);
    let head = longer.opening(t, think, effort_prefix);
    let before = turns_tokens(t, longer.turns@, n);
    let more = message(t, turn.role@, turn.content@);
    assert(turns_tokens(t, longer.turns@, n + 1) == before + more);
    assert(head + (before + more) =~= head + before + more);
}

/// A conversation without turns is what comes before the first turn: the start of
/// the text, the instructions where the mode is the highest, and the system text.
pub proof fn lemma_no_turns(
    t: &Tokenizer,
    empty: &Transcript,
    think: ThinkMode,
    effort_prefix: Seq<char>,
)
    requires
        empty.turns@.len() == 0,
    ensures
        empty.spoken(t, think, effort_prefix) == if_any(t.bos) + (if think == ThinkMode::Max {
            t.plain_tokens(encode_utf8(effort_prefix))
        } else {
            Seq::empty()
        }) + (match empty.system {
            Some(s) => t.plain_tokens(encode_utf8(s@)),
            None => Seq::empty(),
        }),
{
    assert(special(t.bos) =~= if_any(t.bos));
    assert(empty.spoken(t, think, effort_prefix) =~= empty.opening(t, think, effort_prefix));
}

} // verus!
