//! Chat prompt encoding.
//!
//! The chat template is fixed:
//!
//! ```text
//! [bos]
//! [max-effort instructions, for the highest think mode]
//! [system text]
//! [user role]
//! [user prompt]
//! [assistant role]
//! [think start, or think end without thinking]
//! ```

use crate::api::{ThinkMode, Tokens};
use crate::engine::Engine;
use crate::text::str_eq;
use crate::tokenizer::Tokenizer;
use vstd::prelude::*;
use vstd::string::*;
use vstd::utf8::encode_utf8;

verus! {

/// A special token, where the model has it.
pub open spec fn special(id: i32) -> Seq<i32> {
    if id >= 0 {
        seq![id]
    } else {
        seq![]
    }
}

/// The tokens of plain text.
pub open spec fn plain(t: &Tokenizer, text: Seq<char>) -> Seq<i32> {
    t.plain_tokens(encode_utf8(text))
}

/// The token that a role stands for, `-1` for a role that has none.
pub open spec fn role_token(t: &Tokenizer, role: Seq<char>) -> i32 {
    if role == "user"@ {
        t.user_role
    } else if role == "assistant"@ {
        t.assistant_role
    } else if role == "system"@ {
        t.system_role
    } else {
        -1i32
    }
}

/// A message: its role, then its text.
pub open spec fn message(t: &Tokenizer, role: Seq<char>, content: Seq<char>) -> Seq<i32> {
    special(role_token(t, role)) + plain(t, content)
}

/// The instructions of the highest think mode.
pub open spec fn effort(t: &Tokenizer, mode: ThinkMode, effort_prefix: Seq<char>) -> Seq<i32> {
    if mode == ThinkMode::Max {
        plain(t, effort_prefix)
    } else {
        seq![]
    }
}

/// What makes the assistant answer: its role, then thinking opened or closed.
pub open spec fn assistant_prefix(t: &Tokenizer, mode: ThinkMode) -> Seq<i32> {
    special(t.assistant_role) + special(
        if mode == ThinkMode::Off {
            t.think_end
        } else {
            t.think_start
        },
    )
}

/// A whole prompt.
pub open spec fn chat_prompt(
    t: &Tokenizer,
    system: Seq<char>,
    prompt: Seq<char>,
    mode: ThinkMode,
    effort_prefix: Seq<char>,
) -> Seq<i32> {
    let system_tokens = if system.len() > 0 {
        plain(t, system)
    } else {
        seq![]
    };
    special(t.bos) + effort(t, mode, effort_prefix) + system_tokens + special(t.user_role) + plain(
        t,
        prompt,
    ) + assistant_prefix(t, mode)
}

fn push_special(tokens: &mut Tokens, id: i32)
    ensures
        final(tokens)@ == old(tokens)@ + special(id),
{
    if id >= 0 {
        tokens.push(id);
    }
    assert(tokens@ =~= old(tokens)@ + special(id));
}

/// Start a prompt.
pub fn begin(engine: &Engine, tokens: &mut Tokens)
    ensures
        final(tokens)@ == old(tokens)@ + special(engine.tokenizer.bos),
{
    push_special(tokens, engine.tokenizer().bos);
}

/// Append the max-effort instructions.
pub fn append_max_effort_prefix(engine: &Engine, tokens: &mut Tokens, effort_prefix: &str)
    ensures
        final(tokens)@ == old(tokens)@ + plain(&engine.tokenizer, effort_prefix@),
{
    let mut buf: Tokens = Tokens::new();
    engine.tokenizer().encode(effort_prefix, &mut buf);
    assert(buf@ =~= plain(&engine.tokenizer, effort_prefix@));
    tokens.extend(buf.as_slice());
}

/// Append a message. A role that the model has no token for is left out.
pub fn append_message(engine: &Engine, tokens: &mut Tokens, role: &str, content: &str)
    ensures
        final(tokens)@ == old(tokens)@ + message(&engine.tokenizer, role@, content@),
{
    let t: &Tokenizer = engine.tokenizer();
    let role_id: i32 = if str_eq(role, "user") {
        t.user_role
    } else if str_eq(role, "assistant") {
        t.assistant_role
    } else if str_eq(role, "system") {
        t.system_role
    } else {
        -1
    };
    push_special(tokens, role_id);
    t.encode(content, tokens);
    assert(tokens@ =~= old(tokens)@ + message(&engine.tokenizer, role@, content@));
}

/// Append what makes the assistant answer.
pub fn append_assistant_prefix(engine: &Engine, tokens: &mut Tokens, think_mode: ThinkMode)
    ensures
        final(tokens)@ == old(tokens)@ + assistant_prefix(&engine.tokenizer, think_mode),
{
    let t: &Tokenizer = engine.tokenizer();
    push_special(tokens, t.assistant_role);
    if think_mode.enabled() {
        push_special(tokens, t.think_start);
    } else {
        push_special(tokens, t.think_end);
    }
    assert(tokens@ =~= old(tokens)@ + assistant_prefix(&engine.tokenizer, think_mode));
}

/// Encode a whole prompt.
pub fn encode_chat_prompt(
    engine: &Engine,
    system: Option<&str>,
    prompt: &str,
    think_mode: ThinkMode,
    effort_prefix: &str,
    out: &mut Tokens,
)
    ensures
        final(out)@ == old(out)@ + chat_prompt(
            &engine.tokenizer,
            match system {
                Some(s) => s@,
                None => seq![],
            },
            prompt@,
            think_mode,
            effort_prefix@,
        ),
{
    let t: &Tokenizer = engine.tokenizer();
    let ghost base = out@;
    let ghost sys = match system {
        Some(s) => s@,
        None => seq![],
    };
    let ghost mut done = special(t.bos);
    begin(engine, out);
    if matches!(think_mode, ThinkMode::Max) {
        append_max_effort_prefix(engine, out, effort_prefix);
    }
    proof {
        let part = effort(t, think_mode, effort_prefix@);
        assert(out@ =~= base + (done + part));
        done = done + part;
    }
    if let Some(text) = system {
        if text.unicode_len() > 0 {
            t.encode(text, out);
        }
    }
    proof {
        let part = if sys.len() > 0 {
            plain(t, sys)
        } else {
            seq![]
        };
        assert(out@ =~= base + (done + part));
        done = done + part;
    }
    push_special(out, t.user_role);
    assert(out@ =~= base + (done + special(t.user_role)));
    t.encode(prompt, out);
    assert(out@ =~= base + (done + special(t.user_role) + plain(t, prompt@)));
    append_assistant_prefix(engine, out, think_mode);
    assert(out@ =~= base + (done + special(t.user_role) + plain(t, prompt@) + assistant_prefix(
        t,
        think_mode,
    )));
}

/// A token that the model has is there, one that it lacks is left out.
pub open spec fn if_any(id: i32) -> Seq<i32> {
    if id < 0 {
        Seq::empty()
    } else {
        Seq::empty().push(id)
    }
}

/// A message is the token of its role, for the user, the assistant and the system,
/// and then the tokens of all of its text; other roles have no token.
pub proof fn lemma_message_parts(t: &Tokenizer, role: Seq<char>, content: Seq<char>)
    ensures
        role == "user"@ ==> message(t, role, content) == if_any(t.user_role) + t.plain_tokens(
            encode_utf8(content),
        ),
        role == "assistant"@ ==> message(t, role, content) == if_any(t.assistant_role)
            + t.plain_tokens(encode_utf8(content)),
        role == "system"@ ==> message(t, role, content) == if_any(t.system_role) + t.plain_tokens(
            encode_utf8(content),
        ),
        role != "user"@ && role != "assistant"@ && role != "system"@ ==> message(t, role, content)
            == t.plain_tokens(encode_utf8(content)),
{
    reveal_strlit("user");
    reveal_strlit("assistant");
    reveal_strlit("system");
    assert("user"@.len() == 4 && "assistant"@.len() == 9 && "system"@.len() == 6);
    lemma_special_parts(role_token(t, role));
    assert(message(t, role, content) =~= if_any(role_token(t, role)) + t.plain_tokens(
        encode_utf8(content),
    ));
}

proof fn lemma_special_parts(id: i32)
    ensures
        special(id) == if_any(id),
{
    assert(special(id) =~= if_any(id));
}

/// What makes the assistant answer is its role, then the token that opens thinking,
/// or, without thinking, the one that closes it.
pub proof fn lemma_assistant_parts(t: &Tokenizer, mode: ThinkMode)
    ensures
        mode == ThinkMode::Off ==> assistant_prefix(t, mode) == if_any(t.assistant_role) + if_any(
            t.think_end,
        ),
        mode == ThinkMode::High || mode == ThinkMode::Max ==> assistant_prefix(t, mode) == if_any(
            t.assistant_role,
        ) + if_any(t.think_start),
{
    lemma_special_parts(t.assistant_role);
    lemma_special_parts(t.think_end);
    lemma_special_parts(t.think_start);
}

/// A whole prompt of a model that has all the tokens: the start of the text, the
/// instructions where the mode is the highest, the system text, the user's token
/// and text, the assistant's token, and the one that opens or closes thinking.
pub proof fn lemma_prompt_parts(
    t: &Tokenizer,
    system: Seq<char>,
    prompt: Seq<char>,
    mode: ThinkMode,
    effort_prefix: Seq<char>,
)
    requires
        t.bos >= 0,
        t.user_role >= 0,
        t.assistant_role >= 0,
        t.think_start >= 0,
        t.think_end >= 0,
    ensures
        ({
            let instructions = if mode == ThinkMode::Max {
                t.plain_tokens(encode_utf8(effort_prefix))
            } else {
                Seq::empty()
            };
            chat_prompt(t, system, prompt, mode, effort_prefix) == seq![t.bos] + instructions
                + t.plain_tokens(encode_utf8(system)) + seq![t.user_role] + t.plain_tokens(
                encode_utf8(prompt),
            ) + seq![
                t.assistant_role,
                if mode == ThinkMode::Off {
                    t.think_end
                } else {
                    t.think_start
                },
            ]
        }),
{
    if system.len() == 0 {
        assert(system =~= Seq::<char>::empty());
        assert(encode_utf8(Seq::<char>::empty()) =~= Seq::<u8>::empty());
        assert(crate::tokenizer::pretok::spans(Seq::<u8>::empty(), 0) =~= Seq::<Seq<u8>>::empty());
        assert(t.plain_tokens(Seq::<u8>::empty()) =~= Seq::<i32>::empty());
    }
    let last = if mode == ThinkMode::Off {
        t.think_end
    } else {
        t.think_start
    };
    assert(assistant_prefix(t, mode) =~= seq![t.assistant_role, last]);
}

} // verus!
