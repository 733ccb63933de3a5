//! Logging helpers.
//!
//! Log lines are colorized if the stream they go to is a terminal. A stream is
//! anything that implements [`Tty`].

use crate::api::{Error, LogType};
use vstd::prelude::*;
use vstd::string::*;

verus! {

/// A stream of text that knows whether it is a terminal. A verified stream
/// defines for itself what was written.
pub trait Tty {
    /// Whether the stream is a terminal.
    open spec fn terminal(&self) -> bool {
        false
    }

    /// What was written so far.
    open spec fn written(&self) -> Seq<char> {
        seq![]
    }

    /// Writing is sure to succeed.
    open spec fn reliable(&self) -> bool {
        false
    }

    fn is_tty(&self) -> (r: bool)
        ensures
            r == self.terminal(),
    ;

    /// Write a text. If it fails, any part of the text may have been written.
    fn put(&mut self, text: &str) -> (r: Result<(), Error>)
        ensures
            r is Ok ==> final(self).written() == old(self).written() + text@,
            r is Err ==> !old(self).reliable(),
            final(self).terminal() == old(self).terminal(),
            final(self).reliable() == old(self).reliable(),
    ;
}

/// A stream that keeps its text in memory.
#[derive(Debug)]
pub struct LogBuffer {
    pub color: bool,
    pub text: String,
}

impl Tty for LogBuffer {
    open spec fn terminal(&self) -> bool {
        self.color
    }

    open spec fn written(&self) -> Seq<char> {
        self.text@
    }

    open spec fn reliable(&self) -> bool {
        true
    }

    fn is_tty(&self) -> (r: bool) {
        self.color
    }

    fn put(&mut self, text: &str) -> (r: Result<(), Error>) {
        self.text.append(text);
        Ok(())
    }
}

/// Whether a stream is a terminal.
pub fn is_tty<W: Tty>(fp: &W) -> (r: bool)
    ensures
        r == fp.terminal(),
{
    fp.is_tty()
}

/// The tag that a log line starts with.
pub open spec fn prefix_of(t: LogType, color: bool) -> Seq<char> {
    if !color {
        match t {
            LogType::Default => ""@,
            LogType::Prefill => "[prefill] "@,
            LogType::Generation => "[gen] "@,
            LogType::KvCache => "[kv] "@,
            LogType::Tool => "[tool] "@,
            LogType::Warning => "[warn] "@,
            LogType::Timing => "[time] "@,
            LogType::Success => "[ok] "@,
            LogType::Error => "[err] "@,
        }
    } else {
        match t {
            LogType::Default => ""@,
            LogType::Prefill => "\x1b[36m[prefill]\x1b[0m "@,
            LogType::Generation => "\x1b[35m[gen]\x1b[0m "@,
            LogType::KvCache => "\x1b[34m[kv]\x1b[0m "@,
            LogType::Tool => "\x1b[33m[tool]\x1b[0m "@,
            LogType::Warning => "\x1b[33m[warn]\x1b[0m "@,
            LogType::Timing => "\x1b[36m[time]\x1b[0m "@,
            LogType::Success => "\x1b[32m[ok]\x1b[0m "@,
            LogType::Error => "\x1b[31m[err]\x1b[0m "@,
        }
    }
}

/// The tag that a log line starts with.
pub fn type_prefix(t: LogType, color: bool) -> (s: &'static str)
    ensures
        s@ == prefix_of(t, color),
{
    if !color {
        return match t {
            LogType::Default => "",
            LogType::Prefill => "[prefill] ",
            LogType::Generation => "[gen] ",
            LogType::KvCache => "[kv] ",
            LogType::Tool => "[tool] ",
            LogType::Warning => "[warn] ",
            LogType::Timing => "[time] ",
            LogType::Success => "[ok] ",
            LogType::Error => "[err] ",
        };
    }
    match t {
        LogType::Default => "",
        LogType::Prefill => "\x1b[36m[prefill]\x1b[0m ",
        LogType::Generation => "\x1b[35m[gen]\x1b[0m ",
        LogType::KvCache => "\x1b[34m[kv]\x1b[0m ",
        LogType::Tool => "\x1b[33m[tool]\x1b[0m ",
        LogType::Warning => "\x1b[33m[warn]\x1b[0m ",
        LogType::Timing => "\x1b[36m[time]\x1b[0m ",
        LogType::Success => "\x1b[32m[ok]\x1b[0m ",
        LogType::Error => "\x1b[31m[err]\x1b[0m ",
    }
}

/// The text of a message of some type.
pub open spec fn logged(t: LogType, color: bool, msg: Seq<char>) -> Seq<char> {
    prefix_of(t, color) + msg
}

/// The text of a message of some type, as a line of its own.
pub open spec fn logged_line(t: LogType, color: bool, msg: Seq<char>) -> Seq<char> {
    if msg.len() > 0 && msg.last() == '\n' {
        logged(t, color, msg)
    } else {
        logged(t, color, msg).push('\n')
    }
}

/// Write a message with its tag. It fails only where the stream does.
pub fn write_log<W: Tty>(fp: &mut W, t: LogType, msg: &str) -> (r: Result<(), Error>)
    ensures
        r is Ok ==> final(fp).written() == old(fp).written() + logged(
            t,
            old(fp).terminal(),
            msg@,
        ),
        r is Err ==> !old(fp).reliable(),
        final(fp).terminal() == old(fp).terminal(),
        final(fp).reliable() == old(fp).reliable(),
{
    let mut text: String = String::from_str(type_prefix(t, fp.is_tty()));
    text.append(msg);
    fp.put(text.as_str())
}

/// Write a message with its tag, and a newline if the message does not already
/// end with one. It fails only where the stream does.
pub fn line<W: Tty>(fp: &mut W, t: LogType, msg: &str) -> (r: Result<(), Error>)
    ensures
        r is Ok ==> final(fp).written() == old(fp).written() + logged_line(
            t,
            old(fp).terminal(),
            msg@,
        ),
        r is Err ==> !old(fp).reliable(),
        final(fp).terminal() == old(fp).terminal(),
        final(fp).reliable() == old(fp).reliable(),
{
    let n: usize = msg.unicode_len();
    let needs_nl: bool = n == 0 || msg.get_char(n - 1) != '\n';
    match write_log(fp, t, msg) {
        Ok(()) => {},
        Err(e) => {
            return Err(e);
        },
    }
    if needs_nl {
        let ghost before = fp.written();
        match fp.put("\n") {
            Ok(()) => {},
            Err(e) => {
                return Err(e);
            },
        }
        proof {
            reveal_strlit("\n");
            assert("\n"@ =~= seq!['\n']);
            assert(before + "\n"@ =~= before.push('\n'));
            assert(fp.written() =~= old(fp).written() + logged_line(
                t,
                old(fp).terminal(),
                msg@,
            ));
        }
    }
    Ok(())
}

/// The word that a type of message is tagged with.
pub open spec fn tag_of(t: LogType) -> Seq<char> {
    match t {
        LogType::Default => ""@,
        LogType::Prefill => "[prefill]"@,
        LogType::Generation => "[gen]"@,
        LogType::KvCache => "[kv]"@,
        LogType::Tool => "[tool]"@,
        LogType::Warning => "[warn]"@,
        LogType::Timing => "[time]"@,
        LogType::Success => "[ok]"@,
        LogType::Error => "[err]"@,
    }
}

/// The color of a type of message, as a terminal knows it.
pub open spec fn color_of(t: LogType) -> Seq<char> {
    match t {
        LogType::Default => ""@,
        LogType::Prefill => "36"@,
        LogType::Generation => "35"@,
        LogType::KvCache => "34"@,
        LogType::Tool => "33"@,
        LogType::Warning => "33"@,
        LogType::Timing => "36"@,
        LogType::Success => "32"@,
        LogType::Error => "31"@,
    }
}

/// A tagged message starts with its tag and a space, on a terminal with the tag in
/// its color, which is then reset.
pub proof fn lemma_tags(t: LogType)
    ensures
        t == LogType::Default ==> prefix_of(t, false).len() == 0 && prefix_of(t, true).len() == 0,
        t != LogType::Default ==> prefix_of(t, false) == tag_of(t) + " "@,
        t != LogType::Default ==> prefix_of(t, true) == "\x1b["@ + color_of(t) + "m"@ + tag_of(t)
            + "\x1b[0m "@,
{
    reveal_strlit("");
    reveal_strlit(" ");
    reveal_strlit("m");
    reveal_strlit("\x1b[");
    reveal_strlit("\x1b[0m ");
    match t {
        LogType::Default => {},
        LogType::Prefill => {
            reveal_strlit("[prefill]");
            reveal_strlit("36");
            reveal_strlit("[prefill] ");
            reveal_strlit("\x1b[36m[prefill]\x1b[0m ");
        },
        LogType::Generation => {
            reveal_strlit("[gen]");
            reveal_strlit("35");
            reveal_strlit("[gen] ");
            reveal_strlit("\x1b[35m[gen]\x1b[0m ");
        },
        LogType::KvCache => {
            reveal_strlit("[kv]");
            reveal_strlit("34");
            reveal_strlit("[kv] ");
            reveal_strlit("\x1b[34m[kv]\x1b[0m ");
        },
        LogType::Tool => {
            reveal_strlit("[tool]");
            reveal_strlit("33");
            reveal_strlit("[tool] ");
            reveal_strlit("\x1b[33m[tool]\x1b[0m ");
        },
        LogType::Warning => {
            reveal_strlit("[warn]");
            reveal_strlit("33");
            reveal_strlit("[warn] ");
            reveal_strlit("\x1b[33m[warn]\x1b[0m ");
        },
        LogType::Timing => {
            reveal_strlit("[time]");
            reveal_strlit("36");
            reveal_strlit("[time] ");
            reveal_strlit("\x1b[36m[time]\x1b[0m ");
        },
        LogType::Success => {
            reveal_strlit("[ok]");
            reveal_strlit("32");
            reveal_strlit("[ok] ");
            reveal_strlit("\x1b[32m[ok]\x1b[0m ");
        },
        LogType::Error => {
            reveal_strlit("[err]");
            reveal_strlit("31");
            reveal_strlit("[err] ");
            reveal_strlit("\x1b[31m[err]\x1b[0m ");
        },
    }
    if t != LogType::Default {
        assert(prefix_of(t, false) =~= tag_of(t) + " "@);
        assert(prefix_of(t, true) =~= "\x1b["@ + color_of(t) + "m"@ + tag_of(t) + "\x1b[0m "@);
    }
}

/// A line ends with one newline more than the message has, or with the message's
/// own; the message is there as it is, behind its tag.
pub proof fn lemma_lines(t: LogType, color: bool, msg: Seq<char>)
    ensures
        ({
            let r = logged_line(t, color, msg);
            let n = prefix_of(t, color).len() as int;
            &&& r.len() > 0 && r.last() == '\n'
            &&& r.take(n) == prefix_of(t, color)
            &&& r.subrange(n, n + msg.len()) == msg
            &&& msg.len() > 0 && msg.last() == '\n' ==> r.len() == n + msg.len()
            &&& msg.len() == 0 || msg.last() != '\n' ==> r.len() == n + msg.len() + 1
        }),
{
    let r = logged_line(t, color, msg);
    let n = prefix_of(t, color).len() as int;
    assert(r.take(n) =~= prefix_of(t, color));
    assert(r.subrange(n, n + msg.len()) =~= msg);
}

} // verus!
