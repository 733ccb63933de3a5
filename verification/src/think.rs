//! Think-mode helpers.

use crate::api::ThinkMode;
use crate::text::{lowered, lowered_eq, trim, trimmed};
use vstd::prelude::*;
use vstd::string::*;

verus! {

/// The mode that a normalised word stands for.
pub open spec fn mode_of(word: Seq<char>) -> Option<ThinkMode> {
    if word == ""@ || word == "off"@ || word == "none"@ || word == "no"@ || word == "false"@ || word
        == "0"@ {
        Some(ThinkMode::Off)
    } else if word == "high"@ || word == "on"@ || word == "true"@ || word == "1"@ {
        Some(ThinkMode::High)
    } else if word == "max"@ || word == "full"@ {
        Some(ThinkMode::Max)
    } else {
        None
    }
}

/// Parse a `--think` style value, whatever its case and the white space around
/// it. An empty value stands for no thinking.
pub fn parse_mode(s: &str) -> (r: Option<ThinkMode>)
    ensures
        r == mode_of(lowered(trimmed(s@))),
{
    let w: &str = trim(s);
    if lowered_eq(w, "") || lowered_eq(w, "off") || lowered_eq(w, "none") || lowered_eq(w, "no")
        || lowered_eq(w, "false") || lowered_eq(w, "0") {
        return Some(ThinkMode::Off);
    }
    if lowered_eq(w, "high") || lowered_eq(w, "on") || lowered_eq(w, "true") || lowered_eq(w, "1") {
        return Some(ThinkMode::High);
    }
    if lowered_eq(w, "max") || lowered_eq(w, "full") {
        return Some(ThinkMode::Max);
    }
    None
}

/// A mode's own name stands for it.
pub proof fn lemma_mode_names(m: ThinkMode)
    ensures
        mode_of(m.label()) == Some(m),
{
    reveal_strlit("");
    reveal_strlit("off");
    reveal_strlit("none");
    reveal_strlit("no");
    reveal_strlit("false");
    reveal_strlit("0");
    reveal_strlit("high");
    reveal_strlit("on");
    reveal_strlit("true");
    reveal_strlit("1");
    reveal_strlit("max");
    reveal_strlit("full");
    assert("high"@[0] == 'h' && "none"@[0] == 'n' && "true"@[0] == 't' && "full"@[0] == 'f');
    assert("off"@[0] == 'o' && "max"@[0] == 'm');
    assert(""@.len() == 0 && "0"@.len() == 1 && "no"@.len() == 2 && "on"@.len() == 2);
    assert("1"@.len() == 1 && "false"@.len() == 5 && "high"@.len() == 4 && "max"@.len() == 3);
}

/// The words for each mode, and that no other word stands for one.
pub proof fn lemma_mode_words(word: Seq<char>)
    ensures
        mode_of(word) == Some(ThinkMode::Off) <==> word.len() == 0 || word == "off"@ || word
            == "none"@ || word == "no"@ || word == "false"@ || word == "0"@,
        mode_of(word) == Some(ThinkMode::High) <==> word == "high"@ || word == "on"@ || word
            == "true"@ || word == "1"@,
        mode_of(word) == Some(ThinkMode::Max) <==> word == "max"@ || word == "full"@,
{
    reveal_strlit("");
    reveal_strlit("off");
    reveal_strlit("none");
    reveal_strlit("no");
    reveal_strlit("false");
    reveal_strlit("0");
    reveal_strlit("high");
    reveal_strlit("on");
    reveal_strlit("true");
    reveal_strlit("1");
    reveal_strlit("max");
    reveal_strlit("full");
    if word.len() == 0 {
        assert(word =~= ""@);
    }
    assert("high"@[0] == 'h' && "none"@[0] == 'n' && "true"@[0] == 't' && "full"@[0] == 'f');
    assert("off"@[0] == 'o' && "max"@[0] == 'm' && "no"@[0] == 'n' && "on"@[0] == 'o');
    assert("0"@[0] == '0' && "1"@[0] == '1');
    assert(""@.len() == 0 && "0"@.len() == 1 && "no"@.len() == 2 && "on"@.len() == 2);
    assert("1"@.len() == 1 && "false"@.len() == 5 && "high"@.len() == 4 && "max"@.len() == 3);
    assert("off"@.len() == 3 && "none"@.len() == 4 && "true"@.len() == 4 && "full"@.len() == 4);
}

} // verus!
