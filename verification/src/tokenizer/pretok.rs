//! Pre-tokenizer.
//!
//! Splits text into runs of letters, digits, whitespace and punctuation, isolated
//! CJK characters and single other bytes before the merge engine sees it, so that
//! very common token shapes survive intact.

use super::byte_map::{utf8_len_from_first_byte, utf8_width};
use vstd::prelude::*;
use vstd::slice::slice_subrange;
use vstd::utf8::{
    decode_first_scalar, length_of_first_scalar, pop_first_scalar, valid_first_scalar, valid_utf8,
};

verus! {

pub open spec fn ascii_alpha(c: u8) -> bool {
    0x41 <= c <= 0x5a || 0x61 <= c <= 0x7a
}

pub open spec fn ascii_digit(c: u8) -> bool {
    0x30 <= c <= 0x39
}

pub open spec fn ascii_space(c: u8) -> bool {
    c == 0x20 || 0x09 <= c <= 0x0d
}

/// A byte that belongs to a letter run: an ASCII letter or any byte of a
/// non-ASCII character.
pub open spec fn letter_like(c: u8) -> bool {
    ascii_alpha(c) || c >= 0x80
}

/// The ASCII bytes that are graphic but neither letter nor digit.
pub open spec fn ascii_punct(c: u8) -> bool {
    0x21 <= c <= 0x7e && !ascii_alpha(c) && !ascii_digit(c)
}

pub open spec fn cjk_or_kana(cp: u32) -> bool {
    0x4e00 <= cp <= 0x9fa5 || 0x3040 <= cp <= 0x309f || 0x30a0 <= cp <= 0x30ff
}

/// Length of the character at `pos`: what its first byte announces, or one
/// byte where the text ends before that.
pub open spec fn step(s: Seq<u8>, pos: int) -> int {
    if pos + utf8_width(s[pos]) > s.len() {
        1
    } else {
        utf8_width(s[pos])
    }
}

/// The data bits of the character at `pos`.
pub open spec fn codepoint_at(s: Seq<u8>, pos: int) -> u32 {
    let n = step(s, pos);
    if n == 1 {
        s[pos] as u32
    } else if n == 2 {
        ((s[pos] as u32 & 0x1f) << 6) | (s[pos + 1] as u32 & 0x3f)
    } else if n == 3 {
        ((s[pos] as u32 & 0x0f) << 12) | ((s[pos + 1] as u32 & 0x3f) << 6) | (s[pos + 2] as u32
            & 0x3f)
    } else {
        ((s[pos] as u32 & 0x07) << 18) | ((s[pos + 1] as u32 & 0x3f) << 12) | ((s[pos + 2] as u32
            & 0x3f) << 6) | (s[pos + 3] as u32 & 0x3f)
    }
}

/// First position at or after `pos` whose byte is no digit.
pub open spec fn digits_end(s: Seq<u8>, pos: int) -> int
    decreases s.len() - pos,
{
    if 0 <= pos < s.len() && ascii_digit(s[pos]) {
        digits_end(s, pos + 1)
    } else {
        pos
    }
}

/// First position at or after `pos` whose byte is no whitespace.
pub open spec fn spaces_end(s: Seq<u8>, pos: int) -> int
    decreases s.len() - pos,
{
    if 0 <= pos < s.len() && ascii_space(s[pos]) {
        spaces_end(s, pos + 1)
    } else {
        pos
    }
}

/// First position at or after `pos` whose byte is no punctuation.
pub open spec fn puncts_end(s: Seq<u8>, pos: int) -> int
    decreases s.len() - pos,
{
    if 0 <= pos < s.len() && ascii_punct(s[pos]) {
        puncts_end(s, pos + 1)
    } else {
        pos
    }
}

/// A CJK or kana character starts at `pos`.
pub open spec fn cjk_at(s: Seq<u8>, pos: int) -> bool {
    s[pos] >= 0x80 && cjk_or_kana(codepoint_at(s, pos))
}

/// Where a run of letter-like characters that starts at `pos` ends, going on
/// character by character up to the first that is no letter, or is CJK.
pub open spec fn letters_end(s: Seq<u8>, pos: int) -> int
    decreases s.len() - pos,
{
    if 0 <= pos < s.len() && letter_like(s[pos]) && !cjk_at(s, pos) {
        letters_end(s, pos + step(s, pos))
    } else {
        pos
    }
}

/// Where the span that starts at `pos` ends.
pub open spec fn span_end(s: Seq<u8>, pos: int) -> int {
    if cjk_at(s, pos) {
        pos + step(s, pos)
    } else if ascii_digit(s[pos]) {
        digits_end(s, pos)
    } else if ascii_space(s[pos]) {
        spaces_end(s, pos)
    } else if letter_like(s[pos]) {
        letters_end(s, pos)
    } else if ascii_punct(s[pos]) {
        puncts_end(s, pos)
    } else {
        pos + step(s, pos)
    }
}

/// The spans of `s` from `pos` on. (Every span is non-empty and within `s`, so
/// the second condition always holds.)
pub open spec fn spans(s: Seq<u8>, pos: int) -> Seq<Seq<u8>>
    decreases s.len() - pos,
{
    if 0 <= pos < s.len() && pos < span_end(s, pos) <= s.len() {
        seq![s.subrange(pos, span_end(s, pos))] + spans(s, span_end(s, pos))
    } else {
        seq![]
    }
}

/// The pieces, one after the other.
pub open spec fn joined(pieces: Seq<Seq<u8>>) -> Seq<u8>
    decreases pieces.len(),
{
    if pieces.len() == 0 {
        seq![]
    } else {
        pieces[0] + joined(pieces.drop_first())
    }
}

pub fn is_ascii_alpha(c: u8) -> (r: bool)
    ensures
        r == ascii_alpha(c),
        r == (65 <= c <= 90 || 97 <= c <= 122),
{
    (0x41 <= c && c <= 0x5a) || (0x61 <= c && c <= 0x7a)
}

pub fn is_ascii_digit(c: u8) -> (r: bool)
    ensures
        r == ascii_digit(c),
        r == numeral(c),
{
    0x30 <= c && c <= 0x39
}

pub fn is_ascii_space(c: u8) -> (r: bool)
    ensures
        r == ascii_space(c),
        r == white(c),
{
    matches!(c, 0x20 | 0x09 | 0x0a | 0x0d | 0x0b | 0x0c)
}

pub fn is_ascii_newline(c: u8) -> (r: bool)
    ensures
        r == (c == 0x0a || c == 0x0d),
{
    matches!(c, 0x0a | 0x0d)
}

/// The ASCII bytes that are graphic but neither letter nor digit.
pub fn is_ascii_punct(c: u8) -> (r: bool)
    ensures
        r == ascii_punct(c),
        r == mark(c),
{
    matches!(c, 0x21..=0x2f | 0x3a..=0x40 | 0x5b..=0x60 | 0x7b..=0x7e)
}

/// Peek one character at `pos`: its code point and the position behind it.
pub fn utf8_peek_one(s: &[u8], pos: usize) -> (r: (u32, usize))
    requires
        pos < s.len(),
    ensures
        r.0 == codepoint_at(s@, pos as int),
        r.1 == pos + step(s@, pos as int),
        pos < r.1 <= s.len(),
        valid_first_scalar(s@.skip(pos as int)) ==> r.0 == decode_first_scalar(s@.skip(pos as int))
            && r.1 == pos + length_of_first_scalar(s@.skip(pos as int)),
{
    proof {
        if valid_first_scalar(s@.skip(pos as int)) {
            lemma_codepoint_at_utf8(s@, pos as int);
        }
    }
    let c0: u8 = s[pos];
    let mut n: usize = utf8_len_from_first_byte(c0);
    if n > s.len() - pos {
        n = 1;
    }
    let cp: u32 = match n {
        1 => c0 as u32,
        2 => ((c0 as u32 & 0x1f) << 6) | (s[pos + 1] as u32 & 0x3f),
        3 => ((c0 as u32 & 0x0f) << 12) | ((s[pos + 1] as u32 & 0x3f) << 6) | (s[pos + 2] as u32
            & 0x3f),
        _ => ((c0 as u32 & 0x07) << 18) | ((s[pos + 1] as u32 & 0x3f) << 12) | ((s[pos + 2] as u32
            & 0x3f) << 6) | (s[pos + 3] as u32 & 0x3f),
    };
    (cp, pos + n)
}

/// CJK unified ideographs, hiragana and katakana.
pub fn is_cjk_or_kana(cp: u32) -> (r: bool)
    ensures
        r == cjk_or_kana(cp),
        r == (0x4e00 <= cp <= 0x9fa5 || 0x3040 <= cp <= 0x30ff),
{
    (0x4e00 <= cp && cp <= 0x9fa5) || (0x3040 <= cp && cp <= 0x309f) || (0x30a0 <= cp && cp
        <= 0x30ff)
}

/// Whether the byte at `pos` belongs to a letter run. Non-ASCII bytes count as
/// letters; CJK characters are isolated before this rule applies.
pub fn is_letter_like(s: &[u8], pos: usize) -> (r: bool)
    requires
        pos < s.len(),
    ensures
        r == letter_like(s@[pos as int]),
        r == wordy(s@[pos as int]),
{
    let c: u8 = s[pos];
    if c < 128 {
        return is_ascii_alpha(c);
    }
    true
}

/// Whether a CJK or kana character starts at `pos`.
fn is_cjk_at(s: &[u8], pos: usize) -> (r: bool)
    requires
        pos < s.len(),
    ensures
        r == cjk_at(s@, pos as int),
{
    if s[pos] < 0x80 {
        return false;
    }
    let (cp, _) = utf8_peek_one(s, pos);
    is_cjk_or_kana(cp)
}

/// Next character boundary after `pos`.
pub fn next_utf8(s: &[u8], pos: usize) -> (next: usize)
    requires
        pos < s.len(),
    ensures
        next == pos + step(s@, pos as int),
        pos < next <= s.len(),
{
    let mut n: usize = utf8_len_from_first_byte(s[pos]);
    if n > s.len() - pos {
        n = 1;
    }
    pos + n
}

/// The spans of `s`: each CJK character by itself, runs of digits, of whitespace,
/// of letters and of punctuation, and every other byte by itself.
pub fn split_spans<'a>(s: &'a [u8]) -> (out: Vec<&'a [u8]>)
    ensures
        out@.map_values(|p: &'a [u8]| p@) == spans(s@, 0),
{
    let mut out: Vec<&'a [u8]> = Vec::new();
    let mut pos: usize = 0;
    while pos < s.len()
        invariant
            pos <= s.len(),
            out@.map_values(|p: &'a [u8]| p@) + spans(s@, pos as int) == spans(s@, 0),
        decreases s.len() - pos,
    {
        let start: usize = pos;
        let ghost before = out@.map_values(|p: &'a [u8]| p@);
        let c: u8 = s[pos];
        if is_cjk_at(s, pos) {
            pos = next_utf8(s, pos);
        } else if is_ascii_digit(c) {
            while pos < s.len() && is_ascii_digit(s[pos])
                invariant
                    start <= pos <= s.len(),
                    digits_end(s@, pos as int) == digits_end(s@, start as int),
                decreases s.len() - pos,
            {
                pos = pos + 1;
            }
        } else if is_ascii_space(c) {
            while pos < s.len() && is_ascii_space(s[pos])
                invariant
                    start <= pos <= s.len(),
                    spaces_end(s@, pos as int) == spaces_end(s@, start as int),
                decreases s.len() - pos,
            {
                pos = pos + 1;
            }
        } else if is_letter_like(s, pos) {
            while pos < s.len() && is_letter_like(s, pos) && !is_cjk_at(s, pos)
                invariant
                    start <= pos <= s.len(),
                    letters_end(s@, pos as int) == letters_end(s@, start as int),
                decreases s.len() - pos,
            {
                pos = next_utf8(s, pos);
            }
        } else if is_ascii_punct(c) {
            while pos < s.len() && is_ascii_punct(s[pos])
                invariant
                    start <= pos <= s.len(),
                    puncts_end(s@, pos as int) == puncts_end(s@, start as int),
                decreases s.len() - pos,
            {
                pos = pos + 1;
            }
        } else {
            pos = next_utf8(s, pos);
        }
        proof {
            lemma_span_end_bounds(s@, start as int);
        }
        assert(pos == span_end(s@, start as int));
        out.push(slice_subrange(s, start, pos));
        assert(out@.map_values(|p: &'a [u8]| p@) =~= before.push(
            s@.subrange(start as int, pos as int),
        ));
        assert(out@.map_values(|p: &'a [u8]| p@) + spans(s@, pos as int) =~= before + spans(
            s@,
            start as int,
        ));
    }
    assert(out@.map_values(|p: &'a [u8]| p@) =~= spans(s@, 0));
    out
}

/// Where well-formed UTF-8 starts, the character read is the scalar encoded
/// there, over its whole length.
pub proof fn lemma_codepoint_at_utf8(s: Seq<u8>, pos: int)
    requires
        0 <= pos < s.len(),
        valid_first_scalar(s.skip(pos)),
    ensures
        codepoint_at(s, pos) == decode_first_scalar(s.skip(pos)),
        step(s, pos) == length_of_first_scalar(s.skip(pos)),
{
    let t = s.skip(pos);
    let c = s[pos];
    assert(t[0] == c);
    assert(forall|b: u8|
        (b & 0x3f) as u32 == b as u32 & 0x3f && (b & 0x1f) as u32 == b as u32 & 0x1f && (b & 0x0f)
            as u32 == b as u32 & 0x0f && (b & 0x07) as u32 == b as u32 & 0x07 && (b <= 0x7f ==> b
            & 0x7f == b)) by (bit_vector);
    if utf8_width(c) >= 2 {
        assert(t[1] == s[pos + 1]);
    }
    if utf8_width(c) >= 3 {
        assert(t[2] == s[pos + 2]);
    }
    if utf8_width(c) >= 4 {
        assert(t[3] == s[pos + 3]);
    }
}

proof fn lemma_runs_end_bounds(s: Seq<u8>, pos: int)
    requires
        0 <= pos <= s.len(),
    ensures
        pos <= digits_end(s, pos) <= s.len(),
        pos <= spaces_end(s, pos) <= s.len(),
        pos <= letters_end(s, pos) <= s.len(),
        pos <= puncts_end(s, pos) <= s.len(),
    decreases s.len() - pos,
{
    if pos < s.len() {
        lemma_runs_end_bounds(s, pos + 1);
        lemma_runs_end_bounds(s, pos + step(s, pos));
    }
}

/// Every span is non-empty and lies within the text.
pub proof fn lemma_span_end_bounds(s: Seq<u8>, pos: int)
    requires
        0 <= pos < s.len(),
    ensures
        pos < span_end(s, pos) <= s.len(),
{
    lemma_runs_end_bounds(s, pos + 1);
    lemma_runs_end_bounds(s, pos + step(s, pos));
}

/// Splitting loses nothing: the spans, joined, are the text.
pub proof fn lemma_spans_join(s: Seq<u8>, pos: int)
    requires
        0 <= pos <= s.len(),
    ensures
        joined(spans(s, pos)) == s.skip(pos),
    decreases s.len() - pos,
{
    if pos < s.len() {
        let end = span_end(s, pos);
        lemma_span_end_bounds(s, pos);
        lemma_spans_join(s, end);
        assert(spans(s, pos).drop_first() =~= spans(s, end));
        assert(s.subrange(pos, end) + s.skip(end) =~= s.skip(pos));
    } else {
        assert(s.skip(pos) =~= Seq::<u8>::empty());
    }
}

/// No span is empty.
pub proof fn lemma_spans_nonempty(s: Seq<u8>, pos: int, i: int)
    requires
        0 <= pos <= s.len(),
        0 <= i < spans(s, pos).len(),
    ensures
        spans(s, pos)[i].len() > 0,
    decreases s.len() - pos,
{
    if pos < s.len() {
        lemma_span_end_bounds(s, pos);
        if i > 0 {
            lemma_spans_nonempty(s, span_end(s, pos), i - 1);
        }
    }
}

/// A letter run ends before a CJK character, before a character that is no
/// letter, or with the text, so that every CJK character is a span of its own.
pub proof fn lemma_letters_stop(s: Seq<u8>, pos: int)
    requires
        0 <= pos <= s.len(),
    ensures
        ({
            let end = letters_end(s, pos);
            end < s.len() ==> !letter_like(s[end]) || (cjk_at(s, end) && span_end(s, end) == end
                + step(s, end))
        }),
    decreases s.len() - pos,
{
    if pos < s.len() && letter_like(s[pos]) && !cjk_at(s, pos) {
        lemma_letters_stop(s, pos + step(s, pos));
    }
}

/// A digit span is the longest run of digits there, a whitespace span the longest
/// run of whitespace, and a punctuation span the longest run of punctuation.
pub proof fn lemma_runs_are_maximal(s: Seq<u8>, pos: int)
    requires
        0 <= pos <= s.len(),
    ensures
        forall|i: int| pos <= i < digits_end(s, pos) ==> ascii_digit(#[trigger] s[i]),
        digits_end(s, pos) < s.len() ==> !ascii_digit(s[digits_end(s, pos)]),
        forall|i: int| pos <= i < spaces_end(s, pos) ==> ascii_space(#[trigger] s[i]),
        spaces_end(s, pos) < s.len() ==> !ascii_space(s[spaces_end(s, pos)]),
        forall|i: int| pos <= i < puncts_end(s, pos) ==> ascii_punct(#[trigger] s[i]),
        puncts_end(s, pos) < s.len() ==> !ascii_punct(s[puncts_end(s, pos)]),
    decreases s.len() - pos,
{
    if pos < s.len() {
        lemma_runs_are_maximal(s, pos + 1);
    }
}

/// Within well-formed UTF-8 no byte announces more bytes than are left.
pub proof fn lemma_width_fits(a: Seq<u8>, p: int)
    requires
        valid_utf8(a),
        0 <= p < a.len(),
    ensures
        p + utf8_width(a[p]) <= a.len(),
    decreases a.len(),
{
    let n = length_of_first_scalar(a);
    let rest = pop_first_scalar(a);
    if p >= n {
        assert(rest =~= a.skip(n));
        lemma_width_fits(rest, p - n);
        assert(rest[p - n] == a[p]);
    }
}

/// White space of one byte: tab, line feed, vertical tab, form feed, carriage
/// return, space.
pub open spec fn white(c: u8) -> bool {
    c == 9 || c == 10 || c == 11 || c == 12 || c == 13 || c == 32
}

/// A decimal digit.
pub open spec fn numeral(c: u8) -> bool {
    48 <= c <= 57
}

/// ASCII punctuation.
pub open spec fn mark(c: u8) -> bool {
    33 <= c <= 47 || 58 <= c <= 64 || 91 <= c <= 96 || 123 <= c <= 126
}

/// An ASCII letter, or a byte of a character beyond ASCII.
pub open spec fn wordy(c: u8) -> bool {
    65 <= c <= 90 || 97 <= c <= 122 || 128 <= c
}

/// The text starts with a CJK ideograph, hiragana or katakana.
pub open spec fn starts_ideograph(p: Seq<u8>) -> bool {
    let cp = codepoint_at(p, 0);
    p.len() > 0 && p[0] >= 128 && (0x4e00 <= cp <= 0x9fa5 || 0x3040 <= cp <= 0x30ff)
}

proof fn lemma_classes(c: u8)
    ensures
        white(c) == ascii_space(c),
        numeral(c) == ascii_digit(c),
        mark(c) == ascii_punct(c),
        wordy(c) == letter_like(c),
        !(white(c) && numeral(c)) && !(white(c) && mark(c)) && !(white(c) && wordy(c)),
        !(numeral(c) && mark(c)) && !(numeral(c) && wordy(c)) && !(mark(c) && wordy(c)),
{
}

/// The first span of a text.
proof fn lemma_first_span(s: Seq<u8>, pos: int)
    requires
        0 <= pos < s.len(),
    ensures
        ({
            let e = span_end(s, pos);
            let p = s.subrange(pos, e);
            &&& pos < e <= s.len()
            &&& spans(s, pos) == seq![p] + spans(s, e)
            &&& p[0] == s[pos]
            &&& white(s[pos]) ==> forall|k: int| 0 <= k < p.len() ==> white(#[trigger] p[k])
            &&& numeral(s[pos]) ==> forall|k: int| 0 <= k < p.len() ==> numeral(#[trigger] p[k])
            &&& mark(s[pos]) ==> forall|k: int| 0 <= k < p.len() ==> mark(#[trigger] p[k])
            &&& !white(s[pos]) && !numeral(s[pos]) && !mark(s[pos]) && !wordy(s[pos]) ==> p.len()
                == 1
            &&& starts_ideograph(p) == cjk_at(s, pos)
            &&& cjk_at(s, pos) ==> p.len() == step(p, 0)
            &&& e < s.len() ==> {
                &&& !(white(s[pos]) && white(s[e]))
                &&& !(numeral(s[pos]) && numeral(s[e]))
                &&& !(mark(s[pos]) && mark(s[e]))
                &&& wordy(s[pos]) && wordy(s[e]) ==> cjk_at(s, pos) || cjk_at(s, e)
            }
        }),
{
    let e = span_end(s, pos);
    let p = s.subrange(pos, e);
    lemma_span_end_bounds(s, pos);
    lemma_classes(s[pos]);
    lemma_runs_are_maximal(s, pos);
    assert forall|k: int| 0 <= k < p.len() implies white(p[k]) == ascii_space(#[trigger] p[k])
        && numeral(p[k]) == ascii_digit(p[k]) && mark(p[k]) == ascii_punct(p[k]) by {
        lemma_classes(p[k]);
    }
    assert forall|k: int| 0 <= k < p.len() implies #[trigger] p[k] == s[pos + k] by {}
    if e < s.len() {
        lemma_classes(s[e]);
        if letter_like(s[pos]) && !cjk_at(s, pos) {
            lemma_letters_stop(s, pos);
        }
    }
    lemma_span_holds_first(s, pos);
}

/// The first character of a span lies in it as a whole.
proof fn lemma_span_holds_first(s: Seq<u8>, pos: int)
    requires
        0 <= pos < s.len(),
    ensures
        ({
            let p = s.subrange(pos, span_end(s, pos));
            &&& s[pos] >= 0x80 ==> codepoint_at(p, 0) == codepoint_at(s, pos)
            &&& s[pos] >= 0x80 ==> step(p, 0) == step(s, pos)
        }),
{
    let e = span_end(s, pos);
    let p = s.subrange(pos, e);
    lemma_span_end_bounds(s, pos);
    if s[pos] >= 0x80 {
        let n = step(s, pos);
        assert(e >= pos + n) by {
            if !cjk_at(s, pos) {
                lemma_runs_end_bounds(s, pos + n);
                assert(letters_end(s, pos) == letters_end(s, pos + n));
            }
        }
        assert forall|k: int| 0 <= k < n implies #[trigger] p[k] == s[pos + k] by {}
        if pos + utf8_width(s[pos]) > s.len() {
            assert(p.len() <= s.len() - pos);
            assert(utf8_width(p[0]) > p.len());
        }
        if n >= 2 {
            assert(p[1] == s[pos + 1]);
        }
        if n >= 3 {
            assert(p[2] == s[pos + 2]);
        }
        if n >= 4 {
            assert(p[3] == s[pos + 3]);
        }
    }
}

/// A span is of one kind: white space only, digits only, punctuation only, one CJK
/// character, letters, or one other byte.
pub proof fn lemma_span_uniform(s: Seq<u8>, pos: int, i: int)
    requires
        0 <= pos <= s.len(),
        0 <= i < spans(s, pos).len(),
    ensures
        ({
            let p = spans(s, pos)[i];
            &&& p.len() > 0
            &&& white(p[0]) ==> forall|k: int| 0 <= k < p.len() ==> white(#[trigger] p[k])
            &&& numeral(p[0]) ==> forall|k: int| 0 <= k < p.len() ==> numeral(#[trigger] p[k])
            &&& mark(p[0]) ==> forall|k: int| 0 <= k < p.len() ==> mark(#[trigger] p[k])
            &&& !white(p[0]) && !numeral(p[0]) && !mark(p[0]) && !wordy(p[0]) ==> p.len() == 1
            &&& starts_ideograph(p) ==> p.len() == step(p, 0)
        }),
    decreases s.len() - pos,
{
    if pos < s.len() {
        lemma_first_span(s, pos);
        let e = span_end(s, pos);
        if i > 0 {
            lemma_span_uniform(s, e, i - 1);
            assert(spans(s, pos)[i] == spans(s, e)[i - 1]);
        }
    }
}

/// Spans are as long as they can be: of two neighbours not both are white space,
/// not both digits, and not both punctuation, and two are letters only where one of
/// them is a CJK character.
pub proof fn lemma_spans_maximal(s: Seq<u8>, pos: int, i: int)
    requires
        0 <= pos <= s.len(),
        0 <= i,
        i + 1 < spans(s, pos).len(),
    ensures
        ({
            let p = spans(s, pos)[i];
            let q = spans(s, pos)[i + 1];
            &&& p.len() > 0 && q.len() > 0
            &&& !(white(p[0]) && white(q[0]))
            &&& !(numeral(p[0]) && numeral(q[0]))
            &&& !(mark(p[0]) && mark(q[0]))
            &&& wordy(p[0]) && wordy(q[0]) ==> starts_ideograph(p) || starts_ideograph(q)
        }),
    decreases s.len() - pos,
{
    if pos < s.len() {
        lemma_first_span(s, pos);
        let e = span_end(s, pos);
        if i > 0 {
            lemma_spans_maximal(s, e, i - 1);
            assert(spans(s, pos)[i] == spans(s, e)[i - 1]);
            assert(spans(s, pos)[i + 1] == spans(s, e)[i]);
        } else {
            assert(e < s.len()) by {
                if e >= s.len() {
                    assert(spans(s, e) =~= Seq::<Seq<u8>>::empty());
                }
            }
            lemma_first_span(s, e);
            assert(spans(s, pos)[1] == spans(s, e)[0]);
        }
    }
}

/// The spans of a text depend on the text from there on only.
proof fn lemma_run_ends_behind(head: Seq<u8>, b: Seq<u8>, q: int)
    requires
        0 <= q <= b.len(),
    ensures
        digits_end(head + b, head.len() + q) == head.len() + digits_end(b, q),
        spaces_end(head + b, head.len() + q) == head.len() + spaces_end(b, q),
        puncts_end(head + b, head.len() + q) == head.len() + puncts_end(b, q),
        letters_end(head + b, head.len() + q) == head.len() + letters_end(b, q),
        q < b.len() ==> step(head + b, head.len() + q) == step(b, q),
        q < b.len() ==> cjk_at(head + b, head.len() + q) == cjk_at(b, q),
    decreases b.len() - q,
{
    let s = head + b;
    let at = head.len() + q;
    if q < b.len() {
        assert(s[at] == b[q]);
        let n = step(b, q);
        if n >= 2 {
            assert(s[at + 1] == b[q + 1]);
        }
        if n >= 3 {
            assert(s[at + 2] == b[q + 2]);
        }
        if n >= 4 {
            assert(s[at + 3] == b[q + 3]);
        }
        lemma_run_ends_behind(head, b, q + 1);
        lemma_run_ends_behind(head, b, q + n);
    }
}

proof fn lemma_spans_behind(head: Seq<u8>, b: Seq<u8>, q: int)
    requires
        0 <= q <= b.len(),
    ensures
        spans(head + b, head.len() + q) == spans(b, q),
    decreases b.len() - q,
{
    if q < b.len() {
        lemma_run_ends_behind(head, b, q);
        lemma_span_end_bounds(b, q);
        let e = span_end(b, q);
        assert((head + b)[head.len() + q] == b[q]);
        assert(span_end(head + b, head.len() + q) == head.len() + e);
        lemma_spans_behind(head, b, e);
        assert((head + b).subrange(head.len() + q, head.len() + e) =~= b.subrange(q, e));
    }
}

/// A span ends where `a` does, whatever it is: the next byte is of another kind, or
/// starts a CJK character.
pub open spec fn breaks(a: Seq<u8>, b: Seq<u8>) -> bool {
    a.len() > 0 && b.len() > 0 ==> {
        let (x, y) = (a.last(), b[0]);
        &&& !(white(x) && white(y))
        &&& !(numeral(x) && numeral(y))
        &&& !(mark(x) && mark(y))
        &&& !(wordy(x) && wordy(y)) || starts_ideograph(b)
    }
}

proof fn lemma_char_before(a: Seq<u8>, b: Seq<u8>, pos: int)
    requires
        valid_utf8(a),
        0 <= pos < a.len(),
    ensures
        step(a + b, pos) == step(a, pos),
        cjk_at(a + b, pos) == cjk_at(a, pos),
        pos + step(a, pos) <= a.len(),
        (a + b)[pos] == a[pos],
{
    lemma_width_fits(a, pos);
    let n = step(a, pos);
    assert forall|k: int| 0 <= k < a.len() implies #[trigger] (a + b)[k] == a[k] by {}
    if n >= 2 {
        assert((a + b)[pos + 1] == a[pos + 1]);
    }
    if n >= 3 {
        assert((a + b)[pos + 2] == a[pos + 2]);
    }
    if n >= 4 {
        assert((a + b)[pos + 3] == a[pos + 3]);
    }
}

/// The bytes of a character beyond ASCII are all beyond ASCII.
proof fn lemma_last_byte_wordy(a: Seq<u8>, pos: int)
    requires
        valid_utf8(a),
        0 <= pos < a.len(),
        letter_like(a[pos]),
        pos + step(a, pos) == a.len(),
    ensures
        wordy(a.last()),
    decreases a.len(),
{
    let n = length_of_first_scalar(a);
    let rest = pop_first_scalar(a);
    lemma_width_fits(a, pos);
    if pos >= n {
        assert(rest =~= a.skip(n));
        lemma_width_fits(rest, pos - n);
        assert(rest[pos - n] == a[pos]);
        lemma_last_byte_wordy(rest, pos - n);
        assert(rest.last() == a.last());
    } else {
        lemma_classes(a.last());
    }
}

proof fn lemma_run_ends_before(a: Seq<u8>, b: Seq<u8>, pos: int)
    requires
        valid_utf8(a),
        breaks(a, b),
        0 <= pos < a.len(),
    ensures
        digits_end(a + b, pos) == digits_end(a, pos),
        spaces_end(a + b, pos) == spaces_end(a, pos),
        puncts_end(a + b, pos) == puncts_end(a, pos),
        letters_end(a + b, pos) == letters_end(a, pos),
    decreases a.len() - pos,
{
    let s = a + b;
    let end = a.len() as int;
    lemma_char_before(a, b, pos);
    let n = step(a, pos);
    lemma_classes(a.last());
    if b.len() > 0 {
        lemma_classes(b[0]);
        assert(s[end] == b[0]);
        lemma_run_ends_behind(a, b, 0);
    }
    if pos + 1 < end {
        lemma_run_ends_before(a, b, pos + 1);
    } else {
        assert(a[pos] == a.last());
        assert(digits_end(a, end) == end && spaces_end(a, end) == end && puncts_end(a, end) == end);
        assert(ascii_digit(a[pos]) ==> digits_end(s, end) == end);
        assert(ascii_space(a[pos]) ==> spaces_end(s, end) == end);
        assert(ascii_punct(a[pos]) ==> puncts_end(s, end) == end);
    }
    if letter_like(a[pos]) && !cjk_at(a, pos) {
        if pos + n < end {
            lemma_run_ends_before(a, b, pos + n);
        } else {
            lemma_last_byte_wordy(a, pos);
            assert(letters_end(a, end) == end);
            assert(letters_end(s, end) == end);
        }
    }
}

proof fn lemma_spans_before(a: Seq<u8>, b: Seq<u8>, pos: int)
    requires
        valid_utf8(a),
        breaks(a, b),
        0 <= pos <= a.len(),
    ensures
        spans(a + b, pos) == spans(a, pos) + spans(b, 0),
    decreases a.len() - pos,
{
    if pos == a.len() {
        lemma_spans_behind(a, b, 0);
        assert(spans(a, pos) + spans(b, 0) =~= spans(b, 0));
    } else {
        lemma_char_before(a, b, pos);
        lemma_run_ends_before(a, b, pos);
        lemma_span_end_bounds(a, pos);
        let e = span_end(a, pos);
        assert(span_end(a + b, pos) == e);
        lemma_spans_before(a, b, e);
        assert((a + b).subrange(pos, e) =~= a.subrange(pos, e));
        assert(spans(a + b, pos) =~= spans(a, pos) + spans(b, 0));
    }
}

/// Texts that meet where a span ends are split apart: the spans of the whole are
/// those of the one text, then those of the other.
pub proof fn lemma_spans_split(a: Seq<u8>, b: Seq<u8>)
    requires
        valid_utf8(a),
        breaks(a, b),
    ensures
        spans(a + b, 0) == spans(a, 0) + spans(b, 0),
{
    lemma_spans_before(a, b, 0);
}

/// A CJK character is a span of its own wherever it stands.
pub proof fn lemma_ideograph_alone(a: Seq<u8>, c: Seq<u8>, b: Seq<u8>)
    requires
        valid_utf8(a),
        valid_utf8(c),
        starts_ideograph(c),
        c.len() == step(c, 0),
    ensures
        spans(a + c + b, 0) == spans(a, 0) + seq![c] + spans(b, 0),
{
    let rest = c + b;
    lemma_char_before(c, b, 0);
    assert(codepoint_at(rest, 0) == codepoint_at(c, 0)) by {
        let n = step(c, 0);
        if n >= 2 {
            assert(rest[1] == c[1]);
        }
        if n >= 3 {
            assert(rest[2] == c[2]);
        }
        if n >= 4 {
            assert(rest[3] == c[3]);
        }
    }
    assert(a + c + b =~= a + rest);
    lemma_spans_split(a, rest);
    lemma_first_span(rest, 0);
    assert(rest.subrange(0, c.len() as int) =~= c);
    lemma_spans_behind(c, b, 0);
    assert(spans(a, 0) + (seq![c] + spans(b, 0)) =~= spans(a, 0) + seq![c] + spans(b, 0));
}

/// A text of one kind is one span: white space, digits, or punctuation.
pub proof fn lemma_one_run(s: Seq<u8>)
    requires
        s.len() > 0,
        (forall|k: int| 0 <= k < s.len() ==> white(#[trigger] s[k])) || (forall|k: int|
            0 <= k < s.len() ==> numeral(#[trigger] s[k])) || (forall|k: int|
            0 <= k < s.len() ==> mark(#[trigger] s[k])),
    ensures
        spans(s, 0) == seq![s],
{
    lemma_first_span(s, 0);
    let e = span_end(s, 0);
    if e < s.len() {
        assert(white(s[0]) && white(s[e]) || numeral(s[0]) && numeral(s[e]) || mark(s[0]) && mark(
            s[e],
        ));
    }
    assert(s.subrange(0, e) =~= s);
    assert(spans(s, e) =~= Seq::<Seq<u8>>::empty());
    assert(spans(s, 0) =~= seq![s]);
}

} // verus!
