use ds4::api::Tokens;
use ds4::tokenizer::bpe::Bpe;
use ds4::tokenizer::byte_map::{
    byte_encode, byte_to_codepoint, codepoint_to_byte_table, utf8_len_from_first_byte, utf8_put,
};
use ds4::tokenizer::pretok::{
    is_ascii_alpha, is_ascii_digit, is_ascii_newline, is_ascii_punct, is_ascii_space,
    is_cjk_or_kana, is_letter_like, next_utf8, split_spans, utf8_peek_one,
};
use ds4::tokenizer::Tokenizer;

fn make_tok() -> Tokenizer {
    let mut t = Tokenizer::default();
    for b in 0u8..128 {
        let bytes = vec![byte_to_codepoint(b) as u8];
        t.vocab.push(bytes.clone());
        t.vocab_by_bytes.insert(bytes, b as i32);
    }
    while t.vocab.len() < 200 {
        t.vocab.push(Vec::new());
    }
    t.vocab.push(b"ab".to_vec());
    t.vocab_by_bytes.insert(b"ab".to_vec(), 200);
    t.merges.insert((b"a".to_vec(), b"b".to_vec()), 0);
    t
}

/// A tokenizer that knows every byte's symbol and the given merges.
fn byte_tok(merges: &[(&str, &str)]) -> Tokenizer {
    let mut t = Tokenizer::default();
    for b in 0u32..256 {
        let sym = byte_encode(&[b as u8]);
        t.vocab.push(sym.clone());
        t.vocab_by_bytes.insert(sym, b as i32);
    }
    for (rank, (l, r)) in merges.iter().enumerate() {
        let (l, r) = (byte_encode(l.as_bytes()), byte_encode(r.as_bytes()));
        let mut both = l.clone();
        both.extend_from_slice(&r);
        let id = t.vocab.len() as i32;
        t.vocab.push(both.clone());
        t.vocab_by_bytes.insert(both, id);
        t.merges.insert((l, r), rank as i32);
    }
    t
}

fn encode(t: &Tokenizer, s: &str) -> Vec<i32> {
    let mut out = Tokens::new();
    t.encode(s, &mut out);
    out.into_vec()
}

#[test]
fn ascii_round_trip() {
    for b in 33u8..=126 {
        assert_eq!(byte_to_codepoint(b), b as u32);
    }
}

#[test]
fn nul_maps_high() {
    // byte 0 is non-printable, so it should be remapped to codepoint >= 256
    assert!(byte_to_codepoint(0) >= 256);
}

#[test]
fn encode_smoke() {
    let s = b"Hello";
    let out = byte_encode(s);
    // Each printable ASCII maps to itself, so output equals input here.
    assert_eq!(out, s);
}

#[test]
fn encodes_merge() {
    let t = make_tok();
    let mut out = Tokens::new();
    t.encode("ab", &mut out);
    assert_eq!(out.as_slice(), &[200]);
}

#[test]
fn ascii_split() {
    let s: &[u8] = b"hello world 123";
    let parts = split_spans(s);
    assert_eq!(parts, vec![&b"hello"[..], &b" "[..], &b"world"[..], &b" "[..], &b"123"[..]]);
}

#[test]
fn cjk_each_char_isolated() {
    // 日本 - two CJK ideographs, each 3 UTF-8 bytes
    let s = "日本".as_bytes();
    let parts = split_spans(s);
    assert_eq!(parts.len(), 2);
    assert_eq!(parts[0], "日".as_bytes());
    assert_eq!(parts[1], "本".as_bytes());
}

#[test]
fn codepoints_are_distinct_and_bounded() {
    let mut seen = vec![false; 324];
    for b in 0u32..256 {
        let cp = byte_to_codepoint(b as u8) as usize;
        assert!(cp < 324);
        assert!(!seen[cp]);
        seen[cp] = true;
    }
    assert_eq!(byte_to_codepoint(0), 256);
    assert_eq!(byte_to_codepoint(32), 288);
    assert_eq!(byte_to_codepoint(127), 289);
    assert_eq!(byte_to_codepoint(160), 322);
    assert_eq!(byte_to_codepoint(173), 323);
    assert_eq!(byte_to_codepoint(255), 255);
}

#[test]
fn table_inverts_the_mapping_below_320() {
    let t = codepoint_to_byte_table();
    for b in 0u32..256 {
        let cp = byte_to_codepoint(b as u8) as usize;
        if cp < 320 {
            assert_eq!(t[cp], Some(b as u8));
        }
    }
    assert_eq!(t.iter().filter(|e| e.is_some()).count(), 252);
    assert_eq!(t[0], None);
}

#[test]
fn utf8_put_matches_std() {
    for cp in [0u32, 0x7f, 0x80, 0x7ff, 0x800, 0xffff, 0x1_0000, 0x10_ffff, 0x4e00] {
        if let Some(c) = char::from_u32(cp) {
            let mut out = Vec::new();
            utf8_put(&mut out, cp);
            assert_eq!(out, c.to_string().as_bytes());
        }
    }
}

#[test]
fn first_byte_lengths() {
    assert_eq!(utf8_len_from_first_byte(0x41), 1);
    assert_eq!(utf8_len_from_first_byte(0x80), 1);
    assert_eq!(utf8_len_from_first_byte(0xc3), 2);
    assert_eq!(utf8_len_from_first_byte(0xe6), 3);
    assert_eq!(utf8_len_from_first_byte(0xf0), 4);
    assert_eq!(utf8_len_from_first_byte(0xff), 1);
}

#[test]
fn character_classes() {
    assert!(is_ascii_alpha(b'Q') && !is_ascii_alpha(b'9'));
    assert!(is_ascii_digit(b'9') && !is_ascii_digit(b'a'));
    assert!(is_ascii_space(0x0b) && is_ascii_space(b' ') && !is_ascii_space(b'x'));
    assert!(is_ascii_newline(b'\r') && !is_ascii_newline(b' '));
    assert!(is_ascii_punct(b'~') && is_ascii_punct(b'@') && !is_ascii_punct(b'a'));
    for c in 0u32..=255 {
        assert_eq!(is_ascii_punct(c as u8), (c as u8).is_ascii_punctuation());
        assert_eq!(is_ascii_alpha(c as u8), (c as u8).is_ascii_alphabetic());
    }
    assert!(is_cjk_or_kana(0x3042) && is_cjk_or_kana(0x9fa5) && !is_cjk_or_kana(0x9fa6));
}

#[test]
fn peek_and_step() {
    let s = "aé日😀".as_bytes();
    assert_eq!(utf8_peek_one(s, 0), (0x61, 1));
    assert_eq!(utf8_peek_one(s, 1), (0xe9, 3));
    assert_eq!(utf8_peek_one(s, 3), (0x65e5, 6));
    assert_eq!(utf8_peek_one(s, 6), (0x1f600, 10));
    assert_eq!(next_utf8(s, 3), 6);
    // A sequence cut short counts for one byte.
    assert_eq!(utf8_peek_one(&[0xe6, 0x97], 0), (0xe6, 1));
    assert_eq!(next_utf8(&[0xf0], 0), 1);
    assert!(is_letter_like(s, 1));
    assert!(!is_letter_like(b"1", 0));
}

#[test]
fn spans_join_to_the_text() {
    for s in ["", "abc", "a1 b2\t\n日本語 tést, !! 99", "\u{0}x", "...カナ..."] {
        let parts = split_spans(s.as_bytes());
        let joined: Vec<u8> = parts.concat();
        assert_eq!(joined, s.as_bytes());
        assert!(parts.iter().all(|p| !p.is_empty()));
    }
    let parts = split_spans("héé12, 3".as_bytes());
    assert_eq!(
        parts,
        vec!["héé".as_bytes(), b"12", b",", b" ", b"3"],
    );
    // A CJK character is by itself also behind and before letters.
    let parts = split_spans("a日bé本".as_bytes());
    assert_eq!(
        parts,
        vec![b"a", "日".as_bytes(), "bé".as_bytes(), "本".as_bytes()],
    );
    // Punctuation comes in runs, control characters do not.
    let parts = split_spans(b"a!!(b)\x01\x01~");
    assert_eq!(
        parts,
        vec![&b"a"[..], b"!!(", b"b", b")", b"\x01", b"\x01", b"~"],
    );
}

#[test]
fn lowest_rank_is_merged_first() {
    // "bc" goes before "ab", so that "abc" is "a" and "bc".
    let t = byte_tok(&[("b", "c"), ("a", "b")]);
    assert_eq!(encode(&t, "abc"), vec![b'a' as i32, 256]);
    // Of two equal ranks the first pair goes first.
    let t = byte_tok(&[("a", "a")]);
    assert_eq!(encode(&t, "aaa"), vec![256, b'a' as i32]);
    // Merges go on with merged symbols.
    let t = byte_tok(&[("a", "b"), ("ab", "c")]);
    assert_eq!(encode(&t, "abcab"), vec![257, 256]);
}

#[test]
fn highest_rank_is_never_merged() {
    let mut t = byte_tok(&[("a", "b")]);
    t.merges.insert((b"a".to_vec(), b"b".to_vec()), i32::MAX);
    assert_eq!(encode(&t, "ab"), vec![97, 98]);
}

#[test]
fn unknown_symbols_fall_back_to_bytes() {
    let mut t = Tokenizer::default();
    t.vocab.push(b"x".to_vec());
    // Two symbols of byte 0 merge to one that the vocabulary does not have.
    let zero = vec![0xc4, 0x80];
    t.merges.insert((zero.clone(), zero.clone()), 0);
    t.vocab_by_bytes.insert(zero, 7);
    let bpe = Bpe { merges: &t.merges, vocab: &t.vocab_by_bytes };
    let mut out = Vec::new();
    bpe.emit_piece(&[0, 0], &mut out);
    assert_eq!(out, vec![7, 7]);
    // Lone bytes of a symbol are not looked up.
    let mut t = Tokenizer::default();
    t.vocab.push(b"x".to_vec());
    t.vocab_by_bytes.insert(vec![0xc4], 7);
    assert_eq!(encode(&t, "\u{0}"), Vec::<i32>::new());
    assert_eq!(encode(&t, "x"), Vec::<i32>::new());
}

#[test]
fn emit_piece_appends() {
    let t = make_tok();
    let bpe = Bpe { merges: &t.merges, vocab: &t.vocab_by_bytes };
    let mut out = vec![9];
    bpe.emit_piece(b"ab", &mut out);
    bpe.emit_piece(b"c", &mut out);
    assert_eq!(out, vec![9, 200, 99]);
}

#[test]
fn encoding_loses_nothing() {
    let t = byte_tok(&[("h", "e"), ("l", "l"), ("he", "ll"), (" ", " ")]);
    for s in ["", "hello  world", "日本\n\u{7f}", "a\u{ad}b"] {
        let ids = encode(&t, s);
        let mut text = Vec::new();
        for id in ids {
            text.extend_from_slice(t.token_text(id).unwrap());
        }
        assert_eq!(text, byte_encode(s.as_bytes()));
    }
}

#[test]
fn without_vocabulary_nothing_is_encoded() {
    let t = Tokenizer::default();
    assert!(encode(&t, "abc").is_empty());
    assert_eq!(t.eos_id(), 0);
    assert_eq!(t.token_text(0), None);
}

#[test]
fn token_text_bounds() {
    let t = make_tok();
    assert_eq!(t.token_text(200), Some(&b"ab"[..]));
    assert_eq!(t.token_text(201), None);
    assert_eq!(t.token_text(-1), None);
}

#[test]
fn rendered_chat_splits_on_special_tokens() {
    let mut t = byte_tok(&[]);
    t.special.insert("<|im_start|>".to_string(), 1000);
    t.special.insert("<|im_end|>".to_string(), 1001);
    let mut out = Tokens::new();
    t.encode_rendered_chat("<|im_start|>hi<|im_end|>\n", &mut out);
    assert_eq!(out.as_slice(), &[1000, 104, 105, 1001, 10]);
    // A name between two texts is one token between their encodings.
    for (a, b) in [("hi", "yo"), ("日", ""), ("<|im_start|>x", "<|im_end|>")] {
        let ids = |s: &str| {
            let mut out = Tokens::new();
            t.encode_rendered_chat(s, &mut out);
            out.into_vec()
        };
        let whole = ids(&format!("{a}<|im_end|>{b}"));
        assert_eq!(whole, [ids(a), vec![1001], ids(b)].concat());
    }
    // Text without special tokens is plain text.
    let mut a = Tokens::new();
    let mut b = Tokens::new();
    t.encode_rendered_chat("plain <text|", &mut a);
    t.encode("plain <text|", &mut b);
    assert_eq!(a.as_slice(), b.as_slice());
}

#[test]
fn earlier_special_token_goes_first() {
    let mut t = byte_tok(&[]);
    t.special.insert("ab".to_string(), 1);
    t.special.insert("abc".to_string(), 2);
    let mut out = Tokens::new();
    t.encode_rendered_chat("abc", &mut out);
    assert_eq!(out.as_slice(), &[1, 99]);
}
