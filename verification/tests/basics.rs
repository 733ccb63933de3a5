use ds4::api::{
    Backend, ContextMemory, Error, LogType, ProgressLog, ProgressSink, SessionSnapshot, ThinkMode,
    TokenLog, TokenSink, Tokens,
};
use ds4::bytes::{le_u64, low_u32, low_u32_signed, put_le, wrap_to_i32};
use ds4::context_memory::estimate;
use ds4::ieee::{is_above, is_nan};
use ds4::kv_cache::{PayloadError, PayloadHeader};
use ds4::layer::compress_ratio;
use ds4::log;
use ds4::log::{is_tty, type_prefix, write_log, LogBuffer, Tty};
use ds4::table::Table;
use ds4::text::{append_decimal, append_hexadecimal, append_signed, is_white_space, str_eq, trim};
use ds4::think::parse_mode;
use ds4::tokens;

#[test]
fn backend_names_parse_back() {
    for b in [Backend::Metal, Backend::Cuda, Backend::Cpu] {
        assert_eq!(Backend::parse(b.name()), Some(b));
        assert_eq!(Backend::parse(&b.name().to_uppercase()), Some(b));
    }
    assert_eq!(Backend::parse("CuDa"), Some(Backend::Cuda));
    assert_eq!(Backend::parse("gpu"), None);
    assert_eq!(Backend::parse(" cpu"), None);
}

#[test]
fn think_modes() {
    assert!(!ThinkMode::Off.enabled());
    assert!(ThinkMode::High.enabled() && ThinkMode::Max.enabled());
    assert_eq!(ThinkMode::Off.name(), "none");
    assert_eq!(ThinkMode::max_min_context(), 32768);
    assert_eq!(ThinkMode::max_prefix(), "<|im_start|>think_max\n");
    assert_eq!(ThinkMode::for_context(ThinkMode::Max, 32767), ThinkMode::High);
    assert_eq!(ThinkMode::for_context(ThinkMode::Max, 32768), ThinkMode::Max);
    assert_eq!(ThinkMode::for_context(ThinkMode::Max, -1), ThinkMode::High);
    assert_eq!(ThinkMode::for_context(ThinkMode::Off, 0), ThinkMode::Off);
    for m in [ThinkMode::Off, ThinkMode::High, ThinkMode::Max] {
        assert_eq!(parse_mode(m.name()), Some(m));
    }
    for s in ["", "off", "NONE", " no ", "false", "0", "\u{3000}\t"] {
        assert_eq!(parse_mode(s), Some(ThinkMode::Off));
    }
    for s in ["high", "On", "TRUE", "1"] {
        assert_eq!(parse_mode(s), Some(ThinkMode::High));
    }
    assert_eq!(parse_mode("\nFull\r\n"), Some(ThinkMode::Max));
    assert_eq!(parse_mode("maximum"), None);
    assert_eq!(parse_mode("o n"), None);
}

#[test]
fn white_space_is_that_of_unicode() {
    for u in 0..0x11_0000u32 {
        if let Some(c) = char::from_u32(u) {
            assert_eq!(is_white_space(c), c.is_whitespace());
        }
    }
    for s in ["", "  a b ", "\u{85}x\u{2029}", "y", "\u{a0}"] {
        assert_eq!(trim(s), s.trim());
    }
    assert!(str_eq("日", "日") && !str_eq("a", "b") && !str_eq("a", "aa"));
}

#[test]
fn numbers_in_text() {
    for n in [0u64, 7, 10, 255, 4096, u64::MAX] {
        let mut s = String::from("x");
        append_decimal(&mut s, n);
        assert_eq!(s, format!("x{n}"));
        let mut s = String::new();
        append_hexadecimal(&mut s, n);
        assert_eq!(s, format!("{n:x}"));
    }
    for n in [0i64, -1, 42, i64::MIN, i64::MAX] {
        let mut s = String::new();
        append_signed(&mut s, n);
        assert_eq!(s, format!("{n}"));
    }
}

#[test]
fn token_sequences() {
    let mut t = Tokens::new();
    assert!(t.is_empty());
    t.reserve(10);
    t.push(1);
    tokens::push(&mut t, 2);
    t.extend(&[3, 4]);
    assert_eq!(t.as_slice(), &[1, 2, 3, 4]);
    t.as_mut_slice()[0] = 9;
    assert_eq!(t.len(), 4);
    let mut u = Tokens::from_vec(vec![9, 2]);
    assert!(t.starts_with(&u));
    assert!(tokens::starts_with(&t, &Tokens::default()));
    assert!(!u.starts_with(&t));
    u.push(5);
    assert!(!t.starts_with(&u));
    tokens::copy(&mut u, &t);
    assert_eq!(u.as_slice(), t.as_slice());
    tokens::free(&mut u);
    assert!(u.is_empty());
    t.clear();
    assert_eq!(t.into_vec(), Vec::<i32>::new());
    assert_eq!(tokens::common_prefix_len(&[1, 2, 3], &[1, 2, 4, 5]), 2);
    assert_eq!(tokens::common_prefix_len(&[1, 2], &[1, 2, 4]), 2);
    assert_eq!(tokens::common_prefix_len(&[], &[1]), 0);
}

#[test]
fn error_texts() {
    let s = |t: &str| t.to_string();
    assert_eq!(Error::Io(s("x")).message(), "io error: x");
    assert_eq!(Error::Gguf(s("x")).message(), "gguf: x");
    assert_eq!(Error::Tokenizer(s("x")).message(), "tokenizer: x");
    assert_eq!(Error::Backend("cpu", s("x")).message(), "backend (cpu): x");
    assert_eq!(Error::Invalid(s("x")).message(), "invalid arg: x");
    assert_eq!(Error::RebuildRequired.message(), "rebuild required");
    assert_eq!(Error::Unsupported("metal").message(), "not supported on this build: metal");
    assert_eq!(Error::Other(s("x")).message(), "x");
}

#[test]
fn sinks_keep_what_they_receive() {
    let mut log = TokenLog::new();
    log.emit(3);
    log.emit(4);
    assert!(!log.complete);
    log.done();
    assert_eq!(log.tokens.as_slice(), &[3, 4]);
    assert!(log.complete);
    let mut p = ProgressLog::new();
    p.report("sync", 1, 2);
    assert_eq!(p.events, vec![("sync".to_string(), 1, 2)]);
    assert!(SessionSnapshot::default().buf.is_empty());
}

#[test]
fn context_memory_estimates() {
    let m = estimate(Backend::Cpu, 1000);
    assert_eq!(m.raw_bytes, 14_336_000);
    assert_eq!(m.compressed_bytes, 576_000);
    assert_eq!(m.scratch_bytes, 134_217_728);
    assert_eq!(m.total_bytes, 14_336_000 + 576_000 + 134_217_728);
    assert_eq!((m.prefill_cap, m.raw_cap, m.comp_cap), (1000, 1000, 1000));
    assert_eq!(estimate(Backend::Metal, 0).total_bytes, 256 << 20);
    let m = estimate(Backend::Cuda, -1);
    assert_eq!(m.total_bytes, 384 << 20);
    assert_eq!(m.raw_cap, u32::MAX);
    assert_eq!(ContextMemory::default().total_bytes, 0);
}

#[test]
fn layer_compression_pattern() {
    assert_eq!(compress_ratio(0), 0);
    assert_eq!(compress_ratio(1), 0);
    assert_eq!(compress_ratio(2), 4);
    assert_eq!(compress_ratio(3), 128);
    assert_eq!(compress_ratio(4), 4);
    assert_eq!(compress_ratio(5), 128);
    assert_eq!(compress_ratio(42), 4); // 42 even
}

#[test]
fn payload_header_round_trips() {
    let h = PayloadHeader {
        version: 1,
        model_fingerprint: 0x0123_4567_89ab_cdef,
        backend_id: 2,
        n_tokens: 77,
        raw_bytes: u64::MAX,
        comp_bytes: 5,
    };
    let mut bytes = Vec::new();
    h.write(&mut bytes);
    assert_eq!(bytes.len() as u64, PayloadHeader::size_on_disk());
    assert_eq!(&bytes[..8], b"DS4K\x01\x00\x00\x00");
    assert_eq!(&bytes[8..16], &0x0123_4567_89ab_cdefu64.to_le_bytes());
    let mut more = bytes.clone();
    more.extend_from_slice(b"rest");
    assert_eq!(PayloadHeader::read(&more), Ok(h));
    assert_eq!(PayloadHeader::read(&bytes[..39]), Err(PayloadError::Short));
    assert_eq!(PayloadHeader::read(&bytes[..3]), Err(PayloadError::Short));
    assert_eq!(PayloadHeader::read(&bytes[..7]), Err(PayloadError::Short));
    assert_eq!(PayloadHeader::read(b"DS4X"), Err(PayloadError::BadMagic));
    bytes[4] = 2;
    assert_eq!(PayloadHeader::read(&bytes[..8]), Err(PayloadError::UnsupportedVersion(2)));
    assert_eq!(PayloadError::UnsupportedVersion(2).message(), "kv payload: unsupported version 2");
    assert_eq!(PayloadError::BadMagic.message(), "kv payload: bad magic");
    assert_eq!(PayloadError::Short.message(), "failed to fill whole buffer");
}

#[test]
fn log_lines() {
    let mut out = LogBuffer { color: false, text: String::new() };
    log::line(&mut out, LogType::Warning, "careful").unwrap();
    log::line(&mut out, LogType::Default, "done\n").unwrap();
    write_log(&mut out, LogType::Success, "yes").unwrap();
    log::line(&mut out, LogType::KvCache, "").unwrap();
    assert_eq!(out.text, "[warn] careful\ndone\n[ok] yes[kv] \n");
    let mut out = LogBuffer { color: true, text: String::new() };
    assert!(is_tty(&out) && out.is_tty());
    log::line(&mut out, LogType::Error, "bad").unwrap();
    assert_eq!(out.text, "\x1b[31m[err]\x1b[0m bad\n");
    assert_eq!(type_prefix(LogType::Prefill, false), "[prefill] ");
    assert_eq!(type_prefix(LogType::Generation, true), "\x1b[35m[gen]\x1b[0m ");
    assert_eq!(type_prefix(LogType::Timing, false), "[time] ");
    assert_eq!(type_prefix(LogType::Tool, true), "\x1b[33m[tool]\x1b[0m ");
}

#[test]
fn tables_replace_and_count() {
    let t = Table::new().insert("a".to_string(), 1).insert("b".to_string(), 2);
    let t = t.insert("a".to_string(), 3);
    assert_eq!(t.len(), 2);
    assert_eq!(t.get("a"), Some(&3));
    assert_eq!(t.get("b"), Some(&2));
    assert_eq!(t.get("c"), None);
    assert!(t.contains_key("b") && !t.contains_key(""));
}

#[test]
fn little_endian_numbers() {
    let mut out = vec![7];
    put_le(&mut out, 0x0102_0304, 4);
    assert_eq!(out, vec![7, 4, 3, 2, 1]);
    assert_eq!(le_u64(&out[1..]), 0x0102_0304);
    assert_eq!(le_u64(&[0xff; 8]), u64::MAX);
    assert_eq!(low_u32(0x1_0000_0002), 2);
    assert_eq!(low_u32_signed(-1), u32::MAX);
    assert_eq!(wrap_to_i32(0x8000_0000), i32::MIN);
}

#[test]
fn float_order_on_bits() {
    let xs = [f32::NEG_INFINITY, -2.5, -0.0, 0.0, 1e-40, 1.0, f32::INFINITY, f32::NAN];
    for a in xs {
        assert_eq!(is_nan(a.to_bits()), a.is_nan());
        for b in xs {
            assert_eq!(is_above(a.to_bits(), b.to_bits()), a > b);
        }
    }
}
