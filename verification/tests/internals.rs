//! Tests of the byte API, the double-escape scanner, the lexer, and the
//! stream repairer on exact inputs.

use jsonfix::lexer::{Lexer, Token};
use jsonfix::{
    DoubleEscapeScanner, ErrorKind, Options, StreamRepairer, looks_double_escaped, repair,
    repair_bytes, repair_bytes_into, repair_bytes_with, repair_into, repair_with,
};

/// A `Vec<u8>` sink collects the repair exactly like `repair_into`.
#[test]
fn repair_bytes_into_appends_canonical_json() {
    let mut out: Vec<u8> = b"[prefix] ".to_vec();
    repair_bytes_into(b"{a: 1, /* c */ b: 'two',}", &mut out, Options::all()).expect("repairs");
    assert_eq!(out, b"[prefix] {\"a\": 1, \"b\": \"two\"}");
}

/// The one-shot form returns just the repaired bytes.
#[test]
fn repair_bytes_returns_the_repaired_document() {
    let out = repair_bytes(b"{a: 1}").expect("repairs");
    assert_eq!(out, b"{\"a\": 1}");
}

/// Invalid UTF-8 fails with the exact byte offset of the first bad byte.
#[test]
fn repair_bytes_rejects_invalid_utf8_at_the_exact_offset() {
    let error = repair_bytes(b"{\"a\": \xff}").expect_err("must reject invalid UTF-8");
    assert_eq!(error.kind(), &ErrorKind::InvalidUtf8);
    assert_eq!(error.position(), 6);
}

/// On any failure the sink is left exactly as it was.
#[test]
fn repair_bytes_into_leaves_the_sink_untouched_on_error() {
    let mut out: Vec<u8> = b"prefix".to_vec();
    repair_bytes_into(b"prose {\"a\": 1}", &mut out, Options::all()).expect_err("must not repair");
    assert_eq!(out, b"prefix");
    repair_bytes_into(b"\xff", &mut out, Options::all()).expect_err("must reject invalid UTF-8");
    assert_eq!(out, b"prefix");
}

/// Byte output is byte-identical to the `String` API.
#[test]
fn repair_bytes_matches_the_text_api() {
    for input in ["{a: 1", "'x', 'y'", "[1, 2, 3,]", "{\"k\": \"b\\\"}"] {
        let text = repair_with(input, Options::all()).expect("repairs");
        let bytes = repair_bytes_with(input.as_bytes(), Options::all()).expect("repairs");
        assert_eq!(bytes, text.as_bytes(), "input {input:?}");
    }
}

/// The restricted-`Allow` path works through the byte API too.
#[test]
fn repair_bytes_supports_restricted_options() {
    let mut out = String::new();
    let mut bytes = Vec::new();
    let mut opts = Options::all();
    opts.allow = jsonfix::Allow::NONE();
    repair_into("{a: 1,}", &mut out, opts).expect("repairs");
    repair_bytes_into(b"{a: 1,}", &mut bytes, opts).expect("repairs");
    assert_eq!(bytes, out.as_bytes());
}

/// Every chunk split classifies the document exactly like the whole-input test.
#[test]
fn incremental_scan_matches_the_whole_input_scan() {
    let inputs = [
        r#"\"a\": 1"#,
        r#""a\" b""#,
        "\\\\",
        "\\\\\\\"",
        "\"",
        "\\\"",
        "\\\\\"",
        "a\\\\\\",
        r#"\"a\": \"b\""#,
        r#"\"a\": \"b\\\""#,
        "no quotes at all",
    ];
    for input in inputs {
        let want = looks_double_escaped(input);
        let one_char_chunks: Vec<&str> = {
            let mut spans = Vec::new();
            let mut chars = input.char_indices().peekable();
            while let Some((start, _)) = chars.next() {
                let end = chars.peek().map(|(next, _)| *next).unwrap_or(input.len());
                spans.push(&input[start..end]);
            }
            spans
        };
        for split in 0..=input.len() {
            if !input.is_char_boundary(split) {
                continue;
            }
            for chunks in [
                vec![input],
                vec![&input[..split], &input[split..]],
                one_char_chunks.clone(),
            ] {
                let mut scanner = DoubleEscapeScanner::new();
                for chunk in &chunks {
                    scanner.push(chunk);
                }
                assert_eq!(
                    scanner.verdict(),
                    want,
                    "input {input:?} split {split:?} chunks {chunks:?}"
                );
            }
        }
    }
}

/// Rolling a rejected chunk back restores the exact verdict.
#[test]
fn rollback_restores_the_previous_verdict() {
    let mut scanner = DoubleEscapeScanner::new();
    scanner.push(r#"\"a\" b \"c"#);
    let before = scanner.verdict();
    scanner.push("\\\"");
    scanner.rollback();
    assert_eq!(scanner.verdict(), before);
}

/// A string that ends on a raw delimiter at end of input is truncated.
#[test]
fn two_pass_string_is_truncated() {
    let opts = Options::all();
    let chars: Vec<char> = "\"a#\n".chars().collect();
    let mut lexer = Lexer::new(&chars, opts);
    let tok = lexer.next_token(false).expect("token").expect("some");
    match tok.token {
        Token::Str { truncated, .. } => assert!(truncated, "expected truncated Str"),
        other => panic!("expected Str, got {:?}", other),
    }
}

/// A fuzz input fed in small chunks matches repairing every prefix.
#[test]
fn crash2546_exact_bytes() {
    let data: &[u8] = &[
        34, 123, 97, 58, 255, 92, 117, 48, 48, 101, 57, 26, 32, 32, 92, 255, 255, 255,
    ];
    let (&steer, rest) = data.split_first().expect("nonempty");
    let step = 1 + usize::from(steer % 32);
    let text = String::from_utf8_lossy(rest);
    let text = text.as_ref();
    let mut s = StreamRepairer::new();
    let mut acc = String::new();
    let mut start = 0;
    while start < text.len() {
        let mut end = (start + step).min(text.len());
        if end < text.len() {
            while end < text.len() && !text.is_char_boundary(end) {
                end += 1;
            }
        }
        let chunk = &text[start..end];
        acc.push_str(chunk);
        let got = s.push(chunk).map(String::from);
        let want = repair(&acc);
        if got.is_err() && want.is_err() {
            acc.truncate(acc.len() - chunk.len());
        } else {
            assert_eq!(got, want, "at prefix {acc:?} (chunk {chunk:?})");
        }
        start = end;
    }
}

fn chars(text: &str) -> Vec<char> {
    text.chars().collect()
}

fn num_text(token: Option<Token>) -> (String, bool) {
    match token {
        Some(Token::Num { text, truncated }) => (text.into_iter().collect(), truncated),
        other => panic!("expected Num, got {:?}", other),
    }
}

/// Missing digits are supplied and the cursor stops at the delimiter.
#[test]
fn scan_number_supplies_missing_digits() {
    for (input, expected, end) in [
        ("1.5,", "1.5", 3),
        (".5]", "0.5", 2),
        ("-.5 ", "-0.5", 3),
        ("1.}", "1.0", 2),
        ("2e,", "2e0", 2),
        ("3E+ ", "3E+0", 3),
    ] {
        let src = chars(input);
        let mut lexer = Lexer::new(&src, Options::all());
        let token = lexer.scan_number().expect("scans");
        assert_eq!(num_text(token), (expected.to_string(), false), "{input}");
        assert_eq!(lexer.pos(), end, "{input}");
    }
}

/// A supplied digit at the end of input marks the number truncated.
#[test]
fn scan_number_marks_supplied_digits_at_the_end_truncated() {
    let src = chars("1.");
    let mut lexer = Lexer::new(&src, Options::all());
    assert_eq!(num_text(lexer.scan_number().expect("scans")), ("1.0".to_string(), true));
    let src = chars("-");
    let mut lexer = Lexer::new(&src, Options::all());
    assert_eq!(num_text(lexer.scan_number().expect("scans")), ("-0".to_string(), true));
}

/// A leading zero keeps the text as a string, or fails in strict mode.
#[test]
fn scan_number_keeps_leading_zeros_verbatim() {
    let src = chars("007,");
    let mut lexer = Lexer::new(&src, Options::all());
    match lexer.scan_number().expect("scans") {
        Some(Token::Str { text, truncated }) => {
            assert_eq!(text.into_iter().collect::<String>(), "007");
            assert!(!truncated);
        },
        other => panic!("expected Str, got {:?}", other),
    }
    let mut strict = Lexer::new(&src, Options::strict());
    let error = strict.scan_number().expect_err("strict");
    assert_eq!(error.kind(), &ErrorKind::UnexpectedCharacter('0'));
    assert_eq!(error.position(), 0);
}

/// Text that does not end at a delimiter is not a number; nothing is read.
#[test]
fn scan_number_reads_nothing_from_a_word() {
    let src = chars("12abc");
    let mut lexer = Lexer::new(&src, Options::all());
    assert!(lexer.scan_number().expect("scans").is_none());
    assert_eq!(lexer.pos(), 0);
}

/// A bare word stops at a delimiter, drops trailing blanks, and keeps a URL whole.
#[test]
fn scan_word_reads_words_and_urls() {
    let src = chars("hello world  ,");
    let mut lexer = Lexer::new(&src, Options::all());
    match lexer.scan_word(false) {
        Token::Word { text, truncated } => {
            assert_eq!(text.into_iter().collect::<String>(), "hello world");
            assert!(!truncated);
        },
        other => panic!("expected Word, got {:?}", other),
    }
    assert_eq!(lexer.pos(), 11);
    let src = chars("see https://example.com/a?b=1}");
    let mut lexer = Lexer::new(&src, Options::all());
    match lexer.scan_word(false) {
        Token::Word { text, .. } => {
            assert_eq!(text.into_iter().collect::<String>(), "see https://example.com/a?b=1");
        },
        other => panic!("expected Word, got {:?}", other),
    }
    let src = chars("Tru");
    let mut lexer = Lexer::new(&src, Options::all());
    assert!(matches!(lexer.scan_word(false), Token::Word { .. }));
    let src = chars("tru");
    let mut lexer = Lexer::new(&src, Options::all());
    assert!(matches!(lexer.scan_word(false), Token::Bool(true)));
    let src = chars("None");
    let mut lexer = Lexer::new(&src, Options::all());
    assert!(matches!(lexer.scan_word(false), Token::Null));
}

/// A regular expression literal runs to its unescaped closing slash.
#[test]
fn scan_regex_stops_at_the_unescaped_slash() {
    let src = chars("/a\\/b/g,");
    let mut lexer = Lexer::new(&src, Options::all());
    match lexer.scan_regex() {
        Token::Str { text, truncated } => {
            assert_eq!(text.into_iter().collect::<String>(), "/a\\/b/");
            assert!(!truncated);
        },
        other => panic!("expected Str, got {:?}", other),
    }
    assert_eq!(lexer.pos(), 6);
}

/// Trivia skipping passes whitespace, comments, and fences, and reports newlines.
#[test]
fn skip_trivia_passes_comments_and_fences() {
    let src = chars("  // note\n /* a\nb */ ```json\n{");
    let mut lexer = Lexer::new(&src, Options::all());
    assert!(lexer.skip_trivia());
    assert_eq!(src[lexer.pos()], '{');
    let src = chars("  x");
    let mut lexer = Lexer::new(&src, Options::all());
    assert!(!lexer.skip_trivia());
    assert_eq!(lexer.pos(), 2);
}
