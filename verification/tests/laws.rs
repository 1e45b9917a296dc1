//! Concrete instances of the laws the library states in its contracts.

use jsonfix::{extract, extract_all, parse, repair, repair_extract, repair_with, validate, Options, Repairs, StreamRepairer};

/// Canonical texts: one space after each separator, strings escaped.
const CANONICAL: &[&str] = &[
    "null",
    "true",
    "false",
    "0",
    "-12.50e+3",
    "\"plain\"",
    "\"quote \\\" backslash \\\\ tab \\t newline \\n bell \\u0007\"",
    "\"caf\u{e9} \u{1f600}\"",
    "[]",
    "{}",
    "[1, 2, 3]",
    "{\"a\": 1, \"b\": [true, null], \"c\": {\"d\": \"e\"}}",
    "[[[[\"deep\"]]], {\"k\": -0.5}]",
];

/// The same documents written without whitespace.
const COMPACT: &[(&str, &str)] = &[
    ("[1,2,3]", "[1, 2, 3]"),
    ("{\"a\":1,\"b\":[true,null]}", "{\"a\": 1, \"b\": [true, null]}"),
    ("[{\"k\":\"v\"},[],{}]", "[{\"k\": \"v\"}, [], {}]"),
    ("{\"id\":1234567890123456789,\"price\":1.10}", "{\"id\": 1234567890123456789, \"price\": 1.10}"),
];

#[test]
fn law_repair_leaves_canonical_text_unchanged() {
    for text in CANONICAL {
        assert_eq!(repair(text).unwrap(), *text, "{text:?}");
    }
}

#[test]
fn law_repair_leaves_canonical_text_unchanged_in_strict_mode() {
    for text in CANONICAL {
        assert_eq!(repair_with(text, Options::strict()).unwrap(), *text, "{text:?}");
    }
}

#[test]
fn law_repair_is_idempotent() {
    let inputs = [
        "{a: 1, b: 'two', c: [1, 2,],}",
        "```json\n{\"answer\": 42,}\n```",
        "[1, 2, {\"x\": tru",
        "{\"text\": \"line\nbreak\"}",
        "NumberLong(2)",
    ];
    for input in inputs {
        let once = repair(input).unwrap();
        let twice = repair(&once).unwrap();
        assert_eq!(once, twice, "{input:?}");
    }
}

#[test]
fn law_compact_json_repairs_to_its_canonical_text() {
    for (compact, canonical) in COMPACT {
        assert_eq!(repair(compact).unwrap(), *canonical, "{compact:?}");
        assert_eq!(parse(compact).unwrap().to_json_string(), *canonical);
        assert_eq!(validate(compact).unwrap().to_json_string(), *canonical);
    }
}

#[test]
fn law_validate_accepts_every_repair_output() {
    let inputs = ["{a: 1}", "[1, 2,", "'single'", "// c\n[1]", "{\"a\": [1, {\"b\": \"\\u00e9\"}]}"];
    for input in inputs {
        let out = repair(input).unwrap();
        let value = validate(&out).unwrap();
        assert_eq!(value.to_json_string(), out, "{input:?}");
    }
}

#[test]
fn law_escaped_documents_read_as_the_document() {
    for (compact, canonical) in COMPACT {
        let escaped = compact.replace('"', "\\\"");
        assert_eq!(repair(&escaped).unwrap(), *canonical, "{escaped:?}");
    }
    // Without unquoted repair the escaping layer is not removed.
    let escaped = "{\\\"a\\\": 1}";
    let opts = Options::all().with_repairs(Repairs::ALL().without(Repairs::UNQUOTED()));
    assert!(repair_with(escaped, opts).is_err());
}

#[test]
fn law_stream_of_canonical_chunks_outputs_the_input() {
    let text = "{\"a\": [1, 2], \"b\": \"c\"}";
    let mut stream = StreamRepairer::new();
    stream.push("{\"a\": [1, ").unwrap();
    let out = stream.push("2], \"b\": \"c\"}").unwrap();
    assert_eq!(out, text);
    assert_eq!(stream.input(), text);
}

#[test]
fn law_repair_output_depth_matches_the_value() {
    let mut text = String::new();
    for _ in 0..200 {
        text.push('[');
    }
    for _ in 0..200 {
        text.push(']');
    }
    let out = repair(&text).unwrap();
    assert_eq!(out, text);
}

#[test]
fn law_extract_finds_a_whole_document() {
    for text in CANONICAL.iter().copied().chain(COMPACT.iter().map(|(compact, _)| *compact)) {
        let keyword = text.starts_with('n') || text.starts_with('t') || text.starts_with('f');
        if keyword {
            assert_eq!(extract(text), None, "{text}");
        } else {
            assert_eq!(extract(text), Some(text), "{text}");
        }
    }
}

#[test]
fn law_extract_all_returns_each_line_of_ndjson() {
    let text = "{\"a\":1}\n[2, 3]\n\"s\"\n-4\n";
    assert_eq!(extract_all(text), vec!["{\"a\":1}", "[2, 3]", "\"s\"", "-4"]);
}

#[test]
fn law_stream_of_compact_chunks_matches_whole_document_repair() {
    for (compact, canonical) in COMPACT {
        for split in 0..=compact.len() {
            if !compact.is_char_boundary(split) {
                continue;
            }
            let (first, second) = compact.split_at(split);
            let mut stream = StreamRepairer::new();
            let mut streamed = None;
            for chunk in [first, second] {
                if chunk.is_empty() {
                    continue;
                }
                streamed = Some(String::from(stream.push(chunk).unwrap()));
            }
            let streamed = streamed.unwrap();
            assert_eq!(streamed, repair(compact).unwrap());
            assert_eq!(streamed, *canonical);
        }
    }
}

#[test]
fn law_repair_extract_repairs_the_embedded_document() {
    let reply = "Sure! Here it is: {\"a\":1,\"b\":[true,null]} Anything else?";
    assert_eq!(repair_extract(reply).unwrap(), "{\"a\": 1, \"b\": [true, null]}");
    let fenced = "Result:\n```json\n[1, 2, 3]\n```\nDone.";
    assert_eq!(repair_extract(fenced).unwrap(), "[1, 2, 3]");
}

#[test]
fn law_empty_input_has_no_value() {
    assert_eq!(parse("").unwrap_err().kind(), &jsonfix::ErrorKind::NoValueFound);
    assert_eq!(repair("").unwrap_err().kind(), &jsonfix::ErrorKind::NoValueFound);
    assert_eq!(validate("").unwrap_err().kind(), &jsonfix::ErrorKind::NoValueFound);
    assert_eq!(
        repair_with("", Options::strict()).unwrap_err().kind(),
        &jsonfix::ErrorKind::NoValueFound
    );
}

#[test]
fn law_double_escaped_compact_document_repairs_like_the_document() {
    for (compact, canonical) in COMPACT {
        let escaped = compact.replace('"', "\\\"");
        assert_eq!(repair(&escaped).unwrap(), repair(compact).unwrap());
        assert_eq!(repair(&escaped).unwrap(), *canonical);
    }
}

#[test]
fn law_input_that_starts_with_a_closer_has_no_value() {
    for input in ["]", "  }", ")", ":", ",1", "\n]]"] {
        for result in [parse(input), validate(input)] {
            let error = result.unwrap_err();
            assert_eq!(error.kind(), &jsonfix::ErrorKind::NoValueFound, "{input:?}");
            assert_eq!(error.position(), 0, "{input:?}");
        }
        assert_eq!(repair(input).unwrap_err().kind(), &jsonfix::ErrorKind::NoValueFound);
    }
}

#[test]
fn law_strict_reading_rejects_a_parenthesis_where_it_stands() {
    let error = validate("(1)").unwrap_err();
    assert_eq!(error.kind(), &jsonfix::ErrorKind::UnexpectedCharacter('('));
    assert_eq!(error.position(), 0);
    let error = validate(" \n\t(1)").unwrap_err();
    assert_eq!(error.kind(), &jsonfix::ErrorKind::UnexpectedCharacter('('));
    assert_eq!(error.position(), 3);
    assert_eq!(repair("(1)").unwrap(), "1");
}

#[test]
fn law_an_empty_group_holds_no_value() {
    assert_eq!(repair("()").unwrap_err().kind(), &jsonfix::ErrorKind::NoValueFound);
}

#[test]
fn law_a_second_value_without_ndjson_is_a_trailing_value() {
    let error = validate("1 2").unwrap_err();
    assert_eq!(error.kind(), &jsonfix::ErrorKind::TrailingValue);
    let opts = Options::all().with_repairs(Repairs::ALL().without(Repairs::NDJSON()));
    assert_eq!(
        repair_with("[1]\n[2]", opts).unwrap_err().kind(),
        &jsonfix::ErrorKind::TrailingValue
    );
    assert_eq!(repair("[1]\n[2]").unwrap(), "[[1], [2]]");
}

#[test]
fn law_a_lone_bare_word_reads_as_a_string() {
    assert_eq!(repair("hello world").unwrap(), "\"hello world\"");
    assert_eq!(repair("  hello  ").unwrap(), "\"hello\"");
    assert_eq!(parse("hello").unwrap().as_str(), Some("hello"));
    let mut stream = StreamRepairer::new();
    assert_eq!(stream.push("hel").unwrap(), "\"hel\"");
    assert_eq!(stream.value().unwrap().as_str(), Some("hel"));
}

#[test]
fn law_a_lone_keyword_reads_as_its_value() {
    assert_eq!(repair("True").unwrap(), "true");
    assert_eq!(repair(" None ").unwrap(), "null");
    assert_eq!(repair("undefined").unwrap(), "null");
    assert_eq!(repair("tru").unwrap(), "true");
    assert_eq!(repair("fal").unwrap(), "false");
    assert_eq!(validate("false").unwrap().to_json_string(), "false");
    assert!(validate("True").is_err());
}

#[test]
fn law_a_lone_string_reads_as_its_text() {
    assert_eq!(repair("'two'").unwrap(), "\"two\"");
    assert_eq!(repair("\u{201C}v\u{201D}").unwrap(), "\"v\"");
    assert_eq!(parse("  'two'").unwrap().as_str(), Some("two"));
    assert_eq!(validate("\"a\\nb\"").unwrap().as_str(), Some("a\nb"));
    assert!(validate("'two'").is_err());
}

#[test]
fn law_a_lone_number_reads_as_its_normalized_text() {
    assert_eq!(repair(".5").unwrap(), "0.5");
    assert_eq!(repair("2.").unwrap(), "2.0");
    assert_eq!(repair(" -12 ").unwrap(), "-12");
    assert_eq!(repair("01").unwrap(), "\"01\"");
    assert_eq!(parse("1.10").unwrap().as_number().unwrap().as_str(), "1.10");
    assert_eq!(validate("7").unwrap().to_json_string(), "7");
    let mut stream = StreamRepairer::new();
    assert_eq!(stream.push("4").unwrap(), "4");
    assert_eq!(stream.push("2").unwrap(), "42");
}

#[test]
fn law_a_cut_off_word_needs_truncation_repair() {
    let opts = Options::all().with_repairs(Repairs::ALL().without(Repairs::TRUNCATION()));
    let error = jsonfix::parse_with("  hel", opts).unwrap_err();
    assert_eq!(error.kind(), &jsonfix::ErrorKind::UnexpectedEnd);
    assert_eq!(error.position(), 2);
    assert_eq!(jsonfix::parse_with("tru", opts).unwrap_err().kind(), &jsonfix::ErrorKind::UnexpectedEnd);
    assert_eq!(repair_with("hel", opts).unwrap_err().kind(), &jsonfix::ErrorKind::UnexpectedEnd);
}

#[test]
fn law_noise_after_a_lone_value_is_dropped() {
    assert_eq!(repair("True,").unwrap(), "true");
    assert_eq!(repair("42 ;").unwrap(), "42");
    assert_eq!(repair("hello ]").unwrap(), "\"hello\"");
    assert_eq!(repair("null , }").unwrap(), "null");
}

#[test]
fn law_numbers_on_separate_lines_become_an_array() {
    assert_eq!(repair("1\n2\n3").unwrap(), "[1, 2, 3]");
    assert_eq!(repair("1\n.5\n-2,").unwrap(), "[1, 0.5, -2]");
    assert_eq!(parse("7\n8").unwrap().len(), 2);
    let opts = Options::all().with_repairs(Repairs::ALL().without(Repairs::NDJSON()));
    assert_eq!(repair_with("1\n2", opts).unwrap_err().kind(), &jsonfix::ErrorKind::TrailingValue);
}

#[test]
fn law_comments_around_a_lone_value_are_trivia() {
    assert_eq!(repair("/* lead */ 1 // done").unwrap(), "1");
    assert_eq!(repair("// note\n'x'").unwrap(), "\"x\"");
    assert_eq!(repair("/* a */ True /* b */").unwrap(), "true");
}
