//! The documented examples, as executable scenarios.

use jsonfix::{
    extract, extract_all, extract_partial, parse, parse_partial, repair, repair_extract, validate,
    Allow, ErrorKind, Options, StreamRepairer,
};

#[test]
fn readme_repairs_the_documented_damage() {
    assert_eq!(repair("{a: 1, /* note */ b: 'two',}").unwrap(), r#"{"a": 1, "b": "two"}"#);
    assert_eq!(repair("{\"a\": [1, 2").unwrap(), r#"{"a": [1, 2]}"#);
    assert_eq!(repair("1\n2\n3").unwrap(), "[1, 2, 3]");
    assert_eq!(repair("[.5, 2., 2e, -, 01]").unwrap(), r#"[0.5, 2.0, 2e0, -0, "01"]"#);
    assert_eq!(repair(r#"{\"a\": 1}"#).unwrap(), r#"{"a": 1}"#);
}

#[test]
fn readme_finds_json_in_prose() {
    assert_eq!(extract(r#"The result is {"ok": true,} — done."#), Some(r#"{"ok": true,}"#));
    assert_eq!(extract("no json here"), None);
    assert_eq!(extract_all("{\"a\": 1}\n{\"b\": 2}"), ["{\"a\": 1}", "{\"b\": 2}"]);
    assert_eq!(extract_partial(r#"prose {"a": 1} tail"#), r#"{"a": 1} tail"#);
    let reply = "Sure!\n```json\n{\"answer\": 42,}\n```\nDone.";
    assert_eq!(repair_extract(reply).unwrap(), r#"{"answer": 42}"#);
}

#[test]
fn readme_parses_to_a_tree() {
    let value = parse("{id: 1234567890123456789, price: 1.10}").unwrap();
    let id = value.get("id").and_then(|v| v.as_number()).unwrap();
    assert_eq!(id.as_str(), "1234567890123456789");
    assert_eq!(id.as_u64(), Some(1234567890123456789));
    assert_eq!(value.get("price").and_then(|v| v.as_number()).unwrap().as_str(), "1.10");
    let doc = parse(r#"{"users":[{"name":"ada"},{"name":"bob"}]}"#).unwrap();
    assert_eq!(doc.pointer("/users/1/name").and_then(|v| v.as_str()), Some("bob"));
    assert_eq!(doc.get("users").map(|u| u.len()), Some(2));
    assert_eq!(value.to_json_string(), r#"{"id": 1234567890123456789, "price": 1.10}"#);
    let person = parse("{name: 'Ada', tags: ['math', 'code',],}").unwrap();
    assert_eq!(person.to_json_string(), r#"{"name": "Ada", "tags": ["math", "code"]}"#);
    assert_eq!(parse("{age: 36}").unwrap().get("age").and_then(|v| v.as_i64()), Some(36));
}

#[test]
fn readme_partial_policy_keeps_what_it_allows() {
    let cut = r#"{"answer": "Hel"#;
    let opts = Options::partial(Allow::OBJ() | Allow::STR());
    assert_eq!(parse_partial(cut, opts).unwrap().to_json_string(), r#"{"answer": "Hel"}"#);
    let torn = r#"{"key": "v, "x"#;
    assert_eq!(parse_partial(torn, opts).unwrap().to_json_string(), r#"{"key": "v"}"#);
    assert_eq!(
        parse_partial(torn, Options::partial(Allow::ALL())).unwrap().to_json_string(),
        r#"{"key": "v", "x": null}"#
    );
}

#[test]
fn readme_stream_matches_whole_document_repair() {
    let mut stream = StreamRepairer::new();
    assert_eq!(stream.push(r#"{"name": "Ad"#).unwrap(), r#"{"name": "Ad"}"#);
    assert_eq!(stream.push("a\", \"age\": ").unwrap(), r#"{"name": "Ada", "age": null}"#);
    assert_eq!(stream.push("36}").unwrap(), r#"{"name": "Ada", "age": 36}"#);
    assert_eq!(stream.value().unwrap().to_json_string(), r#"{"name": "Ada", "age": 36}"#);
    let mut stream = StreamRepairer::new();
    let mut shown = String::new();
    for chunk in [r#"{"name": "Ad"#, "a\", \"age\": ", "36}"] {
        let delta = stream.push_delta(chunk).unwrap();
        shown.truncate(delta.keep);
        shown.push_str(delta.text);
    }
    assert_eq!(shown, r#"{"name": "Ada", "age": 36}"#);
}

#[test]
fn a_promoted_keyword_is_re_repaired_as_one_word() {
    let mut stream = StreamRepairer::new();
    let first = String::from(stream.push("nu").unwrap());
    assert_eq!(first, repair("nu").unwrap());
    let second = String::from(stream.push("ll").unwrap());
    assert_eq!(second, repair("null").unwrap());
}

#[test]
fn readme_validate_reports_a_trailing_comma() {
    let error = validate("[1, 2, 3,]").unwrap_err();
    assert_eq!(error.kind(), &ErrorKind::TrailingComma);
    assert_eq!(error.position(), 9);
    assert_eq!(error.message(), "trailing comma");
    assert_eq!(error.to_string(), "trailing comma at byte 9");
}

#[test]
fn a_strict_stream_rejects_an_unclosed_object() {
    let mut stream = StreamRepairer::with_options(Options::strict());
    assert!(stream.push("{").is_err());
    assert!(stream.is_empty());
    assert_eq!(stream.push("[1]").unwrap(), "[1]");
}
