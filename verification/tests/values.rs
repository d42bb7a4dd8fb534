use minijson::JSON;
use minijson::JSONError;
use minijson::JSONValue;
use minijson::TokenIterator;
use minijson::parse;

#[test]
fn accessors_match_variants() {
    let v = JSONValue::Bool(true);
    assert_eq!(v.as_bool(), Some(true));
    assert!(v.as_number().is_none());
    assert!(v.as_string().is_none());
    assert!(v.as_array().is_none());
    assert!(v.as_object().is_none());
    assert!(v.at(0).is_none());
    assert!(v.get("x").is_none());

    let v = JSONValue::Number("1.5".to_string());
    assert_eq!(v.as_number().unwrap(), "1.5");
    assert!(v.as_bool().is_none());

    let v = JSONValue::Text("hi".to_string());
    assert_eq!(v.as_string().unwrap(), "hi");

    let v = JSONValue::Array(vec![JSONValue::Null, JSONValue::Bool(false)]);
    assert_eq!(v.as_array().unwrap().len(), 2);
    assert_eq!(v.at(1), Some(&JSONValue::Bool(false)));
    assert!(v.at(2).is_none());

    let v = JSONValue::Object(vec![("k".to_string(), JSONValue::Null)]);
    assert_eq!(v.as_object().unwrap().len(), 1);
    assert_eq!(v.get("k"), Some(&JSONValue::Null));
    assert!(v.get("missing").is_none());
}

#[test]
fn mutators_update_in_place() {
    let mut v = JSONValue::Array(vec![JSONValue::Null, JSONValue::Null]);
    assert!(v.set_at(1, JSONValue::Bool(true)));
    assert!(!v.set_at(2, JSONValue::Bool(false)));
    assert_eq!(v.at(1), Some(&JSONValue::Bool(true)));

    let mut v = JSONValue::Object(vec![("a".to_string(), JSONValue::Null)]);
    assert!(v.set_field("a", JSONValue::Bool(true)));
    assert!(v.set_field("b", JSONValue::Null));
    assert_eq!(v.get("a"), Some(&JSONValue::Bool(true)));
    assert_eq!(v.get("b"), Some(&JSONValue::Null));
    assert_eq!(v.as_object().unwrap().len(), 2);

    let mut v = JSONValue::Null;
    assert!(!v.set_at(0, JSONValue::Null));
    assert!(!v.set_field("a", JSONValue::Null));
}

#[test]
fn rendering_each_variant() {
    assert_eq!(JSONValue::Null.to_text(), "null");
    assert_eq!(JSONValue::Bool(true).to_text(), "true");
    assert_eq!(JSONValue::Bool(false).to_text(), "false");
    assert_eq!(JSONValue::Number("-1.5e3".to_string()).to_text(), "-1.5e3");
    assert_eq!(JSONValue::Text("hi".to_string()).to_text(), "\"hi\"");
    assert_eq!(JSONValue::Array(vec![]).to_text(), "[]");
    assert_eq!(JSONValue::Object(vec![]).to_text(), "{}");
    let v = JSONValue::Object(vec![
        ("a".to_string(), JSONValue::Number("1".to_string())),
        ("b".to_string(), JSONValue::Array(vec![JSONValue::Null, JSONValue::Bool(true)])),
    ]);
    assert_eq!(v.to_text(), "{\"a\": 1, \"b\": [null, true]}");
}

#[test]
fn structural_round_trip() {
    let inputs = [
        "[\"hello mister!\", 42, true]",
        r#"{"name": "John", "age": 42, "jobs": ["a", {"b": null}]}"#,
        "[[], {}, [1, 2, 3], \"\", -1.5e-3]",
        "null",
        "{\"a\": 1, \"b\": 2, \"a\": 3}",
    ];
    for input in inputs.iter() {
        let v = parse(input).unwrap();
        let rendered = v.to_text();
        let v2 = parse(&rendered).unwrap();
        assert_eq!(v2, v, "round trip changed the value for {}", input);
        assert_eq!(v2.to_text(), rendered);
    }
}

#[test]
fn json_document_builds_and_renders() {
    let mut doc = JSON::new();
    doc.add_field("name", JSONValue::Text("John".to_string()));
    doc.add_field("age", JSONValue::Number("42".to_string()));
    doc.add_field("name", JSONValue::Text("Jane".to_string()));
    match doc.get("name") {
        Some(JSONValue::Text(s)) => assert_eq!(s, "Jane"),
        other => panic!("unexpected {:?}", other),
    }
    assert!(doc.get("missing").is_none());
    assert_eq!(doc.to_text(), "{\"name\": \"Jane\", \"age\": 42}");

    let empty = JSON::default();
    assert_eq!(empty.to_text(), "{}");
}

#[test]
fn json_document_from_text() {
    let doc = JSON::from_text(r#"{"a": 1}"#).unwrap();
    match doc.get("a") {
        Some(JSONValue::Number(n)) => assert_eq!(n, "1"),
        other => panic!("unexpected {:?}", other),
    }
    match JSON::from_text("[1]") {
        Err(JSONError::ParseError(m)) => assert_eq!(m, "Expected object"),
        other => panic!("unexpected {:?}", other),
    }
    match JSON::from_text("") {
        Err(JSONError::UnexpectedEndOfInput) => (),
        other => panic!("unexpected {:?}", other),
    }
}

#[test]
fn tokenize_whole_input() {
    let toks = minijson::lexer::tokenize("{\"a\": [1, true]}").unwrap();
    assert_eq!(toks.len(), 9);
    match minijson::lexer::tokenize("\"abc") {
        Err(JSONError::UnexpectedEndOfInput) => (),
        other => panic!("unexpected {:?}", other),
    }
}

#[test]
fn token_iterator_tracks_positions() {
    let it = TokenIterator::new("abc");
    assert_eq!(it.get_line(), 1);
    assert_eq!(it.get_char(), 1);

    let mut it = TokenIterator::new("[true,\n \"x\"]");
    let mut tokens: usize = 0;
    loop {
        match it.next_token() {
            Ok(Some(_)) => tokens += 1,
            Ok(None) => break,
            Err(e) => panic!("unexpected error {:?}", e),
        }
    }
    assert_eq!(tokens, 5);
    assert_eq!(it.get_line(), 2);

    let mut it = TokenIterator::new("\\");
    match it.next_token() {
        Err(JSONError::UnexpectedCharacter('\\', 1, 1)) => (),
        other => panic!("unexpected {:?}", other),
    }
}

#[test]
fn error_messages_read_as_diagnostics() {
    let e = parse("\\").unwrap_err();
    assert_eq!(e.message(), "Unexpected character '\\' at line 1 position 1");
    let e = parse("[\n            \\]").unwrap_err();
    assert_eq!(e.message(), "Unexpected character '\\' at line 2 position 13");
    let e = parse("").unwrap_err();
    assert_eq!(e.message(), "Unexpected end of input");
    let e = parse("[:]").unwrap_err();
    assert_eq!(e.message(), "Parse error: Unexpected colon");
}
