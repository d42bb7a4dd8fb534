use minijson::JSONError;
use minijson::JSONValue;
use minijson::parse;

#[test]
fn test_arr() {
    let obj1 = JSONValue::Text("hello".to_string());
    let obj2 = JSONValue::Number("42".to_string());
    let obj3 = JSONValue::Bool(true);
    let arr = JSONValue::Array(vec![obj1, obj2, obj3]);
    assert_eq!(arr.to_text(), "[\"hello\", 42, true]");
}

#[test]
fn test_arr_from_str() {
    let str = "[\"hello mister!\", 42, true]";
    let arr = parse(str).unwrap();
    match arr.at(0) {
        Some(JSONValue::Text(s)) => assert_eq!(s, "hello mister!"),
        _ => panic!("arr[0] is not a string"),
    }

    match arr.at(1) {
        Some(JSONValue::Number(n)) => assert_eq!(n.parse::<f64>().unwrap(), 42.0),
        _ => panic!("arr[1] is not a number"),
    }
}

#[test]
fn test_obj_from_str() {
    let str = r#"{"name": "John", "age": 42, "is_student": false, "jobs": ["student", "teacher", "employee", {"type": "actor", "show": "phantom"}]}"#;
    let obj = parse(str).unwrap();

    let name = obj.get("name").unwrap();
    match name {
        JSONValue::Text(s) => assert_eq!(s, "John"),
        _ => panic!("name is not a string"),
    }

    let age = obj.get("age").unwrap();
    match age {
        JSONValue::Number(n) => assert_eq!(n.parse::<f64>().unwrap(), 42.0),
        _ => panic!("age is not a number"),
    }

    let is_student = obj.get("is_student").unwrap();
    match is_student {
        JSONValue::Bool(b) => assert!(!(*b)),
        _ => panic!("is_student is not a boolean"),
    }

    let jobs = obj.get("jobs").unwrap();

    let job1 = jobs.at(0).unwrap();
    match job1 {
        JSONValue::Text(s) => assert_eq!(s, "student"),
        _ => panic!("job1 is not a string"),
    }

    let job2 = jobs.at(1).unwrap();
    match job2 {
        JSONValue::Text(s) => assert_eq!(s, "teacher"),
        _ => panic!("job2 is not a string"),
    }

    let job3 = jobs.at(2).unwrap();
    match job3 {
        JSONValue::Text(s) => assert_eq!(s, "employee"),
        _ => panic!("job3 is not a string"),
    }

    let job4 = jobs.at(3).unwrap();

    match job4.get("type") {
        Some(JSONValue::Text(s)) => assert_eq!(s, "actor"),
        _ => panic!("job4 type is not a string"),
    }

    match job4.get("show") {
        Some(JSONValue::Text(s)) => assert_eq!(s, "phantom"),
        _ => panic!("job4 show is not a string"),
    }
}

#[test]
fn test_bad_parse() {
    let str = r#"{"name": "Jo\"hn", [1,2,3]: "asd"}"#;
    let obj = parse(str);
    assert!(obj.is_err());
}

#[test]
fn array_as_key_fails() {
    assert!(parse(r#"{[1,2,3]: "asd"}"#).is_err());
}

#[test]
fn number_as_key_fails() {
    match parse(r#"{42: "asd"}"#) {
        Err(JSONError::ParseError(m)) => assert_eq!(m, "Non string used as object key"),
        other => panic!("expected a non-string-key error, got {:?}", other),
    }
}

#[test]
fn empty_input_is_end_of_input() {
    match parse("") {
        Err(JSONError::UnexpectedEndOfInput) => (),
        other => panic!("expected an end-of-input error, got {:?}", other),
    }
}

#[test]
fn whitespace_only_input_is_end_of_input() {
    match parse("  \n\t ") {
        Err(JSONError::UnexpectedEndOfInput) => (),
        other => panic!("expected an end-of-input error, got {:?}", other),
    }
}

#[test]
fn unterminated_string_is_end_of_input() {
    match parse("\"abc") {
        Err(JSONError::UnexpectedEndOfInput) => (),
        other => panic!("expected an end-of-input error, got {:?}", other),
    }
}

#[test]
fn unterminated_string_in_array_is_end_of_input() {
    match parse("[\"abc") {
        Err(JSONError::UnexpectedEndOfInput) => (),
        other => panic!("expected an end-of-input error, got {:?}", other),
    }
}

#[test]
fn duplicate_keys_last_write_wins() {
    let obj = parse(r#"{"a": 1, "b": 2, "a": 3}"#).unwrap();
    match obj.get("a") {
        Some(JSONValue::Number(n)) => assert_eq!(n, "3"),
        _ => panic!("a is not a number"),
    }
    match obj.get("b") {
        Some(JSONValue::Number(n)) => assert_eq!(n, "2"),
        _ => panic!("b is not a number"),
    }
    let fields = obj.as_object().unwrap();
    assert_eq!(fields.len(), 2);
    assert_eq!(fields[0].0, "a");
    assert_eq!(fields[1].0, "b");
}

#[test]
fn nested_containers() {
    let v = parse(r#"[[1, [2]], {"a": [true, null]}, []]"#).unwrap();
    assert_eq!(v.as_array().unwrap().len(), 3);
    assert_eq!(v.at(0).unwrap().at(1).unwrap().at(0).unwrap(), &JSONValue::Number("2".to_string()));
    assert_eq!(v.at(1).unwrap().get("a").unwrap().at(1).unwrap(), &JSONValue::Null);
    assert_eq!(v.at(2).unwrap().as_array().unwrap().len(), 0);
}

#[test]
fn empty_object_and_array() {
    let v = parse("{}").unwrap();
    assert_eq!(v.as_object().unwrap().len(), 0);
    let v = parse("[]").unwrap();
    assert_eq!(v.as_array().unwrap().len(), 0);
}

#[test]
fn escaped_quote_stays_in_content() {
    let v = parse(r#"["Jo\"hn"]"#).unwrap();
    match v.at(0) {
        Some(JSONValue::Text(s)) => assert_eq!(s, "Jo\\\"hn"),
        _ => panic!("not a string"),
    }
}

#[test]
fn backslash_outside_string_is_positioned() {
    match parse("\\") {
        Err(JSONError::UnexpectedCharacter(c, l, p)) => {
            assert_eq!(c, '\\');
            assert_eq!(l, 1);
            assert_eq!(p, 1);
        },
        other => panic!("expected a character error, got {:?}", other),
    }
    match parse("[\n \\]") {
        Err(JSONError::UnexpectedCharacter(c, l, p)) => {
            assert_eq!(c, '\\');
            assert_eq!(l, 2);
            assert_eq!(p, 2);
        },
        other => panic!("expected a character error, got {:?}", other),
    }
}

#[test]
fn structural_errors_report_their_rule() {
    match parse("[:]") {
        Err(JSONError::ParseError(m)) => assert_eq!(m, "Unexpected colon"),
        other => panic!("unexpected {:?}", other),
    }
    match parse(",") {
        Err(JSONError::ParseError(m)) => assert_eq!(m, "Unexpected comma"),
        other => panic!("unexpected {:?}", other),
    }
    match parse("[1}") {
        Err(JSONError::ParseError(m)) => assert_eq!(m, "Unexpected end curly brace"),
        other => panic!("unexpected {:?}", other),
    }
    match parse(r#"{"a": 1]"#) {
        Err(JSONError::ParseError(m)) => assert_eq!(m, "Unexpected end square brace"),
        other => panic!("unexpected {:?}", other),
    }
    match parse(r#"{"a"}"#) {
        Err(JSONError::ParseError(m)) => assert_eq!(m, "Unkeyed child of object"),
        other => panic!("unexpected {:?}", other),
    }
}

#[test]
fn open_scope_is_end_of_input() {
    match parse("[1, 2") {
        Err(JSONError::UnexpectedEndOfInput) => (),
        other => panic!("expected an end-of-input error, got {:?}", other),
    }
}

#[test]
fn two_top_level_values_are_rejected() {
    match parse("1 2") {
        Err(JSONError::UnexpectedEndOfInput) => (),
        other => panic!("expected an end-of-input error, got {:?}", other),
    }
    match parse("[] []") {
        Err(JSONError::UnexpectedEndOfInput) => (),
        other => panic!("expected an end-of-input error, got {:?}", other),
    }
}

#[test]
fn number_literals_keep_their_text() {
    let v = parse("[0, -1, 2.5, .5, 3., 1e5, -1.25E-3, inf, nan, +4]").unwrap();
    let expect = ["0", "-1", "2.5", ".5", "3.", "1e5", "-1.25E-3", "inf", "nan", "+4"];
    for (i, e) in expect.iter().enumerate() {
        match v.at(i) {
            Some(JSONValue::Number(n)) => assert_eq!(n, e),
            other => panic!("element {} is {:?}", i, other),
        }
        assert_eq!(
            v.at(i).unwrap().as_number().unwrap().parse::<f64>().is_ok(),
            true
        );
    }
}

#[test]
fn non_number_run_is_not_a_number() {
    let v = parse("[hello]").unwrap();
    match v.at(0) {
        Some(JSONValue::Text(s)) => assert_eq!(s, "ell"),
        other => panic!("unexpected {:?}", other),
    }
    match parse("[x]") {
        Err(JSONError::UnexpectedCharacter(c, _, _)) => assert_eq!(c, 'x'),
        other => panic!("unexpected {:?}", other),
    }
}

#[test]
fn array_scenario_has_three_typed_elements() {
    let v = parse("[\"hello mister!\", 42, true]").unwrap();
    assert_eq!(v.as_array().unwrap().len(), 3);
    assert_eq!(v.at(0).unwrap().as_string().unwrap(), "hello mister!");
    assert_eq!(v.at(1).unwrap().as_number().unwrap().parse::<f64>().unwrap(), 42.0);
    assert_eq!(v.at(2).unwrap().as_bool(), Some(true));
}
