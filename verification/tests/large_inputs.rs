use minijson::JSONValue;
use minijson::parse;

#[test]
fn large_flat_array() {
    let n: usize = 50_000;
    let mut text = String::from("[");
    for i in 0..n {
        if i > 0 {
            text.push(',');
        }
        text.push_str(&format!("{}", i));
    }
    text.push(']');
    let v = parse(&text).unwrap();
    let arr = v.as_array().unwrap();
    assert_eq!(arr.len(), n);
    assert_eq!(v.at(0).unwrap().as_number().unwrap(), "0");
    assert_eq!(v.at(n - 1).unwrap().as_number().unwrap(), "49999");
    assert!(v.at(n).is_none());
}

#[test]
fn large_array_of_nested_objects() {
    let n: usize = 20_000;
    let mut text = String::from("[");
    for i in 0..n {
        if i > 0 {
            text.push(',');
        }
        text.push_str(&format!(
            "{{\"id\": {}, \"name\": \"user{}\", \"tags\": [{}, [true]]}}",
            i, i, i
        ));
    }
    text.push(']');
    let v = parse(&text).unwrap();
    assert_eq!(v.as_array().unwrap().len(), n);
    for i in (0..n).step_by(997) {
        let user = v.at(i).unwrap();
        assert_eq!(user.get("id").unwrap().as_number().unwrap(), &format!("{}", i));
        assert_eq!(user.get("name").unwrap().as_string().unwrap(), &format!("user{}", i));
        let tags = user.get("tags").unwrap();
        assert_eq!(tags.at(0).unwrap().as_number().unwrap(), &format!("{}", i));
        assert_eq!(tags.at(1).unwrap().at(0).unwrap(), &JSONValue::Bool(true));
    }
    let last = v.at(n - 1).unwrap();
    assert_eq!(last.get("id").unwrap().as_number().unwrap(), "19999");
}

#[test]
fn deep_nesting_without_stack_overflow() {
    let depth: usize = 5_000;
    let mut text = String::new();
    for _ in 0..depth {
        text.push('[');
    }
    text.push_str("null");
    for _ in 0..depth {
        text.push(']');
    }
    let v = parse(&text).unwrap();
    let mut cur = &v;
    let mut levels: usize = 0;
    while let Some(inner) = cur.at(0) {
        cur = inner;
        levels += 1;
    }
    assert_eq!(levels, depth);
    assert_eq!(cur, &JSONValue::Null);
}
