use jp::parse;
use jp::types::JsonValue;

#[test]
fn canonical_text_has_no_whitespace() {
    let value = parse(" { \"a\" : [ 1 , true , null , \"x y\" , { } , [ ] ] ,\n \"b\" : -2.5e3 } ").unwrap();
    assert_eq!(value.to_json(), r#"{"a":[1,true,null,"x y",{},[]],"b":-2.5e3}"#);
}

#[test]
fn canonical_text_of_literals() {
    assert_eq!(JsonValue::Null.to_json(), "null");
    assert_eq!(JsonValue::Bool(true).to_json(), "true");
    assert_eq!(JsonValue::Bool(false).to_json(), "false");
    assert_eq!(JsonValue::Number("1.50".to_string()).to_json(), "1.50");
    assert_eq!(JsonValue::String("a".to_string()).to_json(), "\"a\"");
    assert_eq!(JsonValue::Array(vec![]).to_json(), "[]");
    assert_eq!(JsonValue::Object(vec![]).to_json(), "{}");
}

#[test]
fn canonical_text_is_parsed_to_the_same_value() {
    for text in [
        "[]",
        "{}",
        "[[]]",
        r#"{"key":"value"}"#,
        r#"{"a":1,"a":2}"#,
        "[1, 2.5, -3e-2, .5, 1.]",
        "[\"two\nlines\", \"caf\u{e9}\", \"\"]",
        r#"{ "a" : { "b" : [ true, false, null, { "c" : [] } ] }, "d" : "e" }"#,
    ] {
        let value = parse(text).unwrap();
        let again = parse(&value.to_json());
        assert_eq!(again, Ok(value));
    }
}

#[test]
fn canonical_text_is_stable() {
    let text = r#"{"a":[1,true,null,"x",{"b":[]}],"c":false}"#;
    assert_eq!(parse(text).unwrap().to_json(), text);
}
