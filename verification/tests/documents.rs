use jp::parse;
use jp::types::{Error, JsonValue};

fn number(text: &str) -> JsonValue {
    JsonValue::Number(text.to_string())
}

fn string(text: &str) -> JsonValue {
    JsonValue::String(text.to_string())
}

#[test]
fn empty_text_is_end_of_input() {
    assert_eq!(parse(""), Err(Error::UnexpectedEndOfInput));
    assert_eq!(parse(" \t\r\n "), Err(Error::UnexpectedEndOfInput));
}

#[test]
fn empty_object_and_empty_array() {
    assert_eq!(parse("{}"), Ok(JsonValue::Object(vec![])));
    assert_eq!(parse("[]"), Ok(JsonValue::Array(vec![])));
    assert_eq!(parse(" [ ] "), Ok(JsonValue::Array(vec![])));
}

#[test]
fn object_with_one_entry() {
    let value = parse(r#"{"key":"value"}"#).unwrap();
    assert_eq!(value, JsonValue::Object(vec![("key".to_string(), string("value"))]));
    assert_eq!(value.get("key"), Some(&string("value")));
    assert_eq!(value.get("other"), None);
}

#[test]
fn duplicate_key_keeps_the_last_value() {
    let value = parse(r#"{"a":1,"a":2}"#).unwrap();
    assert_eq!(value.get("a"), Some(&number("2")));
    assert_eq!(value, JsonValue::Object(vec![("a".to_string(), number("2"))]));
}

#[test]
fn duplicate_key_keeps_its_place() {
    let value = parse(r#"{"a":1,"b":2,"a":3}"#).unwrap();
    assert_eq!(
        value,
        JsonValue::Object(vec![("a".to_string(), number("3")), ("b".to_string(), number("2"))])
    );
}

#[test]
fn numbers_keep_their_text_and_value() {
    let value = parse(r#"{"n":-3.14}"#).unwrap();
    match value.get("n") {
        Some(JsonValue::Number(text)) => {
            assert_eq!(text, "-3.14");
            assert_eq!(text.parse::<f64>(), Ok(-3.14));
        }
        other => panic!("no number: {:?}", other),
    }
    let value = parse(r#"{"n":1e10}"#).unwrap();
    match value.get("n") {
        Some(JsonValue::Number(text)) => {
            assert_eq!(text, "1e10");
            assert_eq!(text.parse::<f64>(), Ok(1e10));
        }
        other => panic!("no number: {:?}", other),
    }
}

#[test]
fn every_accepted_number_is_a_float() {
    for text in ["0", "42", "-7", "1.", ".5", "-.5", "1.5", "1e5", "1E5", "1e-5", "1.e2", "-0.25E-3", "007"] {
        let value = parse(&format!("[{}]", text)).unwrap();
        assert_eq!(value, JsonValue::Array(vec![number(text)]));
        assert!(text.parse::<f64>().is_ok());
    }
}

#[test]
fn every_refused_number_is_no_float() {
    for text in ["-", ".", "..", "e", "E5", "1e", "1e-", "1-2", "--1", "1.2.3", "1e5e5", "-e1", ".e1", "1e1.5"] {
        assert_eq!(
            parse(&format!("[{}]", text)),
            Err(Error::ParseNumberError("Failed to parse float: invalid float literal".to_string()))
        );
        assert!(text.parse::<f64>().is_err());
    }
}

#[test]
fn nested_values() {
    let value = parse(r#"{"a":[1,true,null,"x",{"b":[]}],"c":false}"#).unwrap();
    let inner = JsonValue::Object(vec![("b".to_string(), JsonValue::Array(vec![]))]);
    let list = JsonValue::Array(vec![
        number("1"),
        JsonValue::Bool(true),
        JsonValue::Null,
        string("x"),
        inner,
    ]);
    assert_eq!(
        value,
        JsonValue::Object(vec![("a".to_string(), list), ("c".to_string(), JsonValue::Bool(false))])
    );
}

#[test]
fn strings_are_taken_as_they_stand() {
    let value = parse("[\"a\\n\", \"two\nlines\", \"caf\u{e9}\"]").unwrap();
    assert_eq!(
        value,
        JsonValue::Array(vec![string("a\\n"), string("two\nlines"), string("caf\u{e9}")])
    );
}

#[test]
fn bare_literal_at_the_root_is_refused() {
    assert_eq!(
        parse("42"),
        Err(Error::UnexpectedToken(
            "Expected JSON object or array, got number, line 0, col 0".to_string()
        ))
    );
    assert_eq!(
        parse(r#" "hello""#),
        Err(Error::UnexpectedToken(
            "Expected JSON object or array, got string, line 0, col 1".to_string()
        ))
    );
    assert_eq!(
        parse("\ntrue"),
        Err(Error::UnexpectedToken(
            "Expected JSON object or array, got boolean, line 1, col 0".to_string()
        ))
    );
    assert_eq!(
        parse("null"),
        Err(Error::UnexpectedToken(
            "Expected JSON object or array, got null, line 0, col 0".to_string()
        ))
    );
    assert_eq!(
        parse(","),
        Err(Error::UnexpectedToken("Expected JSON object or array, got ,, line 0, col 0".to_string()))
    );
}

#[test]
fn unquoted_key_is_an_unexpected_character() {
    assert_eq!(parse(r#"{key: "value"}"#), Err(Error::UnexpectedCharacter('k', (0, 1))));
}

#[test]
fn literals_are_case_sensitive() {
    assert_eq!(parse(r#"{"key": True}"#), Err(Error::UnexpectedCharacter('T', (0, 8))));
    assert_eq!(parse(r#"{"key": Null}"#), Err(Error::UnexpectedCharacter('N', (0, 8))));
    assert_eq!(parse(r#"{"key": tRue}"#), Err(Error::UnexpectedCharacter('t', (0, 8))));
    assert_eq!(parse(r#"{"key": fals}"#), Err(Error::UnexpectedCharacter('f', (0, 8))));
    assert_eq!(parse(r#"{"key": nul}"#), Err(Error::UnexpectedCharacter('n', (0, 8))));
}

#[test]
fn trailing_comma_in_object_is_refused() {
    assert_eq!(
        parse(r#"{"a":1,}"#),
        Err(Error::UnexpectedToken("Unexpected comma at line 0, column 6".to_string()))
    );
    assert_eq!(
        parse("{\"a\":1\n,\n}"),
        Err(Error::UnexpectedToken("Unexpected comma at line 1, column 0".to_string()))
    );
}

#[test]
fn trailing_comma_in_array_is_refused() {
    assert_eq!(
        parse("[1,]"),
        Err(Error::UnexpectedToken("Unexpected token ] at line 0, col 3".to_string()))
    );
    assert_eq!(
        parse("[1,}"),
        Err(Error::UnexpectedToken("Unexpected comma at line 0, column 2".to_string()))
    );
    assert_eq!(
        parse(r#"{"a":[1,2,],"b":3}"#),
        Err(Error::UnexpectedToken("Unexpected token ] at line 0, col 10".to_string()))
    );
}

#[test]
fn misplaced_tokens_are_refused() {
    assert_eq!(
        parse(r#"{"a" 1}"#),
        Err(Error::UnexpectedToken("Expected colon after object key".to_string()))
    );
    assert_eq!(
        parse(r#"{1:2}"#),
        Err(Error::UnexpectedToken("Expected string as object key".to_string()))
    );
    assert_eq!(
        parse(r#"{,}"#),
        Err(Error::UnexpectedToken("Expected string as object key".to_string()))
    );
    assert_eq!(
        parse(r#"{"a":}"#),
        Err(Error::UnexpectedToken("Unexpected token } at line 0, col 5".to_string()))
    );
    assert_eq!(
        parse(r#"{"a":1 "b":2}"#),
        Err(Error::UnexpectedToken(
            "Unexpected token in object: string, line 0, col 7".to_string()
        ))
    );
    assert_eq!(
        parse("[1 2]"),
        Err(Error::UnexpectedToken("Unexpected token in array: number, line 0, col 3".to_string()))
    );
    assert_eq!(
        parse("[1}"),
        Err(Error::UnexpectedToken("Unexpected token in array: }, line 0, col 2".to_string()))
    );
    assert_eq!(
        parse("[:]"),
        Err(Error::UnexpectedToken("Unexpected token : at line 0, col 1".to_string()))
    );
}

#[test]
fn text_that_ends_early_is_end_of_input() {
    for text in ["[", "{", "[1", "[1,", "[[", r#"{"a""#, r#"{"a":"#, r#"{"a":1"#, r#"{"a":1,"#, "[{"] {
        assert_eq!(parse(text), Err(Error::UnexpectedEndOfInput), "{}", text);
    }
}

#[test]
fn tokens_after_the_document_are_refused() {
    assert_eq!(
        parse("{} {}"),
        Err(Error::UnexpectedToken("Unexpected token { at line 0, col 3".to_string()))
    );
    assert_eq!(
        parse("[1]]"),
        Err(Error::UnexpectedToken("Unexpected token ] at line 0, col 3".to_string()))
    );
    assert_eq!(
        parse("[]\n1"),
        Err(Error::UnexpectedToken("Unexpected token number at line 1, col 0".to_string()))
    );
}

#[test]
fn unterminated_string_is_refused() {
    assert_eq!(parse(r#"{"a"#), Err(Error::UnexpectedEndOfString));
    assert_eq!(parse(r#"["a", "b]"#), Err(Error::UnexpectedEndOfString));
    assert_eq!(parse("\""), Err(Error::UnexpectedEndOfString));
}

#[test]
fn the_first_error_wins() {
    assert_eq!(parse("[1,] ?"), Err(Error::UnexpectedCharacter('?', (0, 5))));
    assert_eq!(parse("? \""), Err(Error::UnexpectedCharacter('?', (0, 0))));
}

#[test]
fn form_feed_is_no_whitespace() {
    assert_eq!(parse("[\u{c}]"), Err(Error::UnexpectedCharacter('\u{c}', (0, 1))));
}

#[test]
fn get_looks_into_objects_only() {
    assert_eq!(parse("[1]").unwrap().get("0"), None);
    assert_eq!(JsonValue::Null.get(""), None);
    let twice = JsonValue::Object(vec![("a".to_string(), number("1")), ("a".to_string(), number("2"))]);
    assert_eq!(twice.get("a"), Some(&number("1")));
}

#[test]
fn clone_is_equal() {
    let value = parse(r#"{"a":[1,true,null,"x",{"b":[]}],"c":false}"#).unwrap();
    assert_eq!(value.clone(), value);
}

#[test]
fn values_in_messages() {
    assert_eq!(JsonValue::Null.to_string(), "null");
    assert_eq!(JsonValue::Bool(true).to_string(), "true");
    assert_eq!(JsonValue::Bool(false).to_string(), "false");
    assert_eq!(number("-3.14").to_string(), "-3.14");
    assert_eq!(string("a b").to_string(), "\"a b\"");
    assert_eq!(JsonValue::Array(vec![JsonValue::Null]).to_string(), "[Array]");
    assert_eq!(JsonValue::Object(vec![]).to_string(), "[Object]");
}

#[test]
fn errors_in_words() {
    assert_eq!(Error::UnexpectedEndOfString.to_string(), "Unexpected end-of-string quote");
    assert_eq!(Error::UnexpectedEndOfInput.to_string(), "Unexpected end of input");
    assert_eq!(
        Error::UnexpectedCharacter('x', (12, 345)).to_string(),
        "Unexpected character: x, line 12 column 345"
    );
    assert_eq!(
        Error::UnexpectedCharacter('\u{e9}', (0, 10)).to_string(),
        "Unexpected character: \u{e9}, line 0 column 10"
    );
    assert_eq!(Error::ParseNumberError("no number".to_string()).to_string(), "no number");
    assert_eq!(Error::UnexpectedToken("no token".to_string()).to_string(), "no token");
    assert_eq!(
        Error::UnexpectedCharacter('x', (usize::MAX, 0)).to_string(),
        format!("Unexpected character: x, line {} column 0", usize::MAX)
    );
}
