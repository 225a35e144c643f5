use jp::parse;

#[test]
fn empty_string_is_invalid() {
    let input = "";
    let result = parse(input);
    assert!(result.is_err());
}
#[test]
fn empty_object_is_valid() {
    let input = "{}";
    let result = parse(input);
    assert!(result.is_ok());
}
#[test]
fn empty_array_is_valid() {
    let input = "[]";
    let result = parse(input);
    assert!(result.is_ok());
}
#[test]
fn invalid_key() {
    let input = r#"{key: "value"}"#;
    let result = parse(input);
    assert!(result.is_err());
}
#[test]
fn invalid_boolean() {
    let input = r#"{"key": True}"#;
    let result = parse(input);
    assert!(result.is_err());
}
#[test]
fn invalid_null() {
    let input = r#"{"key": Null}"#;
    let result = parse(input);
    assert!(result.is_err());
}
#[test]
fn trailing_comma_is_invalid() {
    let input = r#"{
        "key": "value",
        "int": 42,
        "float": 3.14,
        "bool_true": true,
        "bool_false": false,
        "null_type": null,
        "empty_array": [],
        "array": ["one", "two"],
        "empty_object": {},
        "object": {
            "int": 42
        },
    }"#;
    let result = parse(input);
    assert!(result.is_err());
}
#[test]
fn json_is_valid() {
    let input = r#"{
        "key": "value",
        "int": 42,
        "float": 3.14,
        "bool_true": true,
        "bool_false": false,
        "null_type": null,
        "empty_array": [],
        "array": ["one", "two"],
        "empty_object": {},
        "object": {
            "int": 42
        }
    }"#;
    let result = parse(input);
    assert!(result.is_ok());
}
