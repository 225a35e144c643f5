use jp::lexer::Lexer;
use jp::parser::Parser;
use jp::types::{Error, JsonValue, Token, TokenType};

fn token(token_type: TokenType, value: Option<JsonValue>, line: usize, column: usize) -> Token {
    Token { token_type, value, line, column }
}

fn lex(text: &str) -> Result<Vec<Token>, Error> {
    Lexer::from(text).lex()
}

#[test]
fn newline_begins_a_line_at_column_zero() {
    let tokens = lex("{\n  \"a\": 1,\r\n\t\"b\": [true]\n}").unwrap();
    let places: Vec<(usize, usize)> = tokens.iter().map(|t| (t.line, t.column)).collect();
    assert_eq!(
        places,
        vec![
            (0, 0),
            (1, 2),
            (1, 5),
            (1, 7),
            (1, 8),
            (2, 1),
            (2, 4),
            (2, 6),
            (2, 7),
            (2, 11),
            (3, 0)
        ]
    );
    assert!(tokens[1..10].iter().all(|t| t.line >= 1));
}

#[test]
fn newline_inside_a_string_begins_no_line() {
    let tokens = lex("[\"a\nb\", 1]").unwrap();
    assert_eq!(
        tokens,
        vec![
            token(TokenType::LeftBracket, None, 0, 0),
            token(TokenType::String, Some(JsonValue::String("a\nb".to_string())), 0, 1),
            token(TokenType::Comma, None, 0, 6),
            token(TokenType::Number, Some(JsonValue::Number("1".to_string())), 0, 8),
            token(TokenType::RightBracket, None, 0, 9),
        ]
    );
}

#[test]
fn columns_count_characters() {
    let tokens = lex("[\"\u{e9}\u{1f600}\",1]").unwrap();
    assert_eq!(tokens[2], token(TokenType::Comma, None, 0, 5));
    assert_eq!(tokens[3], token(TokenType::Number, Some(JsonValue::Number("1".to_string())), 0, 6));
}

#[test]
fn literals_carry_values_and_punctuation_none() {
    let tokens = lex("true false null , : [ ] { } 1 \"s\"").unwrap();
    let kinds: Vec<TokenType> = tokens.iter().map(|t| t.token_type).collect();
    assert_eq!(
        kinds,
        vec![
            TokenType::Bool,
            TokenType::Bool,
            TokenType::Null,
            TokenType::Comma,
            TokenType::Colon,
            TokenType::LeftBracket,
            TokenType::RightBracket,
            TokenType::LeftBrace,
            TokenType::RightBrace,
            TokenType::Number,
            TokenType::String,
        ]
    );
    assert_eq!(tokens[0].value, Some(JsonValue::Bool(true)));
    assert_eq!(tokens[1].value, Some(JsonValue::Bool(false)));
    assert_eq!(tokens[2].value, Some(JsonValue::Null));
    for punctuation in &tokens[3..9] {
        assert_eq!(punctuation.value, None);
    }
    assert_eq!(tokens[9].value, Some(JsonValue::Number("1".to_string())));
    assert_eq!(tokens[10].value, Some(JsonValue::String("s".to_string())));
}

#[test]
fn numeric_run_is_taken_whole() {
    assert_eq!(
        lex("-1.5e-3"),
        Ok(vec![token(TokenType::Number, Some(JsonValue::Number("-1.5e-3".to_string())), 0, 0)])
    );
    assert_eq!(
        lex("truefalse"),
        Ok(vec![
            token(TokenType::Bool, Some(JsonValue::Bool(true)), 0, 0),
            token(TokenType::Bool, Some(JsonValue::Bool(false)), 0, 4),
        ])
    );
    assert_eq!(
        lex("nulle"),
        Err(Error::ParseNumberError("Failed to parse float: invalid float literal".to_string()))
    );
}

#[test]
fn whitespace_moves_the_cursor() {
    let mut lexer = Lexer::from("\n {}");
    lexer.whitespace('\n');
    lexer.whitespace(' ');
    assert_eq!(
        lexer.lex(),
        Ok(vec![token(TokenType::LeftBrace, None, 1, 1), token(TokenType::RightBrace, None, 1, 2)])
    );
    let mut lexer = Lexer::from("  {");
    lexer.whitespace(' ');
    lexer.whitespace('\n');
    assert_eq!(lexer.lex(), Ok(vec![token(TokenType::LeftBrace, None, 1, 0)]));
}

#[test]
fn lexer_rests_where_it_stopped() {
    let mut lexer = Lexer::from("[1, ?]");
    assert_eq!(lexer.lex(), Err(Error::UnexpectedCharacter('?', (0, 4))));
    assert_eq!(lexer.lex(), Err(Error::UnexpectedCharacter('?', (0, 4))));
    let mut lexer = Lexer::from("[1]");
    assert_eq!(lexer.lex().map(|tokens| tokens.len()), Ok(3));
    assert_eq!(lexer.lex(), Ok(vec![]));
}

#[test]
fn parser_reads_tokens_not_text() {
    let tokens = vec![
        token(TokenType::LeftBracket, None, 7, 7),
        token(TokenType::Number, Some(JsonValue::Bool(true)), 0, 0),
        token(TokenType::RightBracket, None, 0, 0),
    ];
    assert_eq!(Parser::new(&tokens).parse(), Ok(JsonValue::Array(vec![JsonValue::Bool(true)])));
}

#[test]
fn literal_without_value_is_refused() {
    let tokens = vec![
        token(TokenType::LeftBracket, None, 0, 0),
        token(TokenType::Number, None, 3, 14),
        token(TokenType::RightBracket, None, 0, 0),
    ];
    assert_eq!(
        Parser::new(&tokens).parse(),
        Err(Error::UnexpectedToken("Unexpected number at line 3, col 14".to_string()))
    );
}

#[test]
fn key_must_be_a_string_token_with_a_string() {
    let tokens = vec![
        token(TokenType::LeftBrace, None, 0, 0),
        token(TokenType::String, Some(JsonValue::Null), 0, 1),
        token(TokenType::Colon, None, 0, 2),
        token(TokenType::Null, Some(JsonValue::Null), 0, 3),
        token(TokenType::RightBrace, None, 0, 4),
    ];
    assert_eq!(
        Parser::new(&tokens).parse(),
        Err(Error::UnexpectedToken("Expected string as object key".to_string()))
    );
}

#[test]
fn parser_without_tokens_is_end_of_input() {
    assert_eq!(Parser::new(&[]).parse(), Err(Error::UnexpectedEndOfInput));
}

#[test]
fn failed_parse_leaves_the_parser_where_it_was() {
    let tokens = lex("[1,]").unwrap();
    let mut parser = Parser::new(&tokens);
    let first = parser.parse();
    assert!(first.is_err());
    assert_eq!(parser.parse(), first);
    let tokens = lex("[1]").unwrap();
    let mut parser = Parser::new(&tokens);
    assert!(parser.parse().is_ok());
    assert_eq!(parser.parse(), Err(Error::UnexpectedEndOfInput));
}

#[test]
fn token_kinds_in_messages() {
    let names: Vec<String> = [
        TokenType::Null,
        TokenType::Bool,
        TokenType::Number,
        TokenType::String,
        TokenType::Comma,
        TokenType::Colon,
        TokenType::LeftBrace,
        TokenType::RightBrace,
        TokenType::LeftBracket,
        TokenType::RightBracket,
    ]
    .iter()
    .map(|kind| kind.to_string())
    .collect();
    assert_eq!(names, vec!["null", "boolean", "number", "string", ",", ":", "{", "}", "[", "]"]);
}

#[test]
fn format_indents_by_depth() {
    let tokens = lex(r#"{"a":1,"b":[true,null],"c":{},"d":[]}"#).unwrap();
    let expected = "{\n    \"a\": 1,\n    \"b\": [\n        true,\n        null\n    ],\n    \"c\": {},\n    \"d\": []\n}";
    assert_eq!(jp::pretty::format(&tokens, 4), Ok(expected.to_string()));
}

#[test]
fn format_with_other_widths() {
    let tokens = lex("[1,[2]]").unwrap();
    assert_eq!(jp::pretty::format(&tokens, 2), Ok("[\n  1,\n  [\n    2\n  ]\n]".to_string()));
    assert_eq!(jp::pretty::format(&tokens, 0), Ok("[\n1,\n[\n2\n]\n]".to_string()));
    assert_eq!(jp::pretty::format(&[], 4), Ok(String::new()));
}

#[test]
fn format_of_unbalanced_tokens() {
    let tokens = lex("]]1").unwrap();
    assert_eq!(jp::pretty::format(&tokens, 4), Ok("\n]\n]1".to_string()));
}
