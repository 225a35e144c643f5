//! A JSON parser in two stages: a tokenizer that turns text into positioned
//! tokens, and a recursive-descent parser that turns tokens into a value.

use vstd::prelude::*;

pub mod canonical;
pub mod lexer;
pub mod parser;
pub mod pretty;
pub mod syntax;
pub mod text;
pub mod types;

use crate::lexer::{lemma_lexed_tokens_wf, lex_text, Cursor, Lexer};
use crate::parser::{lemma_parsed_value_wf, parse_tokens, Parser};
use crate::types::{Error, JsonValue, SpecError, SpecValue};

verus! {

/// The document that `text` holds, or the first error in it: that of the
/// tokenizer where the text has one, else that of the parser.
pub open spec fn parse_text(text: Seq<char>) -> Result<SpecValue, SpecError> {
    match lex_text(text) {
        Ok(tokens) => parse_tokens(tokens),
        Err(error) => Err(error),
    }
}

/// Every document that is parsed is well formed: its numbers are numeric
/// literals, no string or key of it holds a quote, and the keys of each of
/// its objects are distinct.
pub proof fn lemma_parsed_document_wf(text: Seq<char>)
    ensures
        parse_text(text) matches Ok(value) ==> value.wf(),
{
    lemma_lexed_tokens_wf(text, Cursor::start());
    if let Ok(tokens) = lex_text(text) {
        lemma_parsed_value_wf(tokens, 0);
    }
}

/// Parses `input` as a JSON document: one object or one array.
pub fn parse(input: &str) -> (result: Result<JsonValue, Error>)
    ensures
        match parse_text(input@) {
            Ok(value) => result matches Ok(parsed) && parsed@ == value,
            Err(error) => result matches Err(found) && found@ == error,
        },
        result matches Ok(parsed) ==> parsed.wf(),
{
    proof {
        lemma_parsed_document_wf(input@);
    }
    let mut lexer = Lexer::from(input);
    let tokens = match lexer.lex() {
        Ok(tokens) => tokens,
        Err(error) => {
            return Err(error);
        },
    };
    let mut parser = Parser::new(tokens.as_slice());
    parser.parse()
}

} // verus!
