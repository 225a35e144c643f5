//! The parser: from a sequence of tokens to a value, by recursive descent.

use vstd::prelude::*;
use vstd::string::StringExecFns;
use crate::text::{decimal, push_decimal};
use crate::types::{
    entries_model, entries_wf, insert_entry, items_model, items_wf, lemma_insert_keeps_distinct,
    lemma_key_position_found, set_entry, tokens_model, Error, JsonValue, SpecError, SpecToken,
    SpecValue, Token, TokenType,
};

verus! {

/// A message that names the kind of `token` between `head` and `tail`, and
/// then its line and column.
pub open spec fn describe(head: Seq<char>, token: SpecToken, tail: Seq<char>) -> Seq<char> {
    head + token.token_type.name() + tail + decimal(token.line) + ", col "@ + decimal(
        token.column,
    )
}

/// The message for a document that begins with `token`, which opens neither
/// an object nor an array.
pub open spec fn root_message(token: SpecToken) -> Seq<char> {
    describe("Expected JSON object or array, got "@, token, ", line "@)
}

/// The message for `token` where a value must begin, or after the end of
/// the document.
pub open spec fn token_message(token: SpecToken) -> Seq<char> {
    describe("Unexpected token "@, token, " at line "@)
}

/// The message for the literal `token` that carries no value.
pub open spec fn literal_message(token: SpecToken) -> Seq<char> {
    describe("Unexpected "@, token, " at line "@)
}

/// The message for `token` after an element of an array.
pub open spec fn array_message(token: SpecToken) -> Seq<char> {
    describe("Unexpected token in array: "@, token, ", line "@)
}

/// The message for `token` after a member of an object.
pub open spec fn object_message(token: SpecToken) -> Seq<char> {
    describe("Unexpected token in object: "@, token, ", line "@)
}

/// The message for the comma `token` that a closing brace follows.
pub open spec fn comma_message(token: SpecToken) -> Seq<char> {
    "Unexpected comma at line "@ + decimal(token.line) + ", column "@ + decimal(token.column)
}

/// The message for a member that does not begin with a string.
pub open spec fn key_message() -> Seq<char> {
    "Expected string as object key"@
}

/// The message for a key that no colon follows.
pub open spec fn colon_message() -> Seq<char> {
    "Expected colon after object key"@
}

/// The key that `token` gives: the text of a string token.
pub open spec fn key_of(token: SpecToken) -> Option<Seq<char>> {
    if token.token_type == TokenType::String {
        match token.value {
            Some(SpecValue::String(key)) => Some(key),
            _ => None,
        }
    } else {
        None
    }
}

/// The value that begins at `at`, and the position after it: an object, an
/// array, or the value that a literal token carries.
pub open spec fn parse_value_at(tokens: Seq<SpecToken>, at: int) -> Result<
    (SpecValue, int),
    SpecError,
>
    decreases tokens.len() - at, 1nat,
{
    if !(0 <= at < tokens.len()) {
        Err(SpecError::UnexpectedEndOfInput)
    } else if tokens[at].token_type == TokenType::LeftBrace {
        parse_object_at(tokens, at)
    } else if tokens[at].token_type == TokenType::LeftBracket {
        parse_array_at(tokens, at)
    } else if tokens[at].token_type.is_literal() {
        match tokens[at].value {
            Some(value) => Ok((value, at + 1)),
            None => Err(SpecError::UnexpectedToken(literal_message(tokens[at]))),
        }
    } else {
        Err(SpecError::UnexpectedToken(token_message(tokens[at])))
    }
}

/// The array whose opening bracket stands at `at`, and the position after
/// its closing bracket.
pub open spec fn parse_array_at(tokens: Seq<SpecToken>, at: int) -> Result<
    (SpecValue, int),
    SpecError,
>
    decreases tokens.len() - at, 0nat,
{
    if at < 0 || at + 1 >= tokens.len() {
        Err(SpecError::UnexpectedEndOfInput)
    } else if tokens[at + 1].token_type == TokenType::RightBracket {
        Ok((SpecValue::Array(Seq::empty()), at + 2))
    } else {
        parse_elements(tokens, at + 1, Seq::empty())
    }
}

/// The array that holds `done` and then the elements from `at` on, each but
/// the last followed by a comma, up to the closing bracket; and the position
/// after that bracket. A comma that a closing brace follows is refused.
pub open spec fn parse_elements(tokens: Seq<SpecToken>, at: int, done: Seq<SpecValue>) -> Result<
    (SpecValue, int),
    SpecError,
>
    decreases tokens.len() - at, 2nat,
{
    if !(0 <= at < tokens.len()) {
        Err(SpecError::UnexpectedEndOfInput)
    } else {
        match parse_value_at(tokens, at) {
            Err(error) => Err(error),
            Ok((value, next)) => {
                if !(at < next < tokens.len()) {
                    Err(SpecError::UnexpectedEndOfInput)
                } else if tokens[next].token_type == TokenType::Comma {
                    if next + 1 >= tokens.len() {
                        Err(SpecError::UnexpectedEndOfInput)
                    } else if tokens[next + 1].token_type == TokenType::RightBrace {
                        Err(SpecError::UnexpectedToken(comma_message(tokens[next])))
                    } else {
                        parse_elements(tokens, next + 1, done.push(value))
                    }
                } else if tokens[next].token_type == TokenType::RightBracket {
                    Ok((SpecValue::Array(done.push(value)), next + 1))
                } else {
                    Err(SpecError::UnexpectedToken(array_message(tokens[next])))
                }
            },
        }
    }
}

/// The object whose opening brace stands at `at`, and the position after its
/// closing brace.
pub open spec fn parse_object_at(tokens: Seq<SpecToken>, at: int) -> Result<
    (SpecValue, int),
    SpecError,
>
    decreases tokens.len() - at, 0nat,
{
    if at < 0 || at + 1 >= tokens.len() {
        Err(SpecError::UnexpectedEndOfInput)
    } else if tokens[at + 1].token_type == TokenType::RightBrace {
        Ok((SpecValue::Object(Seq::empty()), at + 2))
    } else {
        parse_members(tokens, at + 1, Seq::empty())
    }
}

/// The object that holds `done` and then the members from `at` on, each a
/// string key, a colon and a value, and each but the last followed by a
/// comma, up to the closing brace; and the position after that brace. A key
/// that occurs again overwrites its value. A comma that a closing brace
/// follows is refused.
pub open spec fn parse_members(
    tokens: Seq<SpecToken>,
    at: int,
    done: Seq<(Seq<char>, SpecValue)>,
) -> Result<(SpecValue, int), SpecError>
    decreases tokens.len() - at, 2nat,
{
    if !(0 <= at < tokens.len()) {
        Err(SpecError::UnexpectedEndOfInput)
    } else {
        match key_of(tokens[at]) {
            None => Err(SpecError::UnexpectedToken(key_message())),
            Some(key) => {
                if at + 1 >= tokens.len() {
                    Err(SpecError::UnexpectedEndOfInput)
                } else if tokens[at + 1].token_type != TokenType::Colon {
                    Err(SpecError::UnexpectedToken(colon_message()))
                } else {
                    match parse_value_at(tokens, at + 2) {
                        Err(error) => Err(error),
                        Ok((value, next)) => {
                            if !(at < next < tokens.len()) {
                                Err(SpecError::UnexpectedEndOfInput)
                            } else if tokens[next].token_type == TokenType::Comma {
                                if next + 1 >= tokens.len() {
                                    Err(SpecError::UnexpectedEndOfInput)
                                } else if tokens[next + 1].token_type == TokenType::RightBrace {
                                    Err(
                                        SpecError::UnexpectedToken(
                                            comma_message(tokens[next]),
                                        ),
                                    )
                                } else {
                                    parse_members(tokens, next + 1, insert_entry(done, key, value))
                                }
                            } else if tokens[next].token_type == TokenType::RightBrace {
                                Ok((SpecValue::Object(insert_entry(done, key, value)), next + 1))
                            } else {
                                Err(SpecError::UnexpectedToken(object_message(tokens[next])))
                            }
                        },
                    }
                }
            },
        }
    }
}

/// The document that begins at `at`: one object or one array, after which
/// the tokens end; and the position after it.
pub open spec fn parse_document(tokens: Seq<SpecToken>, at: int) -> Result<
    (SpecValue, int),
    SpecError,
> {
    if !(0 <= at < tokens.len()) {
        Err(SpecError::UnexpectedEndOfInput)
    } else if tokens[at].token_type == TokenType::LeftBrace || tokens[at].token_type
        == TokenType::LeftBracket {
        match parse_value_at(tokens, at) {
            Err(error) => Err(error),
            Ok((value, next)) => {
                if next < tokens.len() {
                    Err(SpecError::UnexpectedToken(token_message(tokens[next])))
                } else {
                    Ok((value, next))
                }
            },
        }
    } else {
        Err(SpecError::UnexpectedToken(root_message(tokens[at])))
    }
}

/// The document that `tokens` form.
pub open spec fn parse_tokens(tokens: Seq<SpecToken>) -> Result<SpecValue, SpecError> {
    match parse_document(tokens, 0) {
        Ok((value, _)) => Ok(value),
        Err(error) => Err(error),
    }
}

/// A value that is parsed takes at least one token and ends inside the
/// tokens.
pub proof fn lemma_parse_value_advances(tokens: Seq<SpecToken>, at: int)
    ensures
        parse_value_at(tokens, at) matches Ok((_, next)) ==> at < next <= tokens.len(),
    decreases tokens.len() - at, 1nat,
{
    if 0 <= at < tokens.len() {
        if tokens[at].token_type == TokenType::LeftBrace {
            if at + 1 < tokens.len() && tokens[at + 1].token_type != TokenType::RightBrace {
                lemma_parse_members_advances(tokens, at + 1, Seq::empty());
            }
        } else if tokens[at].token_type == TokenType::LeftBracket {
            if at + 1 < tokens.len() && tokens[at + 1].token_type != TokenType::RightBracket {
                lemma_parse_elements_advances(tokens, at + 1, Seq::empty());
            }
        }
    }
}

/// The elements of an array that are parsed end after where they begin, and
/// inside the tokens.
pub proof fn lemma_parse_elements_advances(tokens: Seq<SpecToken>, at: int, done: Seq<SpecValue>)
    ensures
        parse_elements(tokens, at, done) matches Ok((_, next)) ==> at < next <= tokens.len(),
    decreases tokens.len() - at, 2nat,
{
    if 0 <= at < tokens.len() {
        lemma_parse_value_advances(tokens, at);
        match parse_value_at(tokens, at) {
            Err(_) => {},
            Ok((value, next)) => {
                if at < next < tokens.len() && tokens[next].token_type == TokenType::Comma
                    && next + 1 < tokens.len() && tokens[next + 1].token_type
                    != TokenType::RightBrace {
                    lemma_parse_elements_advances(tokens, next + 1, done.push(value));
                }
            },
        }
    }
}

/// The members of an object that are parsed end after where they begin, and
/// inside the tokens.
pub proof fn lemma_parse_members_advances(
    tokens: Seq<SpecToken>,
    at: int,
    done: Seq<(Seq<char>, SpecValue)>,
)
    ensures
        parse_members(tokens, at, done) matches Ok((_, next)) ==> at < next <= tokens.len(),
    decreases tokens.len() - at, 2nat,
{
    if 0 <= at < tokens.len() {
        match key_of(tokens[at]) {
            None => {},
            Some(key) => {
                if at + 1 < tokens.len() && tokens[at + 1].token_type == TokenType::Colon {
                    lemma_parse_value_advances(tokens, at + 2);
                    match parse_value_at(tokens, at + 2) {
                        Err(_) => {},
                        Ok((value, next)) => {
                            if at < next < tokens.len() && tokens[next].token_type
                                == TokenType::Comma && next + 1 < tokens.len() && tokens[next
                                + 1].token_type != TokenType::RightBrace {
                                lemma_parse_members_advances(
                                    tokens,
                                    next + 1,
                                    insert_entry(done, key, value),
                                );
                            }
                        },
                    }
                }
            },
        }
    }
}

/// Whether each of `tokens` is well formed.
pub open spec fn tokens_wf(tokens: Seq<SpecToken>) -> bool {
    forall|i: int| 0 <= i < tokens.len() ==> (#[trigger] tokens[i]).wf()
}

/// Setting a key without a quote to a well-formed value keeps the entries
/// well formed.
pub proof fn lemma_insert_keeps_wf(
    entries: Seq<(Seq<char>, SpecValue)>,
    key: Seq<char>,
    value: SpecValue,
)
    requires
        entries_wf(entries),
        !key.contains('"'),
        value.wf(),
    ensures
        entries_wf(insert_entry(entries, key, value)),
{
    lemma_insert_keeps_distinct(entries, key, value);
    lemma_key_position_found(entries, key);
}

/// A value that is parsed from well-formed tokens is well formed.
pub proof fn lemma_parsed_value_wf(tokens: Seq<SpecToken>, at: int)
    requires
        tokens_wf(tokens),
    ensures
        parse_value_at(tokens, at) matches Ok((value, _)) ==> value.wf(),
    decreases tokens.len() - at, 1nat,
{
    if 0 <= at < tokens.len() {
        if tokens[at].token_type == TokenType::LeftBrace {
            if at + 1 < tokens.len() && tokens[at + 1].token_type != TokenType::RightBrace {
                lemma_parsed_members_wf(tokens, at + 1, Seq::empty());
            }
        } else if tokens[at].token_type == TokenType::LeftBracket {
            if at + 1 < tokens.len() && tokens[at + 1].token_type != TokenType::RightBracket {
                lemma_parsed_elements_wf(tokens, at + 1, Seq::empty());
            }
        } else {
            assert(tokens[at].wf());
        }
    }
}

/// An array that is parsed from well-formed tokens, after well-formed
/// elements, is well formed.
pub proof fn lemma_parsed_elements_wf(tokens: Seq<SpecToken>, at: int, done: Seq<SpecValue>)
    requires
        tokens_wf(tokens),
        items_wf(done),
    ensures
        parse_elements(tokens, at, done) matches Ok((value, _)) ==> value.wf(),
    decreases tokens.len() - at, 2nat,
{
    if 0 <= at < tokens.len() {
        lemma_parsed_value_wf(tokens, at);
        match parse_value_at(tokens, at) {
            Err(_) => {},
            Ok((value, next)) => {
                assert(items_wf(done.push(value))) by {
                    assert forall|i: int| 0 <= i < done.push(value).len() implies (
                    #[trigger] done.push(value)[i]).wf() by {
                        if i < done.len() {
                            assert(done[i].wf());
                        }
                    }
                }
                if at < next < tokens.len() && tokens[next].token_type == TokenType::Comma && next
                    + 1 < tokens.len() && tokens[next + 1].token_type != TokenType::RightBrace {
                    lemma_parsed_elements_wf(tokens, next + 1, done.push(value));
                }
            },
        }
    }
}

/// An object that is parsed from well-formed tokens, after well-formed
/// entries, is well formed.
pub proof fn lemma_parsed_members_wf(
    tokens: Seq<SpecToken>,
    at: int,
    done: Seq<(Seq<char>, SpecValue)>,
)
    requires
        tokens_wf(tokens),
        entries_wf(done),
    ensures
        parse_members(tokens, at, done) matches Ok((value, _)) ==> value.wf(),
    decreases tokens.len() - at, 2nat,
{
    if 0 <= at < tokens.len() {
        match key_of(tokens[at]) {
            None => {},
            Some(key) => {
                assert(tokens[at].wf());
                if at + 1 < tokens.len() && tokens[at + 1].token_type == TokenType::Colon {
                    lemma_parsed_value_wf(tokens, at + 2);
                    match parse_value_at(tokens, at + 2) {
                        Err(_) => {},
                        Ok((value, next)) => {
                            lemma_insert_keeps_wf(done, key, value);
                            if at < next < tokens.len() && tokens[next].token_type
                                == TokenType::Comma && next + 1 < tokens.len() && tokens[next
                                + 1].token_type != TokenType::RightBrace {
                                lemma_parsed_members_wf(
                                    tokens,
                                    next + 1,
                                    insert_entry(done, key, value),
                                );
                            }
                        },
                    }
                }
            },
        }
    }
}

/// What is parsed from an opening bracket is an array, and what is parsed
/// from an opening brace is an object.
pub proof fn lemma_parsed_kind(tokens: Seq<SpecToken>, at: int)
    ensures
        parse_array_at(tokens, at) matches Ok((value, _)) ==> value is Array,
        parse_object_at(tokens, at) matches Ok((value, _)) ==> value is Object,
{
    lemma_parsed_elements_kind(tokens, at + 1, Seq::empty());
    lemma_parsed_members_kind(tokens, at + 1, Seq::empty());
}

/// The elements of an array are parsed to an array.
pub proof fn lemma_parsed_elements_kind(tokens: Seq<SpecToken>, at: int, done: Seq<SpecValue>)
    ensures
        parse_elements(tokens, at, done) matches Ok((value, _)) ==> value is Array,
    decreases tokens.len() - at,
{
    if 0 <= at < tokens.len() {
        if let Ok((value, next)) = parse_value_at(tokens, at) {
            if at < next < tokens.len() && tokens[next].token_type == TokenType::Comma && next + 1
                < tokens.len() && tokens[next + 1].token_type != TokenType::RightBrace {
                lemma_parsed_elements_kind(tokens, next + 1, done.push(value));
            }
        }
    }
}

/// The members of an object are parsed to an object.
pub proof fn lemma_parsed_members_kind(
    tokens: Seq<SpecToken>,
    at: int,
    done: Seq<(Seq<char>, SpecValue)>,
)
    ensures
        parse_members(tokens, at, done) matches Ok((value, _)) ==> value is Object,
    decreases tokens.len() - at,
{
    if 0 <= at < tokens.len() {
        if let Some(key) = key_of(tokens[at]) {
            if at + 1 < tokens.len() && tokens[at + 1].token_type == TokenType::Colon {
                if let Ok((value, next)) = parse_value_at(tokens, at + 2) {
                    if at < next < tokens.len() && tokens[next].token_type == TokenType::Comma
                        && next + 1 < tokens.len() && tokens[next + 1].token_type
                        != TokenType::RightBrace {
                        lemma_parsed_members_kind(tokens, next + 1, insert_entry(done, key, value));
                    }
                }
            }
        }
    }
}

/// A trailing comma in an array is refused: where an element is followed by
/// a comma and then by a closing bracket or brace, the array is no value but
/// an unexpected token.
pub proof fn lemma_trailing_comma_in_array(tokens: Seq<SpecToken>, at: int, done: Seq<SpecValue>)
    requires
        parse_value_at(tokens, at) matches Ok((_, next)) && next + 1 < tokens.len()
            && tokens[next].token_type == TokenType::Comma && (tokens[next + 1].token_type
            == TokenType::RightBracket || tokens[next + 1].token_type == TokenType::RightBrace),
    ensures
        parse_elements(tokens, at, done) matches Err(SpecError::UnexpectedToken(_)),
{
    lemma_parse_value_advances(tokens, at);
    if let Ok((value, next)) = parse_value_at(tokens, at) {
        if tokens[next + 1].token_type == TokenType::RightBracket {
            assert(parse_value_at(tokens, next + 1) matches Err(SpecError::UnexpectedToken(_)));
            assert(parse_elements(tokens, next + 1, done.push(value)) matches Err(
                SpecError::UnexpectedToken(_),
            ));
        }
    }
}

/// A trailing comma in an object is refused: where a member is followed by
/// a comma and then by a closing brace or bracket, the object is no value but
/// an unexpected token.
pub proof fn lemma_trailing_comma_in_object(
    tokens: Seq<SpecToken>,
    at: int,
    done: Seq<(Seq<char>, SpecValue)>,
)
    requires
        0 <= at && at + 1 < tokens.len(),
        key_of(tokens[at]) is Some,
        tokens[at + 1].token_type == TokenType::Colon,
        parse_value_at(tokens, at + 2) matches Ok((_, next)) && next + 1 < tokens.len()
            && tokens[next].token_type == TokenType::Comma && (tokens[next + 1].token_type
            == TokenType::RightBracket || tokens[next + 1].token_type == TokenType::RightBrace),
    ensures
        parse_members(tokens, at, done) matches Err(SpecError::UnexpectedToken(_)),
{
    lemma_parse_value_advances(tokens, at + 2);
    if let Ok((value, next)) = parse_value_at(tokens, at + 2) {
        if tokens[next + 1].token_type == TokenType::RightBracket {
            let key = key_of(tokens[at])->0;
            assert(key_of(tokens[next + 1]) is None);
            assert(parse_members(tokens, next + 1, insert_entry(done, key, value)) matches Err(
                SpecError::UnexpectedToken(_),
            ));
        }
    }
}

/// Writes the message that names the kind of `token` between `head` and
/// `tail`, and then its line and column.
fn describe_token(head: &str, token: &Token, tail: &str) -> (message: String)
    ensures
        message@ == describe(head@, token@, tail@),
{
    let mut message = String::from_str(head);
    message.append(token.token_type.as_str());
    message.append(tail);
    push_decimal(&mut message, token.line);
    message.append(", col ");
    push_decimal(&mut message, token.column);
    message
}

/// Writes the message for the comma `token` that a closing brace follows.
fn describe_comma(token: &Token) -> (message: String)
    ensures
        message@ == comma_message(token@),
{
    let mut message = String::from_str("Unexpected comma at line ");
    push_decimal(&mut message, token.line);
    message.append(", column ");
    push_decimal(&mut message, token.column);
    message
}

/// A parser over a sequence of tokens, with the position it has reached.
#[derive(Debug)]
pub struct Parser<'a> {
    tokens: &'a [Token],
    index: usize,
}

impl<'a> Parser<'a> {
    #[verifier::type_invariant]
    spec fn inv(self) -> bool {
        self.index <= self.tokens@.len()
    }

    /// The tokens that are parsed.
    pub closed spec fn tokens(self) -> Seq<SpecToken> {
        tokens_model(self.tokens@)
    }

    /// The number of tokens that lie before the position reached.
    pub closed spec fn position(self) -> int {
        self.index as int
    }

    /// A parser at the first of `tokens`.
    pub fn new(tokens: &'a [Token]) -> (parser: Parser<'a>)
        ensures
            parser.tokens() == tokens_model(tokens@),
            parser.position() == 0,
    {
        Parser { tokens, index: 0 }
    }

    /// Parses the document that begins at the position reached: one object
    /// or one array, after which the tokens must end.
    ///
    /// On success the parser rests at the end of the tokens. On failure it
    /// rests where it was.
    pub fn parse(&mut self) -> (result: Result<JsonValue, Error>)
        ensures
            final(self).tokens() == old(self).tokens(),
            match parse_document(old(self).tokens(), old(self).position()) {
                Ok((value, next)) => {
                    &&& result matches Ok(parsed) && parsed@ == value
                    &&& final(self).position() == next
                },
                Err(error) => {
                    &&& result matches Err(found) && found@ == error
                    &&& final(self).position() == old(self).position()
                },
            },
    {
        proof {
            use_type_invariant(&*self);
        }
        let start = self.index;
        if start >= self.tokens.len() {
            return Err(Error::UnexpectedEndOfInput);
        }
        let token = &self.tokens[start];
        if token.token_type != TokenType::LeftBrace && token.token_type != TokenType::LeftBracket {
            return Err(
                Error::UnexpectedToken(
                    describe_token("Expected JSON object or array, got ", token, ", line "),
                ),
            );
        }
        match self.parse_value() {
            Ok(parsed) => {
                proof {
                    use_type_invariant(&*self);
                }
                if self.index < self.tokens.len() {
                    let extra = &self.tokens[self.index];
                    let message = describe_token("Unexpected token ", extra, " at line ");
                    self.index = start;
                    Err(Error::UnexpectedToken(message))
                } else {
                    Ok(parsed)
                }
            },
            Err(error) => {
                self.index = start;
                Err(error)
            },
        }
    }

    /// Parses the value that begins at the position reached.
    fn parse_value(&mut self) -> (result: Result<JsonValue, Error>)
        ensures
            final(self).tokens() == old(self).tokens(),
            match parse_value_at(old(self).tokens(), old(self).position()) {
                Ok((value, next)) => {
                    &&& result matches Ok(parsed) && parsed@ == value
                    &&& final(self).position() == next
                },
                Err(error) => result matches Err(found) && found@ == error,
            },
        decreases old(self).tokens().len() - old(self).position(), 1nat,
    {
        proof {
            use_type_invariant(&*self);
        }
        if self.index >= self.tokens.len() {
            return Err(Error::UnexpectedEndOfInput);
        }
        let token = &self.tokens[self.index];
        match token.token_type {
            TokenType::LeftBrace => self.parse_object(),
            TokenType::LeftBracket => self.parse_array(),
            TokenType::String | TokenType::Number | TokenType::Bool | TokenType::Null => {
                match &token.value {
                    Some(value) => {
                        self.index += 1;
                        Ok(value.clone())
                    },
                    None => Err(
                        Error::UnexpectedToken(describe_token("Unexpected ", token, " at line ")),
                    ),
                }
            },
            _ => Err(
                Error::UnexpectedToken(describe_token("Unexpected token ", token, " at line ")),
            ),
        }
    }

    /// Parses the array whose opening bracket stands at the position reached.
    fn parse_array(&mut self) -> (result: Result<JsonValue, Error>)
        requires
            old(self).position() < old(self).tokens().len(),
        ensures
            final(self).tokens() == old(self).tokens(),
            match parse_array_at(old(self).tokens(), old(self).position()) {
                Ok((value, next)) => {
                    &&& result matches Ok(parsed) && parsed@ == value
                    &&& final(self).position() == next
                },
                Err(error) => result matches Err(found) && found@ == error,
            },
        decreases old(self).tokens().len() - old(self).position(), 0nat,
    {
        let ghost tokens = self.tokens();
        let ghost start = self.position();
        let mut array: Vec<JsonValue> = Vec::new();
        proof {
            use_type_invariant(&*self);
        }
        if self.tokens.len() - self.index < 2 {
            return Err(Error::UnexpectedEndOfInput);
        }
        self.index += 1;
        if self.tokens[self.index].token_type == TokenType::RightBracket {
            self.index += 1;
            assert(items_model(array@) =~= Seq::empty());
            return Ok(JsonValue::Array(array));
        }
        assert(items_model(array@) =~= Seq::empty());
        loop
            invariant
                tokens == old(self).tokens(),
                start == old(self).position(),
                self.tokens() == tokens,
                start < self.index < self.tokens@.len(),
                parse_array_at(tokens, start) == parse_elements(
                    tokens,
                    self.position(),
                    items_model(array@),
                ),
            decreases self.tokens@.len() - self.index,
        {
            let ghost at = self.position();
            let ghost done = items_model(array@);
            proof {
                lemma_parse_value_advances(tokens, at);
            }
            let value = match self.parse_value() {
                Ok(value) => value,
                Err(error) => {
                    return Err(error);
                },
            };
            proof {
                use_type_invariant(&*self);
            }
            array.push(value);
            assert(items_model(array@) =~= done.push(value@));
            if self.index >= self.tokens.len() {
                return Err(Error::UnexpectedEndOfInput);
            }
            let token = &self.tokens[self.index];
            if token.token_type == TokenType::Comma {
                self.index += 1;
                if self.index >= self.tokens.len() {
                    return Err(Error::UnexpectedEndOfInput);
                }
                if self.tokens[self.index].token_type == TokenType::RightBrace {
                    return Err(Error::UnexpectedToken(describe_comma(token)));
                }
            } else if token.token_type == TokenType::RightBracket {
                self.index += 1;
                return Ok(JsonValue::Array(array));
            } else {
                return Err(
                    Error::UnexpectedToken(
                        describe_token("Unexpected token in array: ", token, ", line "),
                    ),
                );
            }
        }
    }

    /// Parses the object whose opening brace stands at the position reached.
    fn parse_object(&mut self) -> (result: Result<JsonValue, Error>)
        requires
            old(self).position() < old(self).tokens().len(),
        ensures
            final(self).tokens() == old(self).tokens(),
            match parse_object_at(old(self).tokens(), old(self).position()) {
                Ok((value, next)) => {
                    &&& result matches Ok(parsed) && parsed@ == value
                    &&& final(self).position() == next
                },
                Err(error) => result matches Err(found) && found@ == error,
            },
        decreases old(self).tokens().len() - old(self).position(), 0nat,
    {
        let ghost tokens = self.tokens();
        let ghost start = self.position();
        let mut object: Vec<(String, JsonValue)> = Vec::new();
        proof {
            use_type_invariant(&*self);
        }
        if self.tokens.len() - self.index < 2 {
            return Err(Error::UnexpectedEndOfInput);
        }
        self.index += 1;
        if self.tokens[self.index].token_type == TokenType::RightBrace {
            self.index += 1;
            assert(entries_model(object@) =~= Seq::empty());
            return Ok(JsonValue::Object(object));
        }
        assert(entries_model(object@) =~= Seq::empty());
        loop
            invariant
                tokens == old(self).tokens(),
                start == old(self).position(),
                self.tokens() == tokens,
                start < self.index < self.tokens@.len(),
                parse_object_at(tokens, start) == parse_members(
                    tokens,
                    self.position(),
                    entries_model(object@),
                ),
            decreases self.tokens@.len() - self.index,
        {
            let ghost at = self.position();
            let key_token = &self.tokens[self.index];
            let key = match &key_token.value {
                Some(JsonValue::String(text)) => {
                    if key_token.token_type == TokenType::String {
                        text.clone()
                    } else {
                        return Err(
                            Error::UnexpectedToken(
                                String::from_str("Expected string as object key"),
                            ),
                        );
                    }
                },
                _ => {
                    return Err(
                        Error::UnexpectedToken(String::from_str("Expected string as object key")),
                    );
                },
            };
            self.index += 1;
            if self.index >= self.tokens.len() {
                return Err(Error::UnexpectedEndOfInput);
            }
            if self.tokens[self.index].token_type != TokenType::Colon {
                return Err(
                    Error::UnexpectedToken(String::from_str("Expected colon after object key")),
                );
            }
            self.index += 1;
            proof {
                lemma_parse_value_advances(tokens, at + 2);
            }
            let value = match self.parse_value() {
                Ok(value) => value,
                Err(error) => {
                    return Err(error);
                },
            };
            proof {
                use_type_invariant(&*self);
            }
            set_entry(&mut object, key, value);
            if self.index >= self.tokens.len() {
                return Err(Error::UnexpectedEndOfInput);
            }
            let token = &self.tokens[self.index];
            if token.token_type == TokenType::Comma {
                self.index += 1;
                if self.index >= self.tokens.len() {
                    return Err(Error::UnexpectedEndOfInput);
                }
                if self.tokens[self.index].token_type == TokenType::RightBrace {
                    return Err(Error::UnexpectedToken(describe_comma(token)));
                }
            } else if token.token_type == TokenType::RightBrace {
                self.index += 1;
                return Ok(JsonValue::Object(object));
            } else {
                return Err(
                    Error::UnexpectedToken(
                        describe_token("Unexpected token in object: ", token, ", line "),
                    ),
                );
            }
        }
    }
}

} // verus!
