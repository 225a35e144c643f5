//! The tokenizer: from text to a sequence of positioned tokens.

use vstd::prelude::*;
use vstd::string::StringExecFns;
use crate::syntax::{
    is_number_literal, is_numeric, is_whitespace, number_literal, numeric_char, whitespace_char,
    JSON_COLON, JSON_COMMA, JSON_LEFTBRACE, JSON_LEFTBRACKET, JSON_QUOTE, JSON_RIGHTBRACE,
    JSON_RIGHTBRACKET,
};
use crate::text::{decode, push_chars};
use crate::types::{tokens_model, Error, JsonValue, SpecError, SpecToken, SpecValue, Token, TokenType};

verus! {

/// A place in a text: how many characters lie before it, and the line and
/// column it is on, all counted from zero.
pub struct Cursor {
    pub index: nat,
    pub line: nat,
    pub column: nat,
}

impl Cursor {
    /// The beginning of a text.
    pub open spec fn start() -> Cursor {
        Cursor { index: 0, line: 0, column: 0 }
    }

    /// The cursor past `width` more characters of the same line.
    pub open spec fn advance(self, width: nat) -> Cursor {
        Cursor { index: self.index + width, line: self.line, column: self.column + width }
    }

    /// The cursor past the whitespace character `c`: a line feed begins a
    /// new line at column zero, anything else moves on by one column.
    pub open spec fn skip(self, c: char) -> Cursor {
        if c == '\n' {
            Cursor { index: self.index + 1, line: self.line + 1, column: 0 }
        } else {
            Cursor { index: self.index + 1, line: self.line, column: self.column + 1 }
        }
    }
}

/// The position of the first quote at or after `from`; the length of `text`
/// where there is none.
pub open spec fn quote_position(text: Seq<char>, from: int) -> int
    decreases text.len() - from,
{
    if 0 <= from < text.len() && text[from] != JSON_QUOTE {
        quote_position(text, from + 1)
    } else {
        from
    }
}

/// The first position at or after `from` that holds no numeric character;
/// the length of `text` where the run goes on to its end.
pub open spec fn numeric_end(text: Seq<char>, from: int) -> int
    decreases text.len() - from,
{
    if 0 <= from < text.len() && is_numeric(text[from]) {
        numeric_end(text, from + 1)
    } else {
        from
    }
}

/// Whether `word` stands in `text` at `index`.
pub open spec fn word_at(text: Seq<char>, index: int, word: Seq<char>) -> bool {
    index + word.len() <= text.len() && text.subrange(index, index + word.len()) == word
}

/// The literal `true`.
pub open spec fn true_word() -> Seq<char> {
    seq!['t', 'r', 'u', 'e']
}

/// The literal `false`.
pub open spec fn false_word() -> Seq<char> {
    seq!['f', 'a', 'l', 's', 'e']
}

/// The literal `null`.
pub open spec fn null_word() -> Seq<char> {
    seq!['n', 'u', 'l', 'l']
}

/// What is reported of a numeric run that is no number.
pub open spec fn number_error() -> Seq<char> {
    "Failed to parse float: invalid float literal"@
}

/// The kind of token that the punctuation character `c` makes.
pub open spec fn punctuation(c: char) -> Option<TokenType> {
    if c == JSON_COMMA {
        Some(TokenType::Comma)
    } else if c == JSON_COLON {
        Some(TokenType::Colon)
    } else if c == JSON_LEFTBRACKET {
        Some(TokenType::LeftBracket)
    } else if c == JSON_RIGHTBRACKET {
        Some(TokenType::RightBracket)
    } else if c == JSON_LEFTBRACE {
        Some(TokenType::LeftBrace)
    } else if c == JSON_RIGHTBRACE {
        Some(TokenType::RightBrace)
    } else {
        None
    }
}

/// A token of kind `token_type` at `at`.
pub open spec fn token(token_type: TokenType, value: Option<SpecValue>, at: Cursor) -> SpecToken {
    SpecToken { token_type, value, line: at.line, column: at.column }
}

/// The string literal that opens at `at`, and its width with both quotes:
/// the text up to the next quote, taken as it stands.
pub open spec fn string_token(text: Seq<char>, at: Cursor) -> Result<(SpecToken, nat), SpecError> {
    let close = quote_position(text, at.index + 1 as int);
    if close < text.len() {
        Ok(
            (
                token(
                    TokenType::String,
                    Some(SpecValue::String(text.subrange(at.index + 1 as int, close))),
                    at,
                ),
                (close + 1 - at.index) as nat,
            ),
        )
    } else {
        Err(SpecError::UnexpectedEndOfString)
    }
}

/// The number that begins at `at`, and its width: the longest run of
/// numeric characters, which must be a numeric literal.
pub open spec fn number_token(text: Seq<char>, at: Cursor) -> Result<(SpecToken, nat), SpecError> {
    let end = numeric_end(text, at.index as int);
    let run = text.subrange(at.index as int, end);
    if is_number_literal(run) {
        Ok((token(TokenType::Number, Some(SpecValue::Number(run)), at), (end - at.index) as nat))
    } else {
        Err(SpecError::ParseNumberError(number_error()))
    }
}

/// The literal `true` or `false` at `at`, and its width.
pub open spec fn boolean_token(text: Seq<char>, at: Cursor) -> Result<(SpecToken, nat), SpecError> {
    if word_at(text, at.index as int, true_word()) {
        Ok((token(TokenType::Bool, Some(SpecValue::Bool(true)), at), 4))
    } else if word_at(text, at.index as int, false_word()) {
        Ok((token(TokenType::Bool, Some(SpecValue::Bool(false)), at), 5))
    } else {
        Err(SpecError::UnexpectedCharacter(text[at.index as int], (at.line, at.column)))
    }
}

/// The literal `null` at `at`, and its width.
pub open spec fn null_token(text: Seq<char>, at: Cursor) -> Result<(SpecToken, nat), SpecError> {
    if word_at(text, at.index as int, null_word()) {
        Ok((token(TokenType::Null, Some(SpecValue::Null), at), 4))
    } else {
        Err(SpecError::UnexpectedCharacter(text[at.index as int], (at.line, at.column)))
    }
}

/// The punctuation token of the character `c` at `at`, and its width.
pub open spec fn syntax_token(c: char, at: Cursor) -> Result<(SpecToken, nat), SpecError> {
    match punctuation(c) {
        Some(token_type) => Ok((token(token_type, None, at), 1)),
        None => Err(SpecError::UnexpectedCharacter(c, (at.line, at.column))),
    }
}

/// The token that begins at `at`, where a character that is no whitespace
/// stands, and its width in characters.
pub open spec fn token_at(text: Seq<char>, at: Cursor) -> Result<(SpecToken, nat), SpecError>
    recommends
        at.index < text.len(),
{
    let c = text[at.index as int];
    if c == JSON_QUOTE {
        string_token(text, at)
    } else if is_numeric(c) {
        number_token(text, at)
    } else if c == 't' || c == 'f' {
        boolean_token(text, at)
    } else if c == 'n' {
        null_token(text, at)
    } else {
        syntax_token(c, at)
    }
}

/// What tokenizing yields: the tokens read, where reading stopped, and why
/// if that was not the end of the text.
pub struct Lexed {
    pub tokens: Seq<SpecToken>,
    pub end: Cursor,
    pub error: Option<SpecError>,
}

/// `quote_position` lies at or after `from`, inside the text or at its end,
/// with no quote before it and a quote at it if inside.
pub proof fn lemma_quote_position(text: Seq<char>, from: int)
    requires
        0 <= from <= text.len(),
    ensures
        from <= quote_position(text, from) <= text.len(),
        forall|k: int| from <= k < quote_position(text, from) ==> #[trigger] text[k] != JSON_QUOTE,
        quote_position(text, from) < text.len() ==> text[quote_position(text, from)]
            == JSON_QUOTE,
    decreases text.len() - from,
{
    if from < text.len() && text[from] != JSON_QUOTE {
        lemma_quote_position(text, from + 1);
    }
}

/// `numeric_end` lies at or after `from`, inside the text or at its end,
/// past numeric characters only and at none.
pub proof fn lemma_numeric_end(text: Seq<char>, from: int)
    requires
        0 <= from <= text.len(),
    ensures
        from <= numeric_end(text, from) <= text.len(),
        forall|k: int| from <= k < numeric_end(text, from) ==> is_numeric(#[trigger] text[k]),
        numeric_end(text, from) < text.len() ==> !is_numeric(text[numeric_end(text, from)]),
    decreases text.len() - from,
{
    if from < text.len() && is_numeric(text[from]) {
        lemma_numeric_end(text, from + 1);
    }
}

/// `quote_position` is the position of a quote that no quote precedes.
pub proof fn lemma_quote_position_is(text: Seq<char>, from: int, close: int)
    requires
        0 <= from <= close < text.len(),
        forall|k: int| from <= k < close ==> #[trigger] text[k] != JSON_QUOTE,
        text[close] == JSON_QUOTE,
    ensures
        quote_position(text, from) == close,
    decreases close - from,
{
    if from < close {
        lemma_quote_position_is(text, from + 1, close);
    }
}

/// `numeric_end` is the position that a run of numeric characters reaches,
/// where no numeric character follows it.
pub proof fn lemma_numeric_end_is(text: Seq<char>, from: int, end: int)
    requires
        0 <= from <= end <= text.len(),
        forall|k: int| from <= k < end ==> is_numeric(#[trigger] text[k]),
        end < text.len() ==> !is_numeric(text[end]),
    ensures
        numeric_end(text, from) == end,
    decreases end - from,
{
    if from < end {
        lemma_numeric_end_is(text, from + 1, end);
    }
}

/// A token is at least one character wide and ends inside the text.
pub proof fn lemma_token_width(text: Seq<char>, at: Cursor)
    requires
        at.index < text.len(),
    ensures
        token_at(text, at) matches Ok((_, width)) ==> 1 <= width && at.index + width <= text.len(),
{
    lemma_quote_position(text, at.index + 1 as int);
    lemma_numeric_end(text, at.index as int);
}

/// Tokenizes `text` from `at` on: whitespace is passed over, each token is
/// read where it begins, and the first one that cannot be read ends it.
pub open spec fn lex_from(text: Seq<char>, at: Cursor) -> Lexed
    decreases text.len() - at.index,
{
    if at.index >= text.len() {
        Lexed { tokens: Seq::empty(), end: at, error: None }
    } else if is_whitespace(text[at.index as int]) {
        lex_from(text, at.skip(text[at.index as int]))
    } else {
        match token_at(text, at) {
            Ok((first, width)) => {
                proof {
                    lemma_token_width(text, at);
                }
                let rest = lex_from(text, at.advance(width));
                Lexed { tokens: seq![first] + rest.tokens, end: rest.end, error: rest.error }
            },
            Err(error) => Lexed { tokens: Seq::empty(), end: at, error: Some(error) },
        }
    }
}

/// `rest` with `tokens` before its tokens.
pub open spec fn after_tokens(tokens: Seq<SpecToken>, rest: Lexed) -> Lexed {
    Lexed { tokens: tokens + rest.tokens, end: rest.end, error: rest.error }
}

/// Tokenizing from a token on yields that token and then what tokenizing
/// from after it yields.
pub proof fn lemma_lex_token(text: Seq<char>, at: Cursor, first: SpecToken, width: nat)
    requires
        at.index < text.len(),
        !is_whitespace(text[at.index as int]),
        token_at(text, at) == Ok::<(SpecToken, nat), SpecError>((first, width)),
    ensures
        lex_from(text, at) == after_tokens(seq![first], lex_from(text, at.advance(width))),
{
}

/// Tokens before tokens are the tokens of both before the rest.
pub proof fn lemma_after_tokens(head: Seq<SpecToken>, tail: Seq<SpecToken>, rest: Lexed)
    ensures
        after_tokens(head, after_tokens(tail, rest)) == after_tokens(head + tail, rest),
{
    assert(head + (tail + rest.tokens) =~= (head + tail) + rest.tokens);
}

/// How many line feeds `text` holds from `from` up to `to`.
pub open spec fn line_feeds(text: Seq<char>, from: int, to: int) -> nat
    decreases to - from,
{
    if to <= from {
        0
    } else if text[to - 1] == '\n' {
        line_feeds(text, from, to - 1) + 1
    } else {
        line_feeds(text, from, to - 1)
    }
}

/// The column reached at `to`, from the column `column` at `from`: the
/// number of characters after the last line feed between them, and where
/// there is none that number more than `column`.
pub open spec fn column_at(text: Seq<char>, from: int, to: int, column: nat) -> nat
    decreases to - from,
{
    if to <= from {
        column
    } else if text[to - 1] == '\n' {
        0
    } else {
        column_at(text, from, to - 1, column) + 1
    }
}

/// Whitespace between tokens moves the cursor and makes no token: each line
/// feed in it adds one to the line and sets the column back to zero, and
/// each other character adds one to the column.
pub proof fn lemma_lex_after_whitespace(text: Seq<char>, at: Cursor, end: nat)
    requires
        at.index <= end <= text.len(),
        forall|k: int| at.index <= k < end ==> is_whitespace(#[trigger] text[k]),
    ensures
        lex_from(text, at) == lex_from(
            text,
            Cursor {
                index: end,
                line: at.line + line_feeds(text, at.index as int, end as int),
                column: column_at(text, at.index as int, end as int, at.column),
            },
        ),
    decreases end - at.index,
{
    if end > at.index {
        let before = (end - 1) as nat;
        lemma_lex_after_whitespace(text, at, before);
        let reached = Cursor {
            index: before,
            line: at.line + line_feeds(text, at.index as int, before as int),
            column: column_at(text, at.index as int, before as int, at.column),
        };
        assert(is_whitespace(text[before as int]));
        assert(lex_from(text, reached) == lex_from(text, reached.skip(text[before as int])));
    }
}

/// A token is recorded at the line and column at which tokenizing reaches
/// it.
pub proof fn lemma_first_token_position(text: Seq<char>, at: Cursor)
    requires
        at.index < text.len(),
        !is_whitespace(text[at.index as int]),
    ensures
        token_at(text, at) matches Ok((first, _)) ==> {
            &&& lex_from(text, at).tokens.len() >= 1
            &&& lex_from(text, at).tokens[0] == first
            &&& first.line == at.line
            &&& first.column == at.column
        },
{
}

/// Every token that tokenizing yields is well formed: a literal carries a
/// value of its own kind, a number is a numeric literal, a string holds no
/// quote, and punctuation carries no value.
pub proof fn lemma_lexed_tokens_wf(text: Seq<char>, at: Cursor)
    ensures
        forall|i: int|
            0 <= i < lex_from(text, at).tokens.len() ==> (#[trigger] lex_from(
                text,
                at,
            ).tokens[i]).wf(),
    decreases text.len() - at.index,
{
    if at.index >= text.len() {
    } else if is_whitespace(text[at.index as int]) {
        lemma_lexed_tokens_wf(text, at.skip(text[at.index as int]));
    } else {
        match token_at(text, at) {
            Ok((first, width)) => {
                lemma_token_width(text, at);
                lemma_quote_position(text, at.index + 1 as int);
                lemma_lexed_tokens_wf(text, at.advance(width));
                assert(first.wf());
                let rest = lex_from(text, at.advance(width)).tokens;
                assert forall|i: int| 0 <= i < (seq![first] + rest).len() implies (#[trigger] (
                seq![first] + rest)[i]).wf() by {
                    if i > 0 {
                        assert((seq![first] + rest)[i] == rest[i - 1]);
                    }
                }
            },
            Err(_) => {},
        }
    }
}

/// The tokens of `text`, or the first error in it.
pub open spec fn lex_text(text: Seq<char>) -> Result<Seq<SpecToken>, SpecError> {
    let lexed = lex_from(text, Cursor::start());
    match lexed.error {
        None => Ok(lexed.tokens),
        Some(error) => Err(error),
    }
}

/// A tokenizer over a text, with the place it has reached.
#[derive(Debug)]
pub struct Lexer<'a> {
    source: &'a str,
    chars: Vec<char>,
    index: usize,
    line: usize,
    column: usize,
}

impl<'a> From<&'a str> for Lexer<'a> {
    /// A tokenizer at the beginning of `source`.
    fn from(source: &'a str) -> (lexer: Self)
        ensures
            lexer.text() == source@,
            lexer.cursor() == Cursor::start(),
    {
        Lexer { source, chars: decode(source), index: 0, line: 0, column: 0 }
    }
}

impl<'a> vstd::std_specs::convert::FromSpecImpl<&'a str> for Lexer<'a> {
    open spec fn obeys_from_spec() -> bool {
        false
    }

    closed spec fn from_spec(source: &'a str) -> Self {
        arbitrary()
    }
}

impl<'a> Lexer<'a> {
    #[verifier::type_invariant]
    spec fn inv(self) -> bool {
        &&& self.chars@ == self.source@
        &&& self.index <= self.chars.len()
        &&& self.line <= self.index
        &&& self.column <= self.index
    }

    /// The text that is tokenized.
    pub closed spec fn text(self) -> Seq<char> {
        self.source@
    }

    /// The place that the tokenizer has reached.
    pub closed spec fn cursor(self) -> Cursor {
        Cursor { index: self.index as nat, line: self.line as nat, column: self.column as nat }
    }

    /// Passes over the whitespace character `c`: a line feed begins a new
    /// line at column zero, anything else moves on by one column.
    pub fn whitespace(&mut self, c: char)
        requires
            old(self).cursor().index < old(self).text().len(),
        ensures
            final(self).text() == old(self).text(),
            final(self).cursor() == old(self).cursor().skip(c),
    {
        proof {
            use_type_invariant(&*self);
        }
        if c == '\n' {
            self.index += 1;
            self.line += 1;
            self.column = 0;
        } else {
            self.index += 1;
            self.column += 1;
        }
    }

    /// Tokenizes the text from the place reached to its end.
    ///
    /// On success the tokenizer rests at the end of the text. On failure it
    /// rests where the token that could not be read begins.
    pub fn lex(&mut self) -> (result: Result<Vec<Token>, Error>)
        ensures
            final(self).text() == old(self).text(),
            final(self).cursor() == lex_from(old(self).text(), old(self).cursor()).end,
            match result {
                Ok(tokens) => {
                    &&& lex_from(old(self).text(), old(self).cursor()).error is None
                    &&& tokens_model(tokens@) == lex_from(old(self).text(), old(self).cursor()).tokens
                },
                Err(error) => lex_from(old(self).text(), old(self).cursor()).error == Some(
                    error@,
                ),
            },
    {
        let ghost text = self.text();
        let ghost whole = lex_from(text, self.cursor());
        let mut tokens: Vec<Token> = Vec::new();
        proof {
            use_type_invariant(&*self);
            assert(tokens_model(tokens@) =~= Seq::empty());
            assert(whole.tokens =~= tokens_model(tokens@) + whole.tokens);
        }
        while self.index < self.chars.len()
            invariant
                text == old(self).text(),
                whole == lex_from(text, old(self).cursor()),
                self.text() == text,
                self.chars@ == text,
                self.index <= self.chars.len(),
                whole.tokens == tokens_model(tokens@) + lex_from(text, self.cursor()).tokens,
                whole.end == lex_from(text, self.cursor()).end,
                whole.error == lex_from(text, self.cursor()).error,
            decreases self.chars.len() - self.index,
        {
            let ghost at = self.cursor();
            let next = self.chars[self.index];
            if whitespace_char(next) {
                self.whitespace(next);
                proof {
                    use_type_invariant(&*self);
                }
                continue ;
            }
            proof {
                lemma_token_width(text, at);
            }
            let scanned = if next == JSON_QUOTE {
                self.lex_string()
            } else if numeric_char(next) {
                self.lex_number()
            } else if next == 't' || next == 'f' {
                self.lex_boolean()
            } else if next == 'n' {
                self.lex_null()
            } else {
                self.lex_syntax(next)
            };
            proof {
                use_type_invariant(&*self);
            }
            match scanned {
                Ok(token) => {
                    let ghost before = tokens_model(tokens@);
                    tokens.push(token);
                    proof {
                        let rest = lex_from(text, self.cursor());
                        assert(tokens_model(tokens@) =~= before.push(token@));
                        assert(before + (seq![token@] + rest.tokens) =~= before.push(token@)
                            + rest.tokens);
                    }
                },
                Err(error) => {
                    return Err(error);
                },
            }
        }
        Ok(tokens)
    }

    /// Whether `word` stands in the text at the place reached.
    fn at_word(&self, word: &str) -> (found: bool)
        ensures
            found == word_at(self.text(), self.cursor().index as int, word@),
    {
        proof {
            use_type_invariant(self);
        }
        let length = word.unicode_len();
        if self.chars.len() - self.index < length {
            return false;
        }
        let ghost here = self.text().subrange(self.index as int, self.index + length);
        let mut k: usize = 0;
        while k < length
            invariant
                k <= length,
                length == word@.len(),
                self.index + length <= self.chars.len(),
                self.chars@ == self.text(),
                here == self.text().subrange(self.index as int, self.index + length),
                forall|j: int| 0 <= j < k ==> here[j] == word@[j],
            decreases length - k,
        {
            if self.chars[self.index + k] != word.get_char(k) {
                assert(here[k as int] != word@[k as int]);
                return false;
            }
            k += 1;
        }
        assert(here =~= word@);
        true
    }

    /// A token of kind `token_type` at the place reached, `width` characters
    /// wide, which are passed over.
    fn take(&mut self, token_type: TokenType, value: Option<JsonValue>, width: usize) -> (made:
        Token)
        requires
            old(self).cursor().index + width <= old(self).text().len(),
        ensures
            final(self).text() == old(self).text(),
            final(self).cursor() == old(self).cursor().advance(width as nat),
            made@ == token(
                token_type,
                match value {
                    Some(held) => Some(held@),
                    None => None,
                },
                old(self).cursor(),
            ),
    {
        proof {
            use_type_invariant(&*self);
        }
        let made = Token { token_type, value, line: self.line, column: self.column };
        self.index += width;
        self.column += width;
        made
    }

    /// Reads the string literal that opens at the place reached.
    fn lex_string(&mut self) -> (result: Result<Token, Error>)
        requires
            old(self).cursor().index < old(self).text().len(),
        ensures
            final(self).text() == old(self).text(),
            match string_token(old(self).text(), old(self).cursor()) {
                Ok((token, width)) => {
                    &&& result matches Ok(made) && made@ == token
                    &&& final(self).cursor() == old(self).cursor().advance(width)
                },
                Err(error) => {
                    &&& result matches Err(found) && found@ == error
                    &&& final(self).cursor() == old(self).cursor()
                },
            },
    {
        proof {
            use_type_invariant(&*self);
        }
        let open = self.index + 1;
        let mut close = open;
        while close < self.chars.len() && self.chars[close] != JSON_QUOTE
            invariant
                open <= close <= self.chars.len(),
                self.chars@ == self.text(),
                quote_position(self.text(), open as int) == quote_position(
                    self.text(),
                    close as int,
                ),
            decreases self.chars.len() - close,
        {
            close += 1;
        }
        if close >= self.chars.len() {
            return Err(Error::UnexpectedEndOfString);
        }
        let mut content = String::new();
        push_chars(&mut content, &self.chars, open, close);
        assert(content@ =~= self.text().subrange(open as int, close as int));
        let width = close + 1 - self.index;
        Ok(self.take(TokenType::String, Some(JsonValue::String(content)), width))
    }

    /// Reads the number that begins at the place reached.
    fn lex_number(&mut self) -> (result: Result<Token, Error>)
        requires
            old(self).cursor().index < old(self).text().len(),
        ensures
            final(self).text() == old(self).text(),
            match number_token(old(self).text(), old(self).cursor()) {
                Ok((token, width)) => {
                    &&& result matches Ok(made) && made@ == token
                    &&& final(self).cursor() == old(self).cursor().advance(width)
                },
                Err(error) => {
                    &&& result matches Err(found) && found@ == error
                    &&& final(self).cursor() == old(self).cursor()
                },
            },
    {
        proof {
            use_type_invariant(&*self);
        }
        let mut end = self.index;
        while end < self.chars.len() && numeric_char(self.chars[end])
            invariant
                self.index <= end <= self.chars.len(),
                self.chars@ == self.text(),
                numeric_end(self.text(), self.index as int) == numeric_end(
                    self.text(),
                    end as int,
                ),
            decreases self.chars.len() - end,
        {
            end += 1;
        }
        if !number_literal(&self.chars, self.index, end) {
            return Err(
                Error::ParseNumberError(
                    String::from_str("Failed to parse float: invalid float literal"),
                ),
            );
        }
        let mut run = String::new();
        push_chars(&mut run, &self.chars, self.index, end);
        assert(run@ =~= self.text().subrange(self.index as int, end as int));
        let width = end - self.index;
        Ok(self.take(TokenType::Number, Some(JsonValue::Number(run)), width))
    }

    /// Reads the literal `true` or `false` at the place reached.
    fn lex_boolean(&mut self) -> (result: Result<Token, Error>)
        requires
            old(self).cursor().index < old(self).text().len(),
        ensures
            final(self).text() == old(self).text(),
            match boolean_token(old(self).text(), old(self).cursor()) {
                Ok((token, width)) => {
                    &&& result matches Ok(made) && made@ == token
                    &&& final(self).cursor() == old(self).cursor().advance(width)
                },
                Err(error) => {
                    &&& result matches Err(found) && found@ == error
                    &&& final(self).cursor() == old(self).cursor()
                },
            },
    {
        proof {
            use_type_invariant(&*self);
            reveal_strlit("true");
            reveal_strlit("false");
            assert("true"@ =~= true_word());
            assert("false"@ =~= false_word());
        }
        if self.at_word("true") {
            Ok(self.take(TokenType::Bool, Some(JsonValue::Bool(true)), 4))
        } else if self.at_word("false") {
            Ok(self.take(TokenType::Bool, Some(JsonValue::Bool(false)), 5))
        } else {
            Err(Error::UnexpectedCharacter(self.chars[self.index], (self.line, self.column)))
        }
    }

    /// Reads the literal `null` at the place reached.
    fn lex_null(&mut self) -> (result: Result<Token, Error>)
        requires
            old(self).cursor().index < old(self).text().len(),
        ensures
            final(self).text() == old(self).text(),
            match null_token(old(self).text(), old(self).cursor()) {
                Ok((token, width)) => {
                    &&& result matches Ok(made) && made@ == token
                    &&& final(self).cursor() == old(self).cursor().advance(width)
                },
                Err(error) => {
                    &&& result matches Err(found) && found@ == error
                    &&& final(self).cursor() == old(self).cursor()
                },
            },
    {
        proof {
            use_type_invariant(&*self);
            reveal_strlit("null");
            assert("null"@ =~= null_word());
        }
        if self.at_word("null") {
            Ok(self.take(TokenType::Null, Some(JsonValue::Null), 4))
        } else {
            Err(Error::UnexpectedCharacter(self.chars[self.index], (self.line, self.column)))
        }
    }

    /// Reads the punctuation character `c` at the place reached.
    fn lex_syntax(&mut self, c: char) -> (result: Result<Token, Error>)
        requires
            old(self).cursor().index < old(self).text().len(),
        ensures
            final(self).text() == old(self).text(),
            match syntax_token(c, old(self).cursor()) {
                Ok((token, width)) => {
                    &&& result matches Ok(made) && made@ == token
                    &&& final(self).cursor() == old(self).cursor().advance(width)
                },
                Err(error) => {
                    &&& result matches Err(found) && found@ == error
                    &&& final(self).cursor() == old(self).cursor()
                },
            },
    {
        let token_type = if c == JSON_COMMA {
            TokenType::Comma
        } else if c == JSON_COLON {
            TokenType::Colon
        } else if c == JSON_LEFTBRACKET {
            TokenType::LeftBracket
        } else if c == JSON_RIGHTBRACKET {
            TokenType::RightBracket
        } else if c == JSON_LEFTBRACE {
            TokenType::LeftBrace
        } else if c == JSON_RIGHTBRACE {
            TokenType::RightBrace
        } else {
            proof {
                use_type_invariant(&*self);
            }
            return Err(Error::UnexpectedCharacter(c, (self.line, self.column)));
        };
        Ok(self.take(token_type, None, 1))
    }
}

} // verus!
