//! The data model: JSON values, tokens and errors, each with the
//! mathematical value that contracts speak of.

use vstd::prelude::*;
use vstd::string::StringExecFns;
use crate::syntax::is_number_literal;
use crate::text::{decimal, push_decimal};

verus! {

/// A JSON value.
///
/// A number is held as the text of its literal, which `wf` requires to be a
/// decimal floating-point literal; no formatting is lost and nothing is
/// rounded. An object holds its entries in the order in which their keys were
/// first inserted, and two objects are equal where they hold the same entries
/// in the same order.
#[derive(Debug, PartialEq)]
pub enum JsonValue {
    Null,
    Bool(bool),
    Number(String),
    String(String),
    Array(Vec<JsonValue>),
    Object(Vec<(String, JsonValue)>),
}

/// The mathematical value of a `JsonValue`.
pub enum SpecValue {
    Null,
    Bool(bool),
    Number(Seq<char>),
    String(Seq<char>),
    Array(Seq<SpecValue>),
    Object(Seq<(Seq<char>, SpecValue)>),
}

/// The mathematical value of `value`.
pub open spec fn value_model(value: JsonValue) -> SpecValue
    decreases value,
{
    match value {
        JsonValue::Null => SpecValue::Null,
        JsonValue::Bool(b) => SpecValue::Bool(b),
        JsonValue::Number(text) => SpecValue::Number(text@),
        JsonValue::String(text) => SpecValue::String(text@),
        JsonValue::Array(items) => SpecValue::Array(items_model(items@)),
        JsonValue::Object(entries) => SpecValue::Object(entries_model(entries@)),
    }
}

/// The mathematical values of `items`, in their order.
pub open spec fn items_model(items: Seq<JsonValue>) -> Seq<SpecValue>
    decreases items,
{
    Seq::new(
        items.len(),
        |i: int|
            if 0 <= i < items.len() {
                value_model(items[i])
            } else {
                SpecValue::Null
            },
    )
}

/// The keys and mathematical values of `entries`, in their order.
pub open spec fn entries_model(entries: Seq<(String, JsonValue)>) -> Seq<(Seq<char>, SpecValue)>
    decreases entries,
{
    Seq::new(
        entries.len(),
        |i: int|
            if 0 <= i < entries.len() {
                (entries[i].0@, value_model(entries[i].1))
            } else {
                (Seq::empty(), SpecValue::Null)
            },
    )
}

impl View for JsonValue {
    type V = SpecValue;

    open spec fn view(&self) -> SpecValue {
        value_model(*self)
    }
}

/// The position of the first entry of `entries` under `key`; the length of
/// `entries` where there is none.
pub open spec fn key_position(entries: Seq<(Seq<char>, SpecValue)>, key: Seq<char>) -> int
    decreases entries.len(),
{
    if entries.len() == 0 {
        0
    } else if entries.first().0 == key {
        0
    } else {
        1 + key_position(entries.drop_first(), key)
    }
}

/// `entries` after `key` has been set to `value`: the entry under `key` is
/// overwritten where it stands, and a new key goes to the end.
pub open spec fn insert_entry(
    entries: Seq<(Seq<char>, SpecValue)>,
    key: Seq<char>,
    value: SpecValue,
) -> Seq<(Seq<char>, SpecValue)> {
    let at = key_position(entries, key);
    if at < entries.len() {
        entries.update(at, (key, value))
    } else {
        entries.push((key, value))
    }
}

/// Whether no two entries of `entries` share a key.
pub open spec fn distinct_keys(entries: Seq<(Seq<char>, SpecValue)>) -> bool {
    forall|i: int, j: int|
        0 <= i < j < entries.len() ==> (#[trigger] entries[i]).0 != (#[trigger] entries[j]).0
}

/// Whether each of `items` is well formed.
pub open spec fn items_wf(items: Seq<SpecValue>) -> bool
    decreases items,
{
    forall|i: int| 0 <= i < items.len() ==> (#[trigger] items[i]).wf()
}

/// Whether each of `entries` has a key without a quote and a well-formed
/// value, and no two of them share a key.
pub open spec fn entries_wf(entries: Seq<(Seq<char>, SpecValue)>) -> bool
    decreases entries,
{
    &&& distinct_keys(entries)
    &&& forall|i: int|
        0 <= i < entries.len() ==> {
            &&& !(#[trigger] entries[i]).0.contains('"')
            &&& entries[i].1.wf()
        }
}

impl SpecValue {
    /// Whether the value is one that parsing can yield: numbers are numeric
    /// literals, no string or key holds a quote, and the keys of each object
    /// are distinct.
    pub open spec fn wf(self) -> bool
        decreases self,
    {
        match self {
            SpecValue::Null => true,
            SpecValue::Bool(_) => true,
            SpecValue::Number(text) => is_number_literal(text),
            SpecValue::String(text) => !text.contains('"'),
            SpecValue::Array(items) => items_wf(items),
            SpecValue::Object(entries) => entries_wf(entries),
        }
    }

    /// The value under `key` in an object; `None` where the object has no
    /// such key, and for a value that is no object.
    pub open spec fn get(self, key: Seq<char>) -> Option<SpecValue> {
        match self {
            SpecValue::Object(entries) => {
                let at = key_position(entries, key);
                if at < entries.len() {
                    Some(entries[at].1)
                } else {
                    None
                }
            },
            _ => None,
        }
    }

    /// How the value is shown in a message: a literal as it is written, a
    /// container by its kind.
    pub open spec fn display(self) -> Seq<char> {
        match self {
            SpecValue::Null => "null"@,
            SpecValue::Bool(b) => if b {
                "true"@
            } else {
                "false"@
            },
            SpecValue::Number(text) => text,
            SpecValue::String(text) => seq!['"'] + text + seq!['"'],
            SpecValue::Array(_) => "[Array]"@,
            SpecValue::Object(_) => "[Object]"@,
        }
    }
}

/// `key_position` is the one position before which no entry has the key and
/// at which, if it lies inside, the key stands.
pub proof fn lemma_key_position(entries: Seq<(Seq<char>, SpecValue)>, key: Seq<char>, at: int)
    requires
        0 <= at <= entries.len(),
        forall|i: int| 0 <= i < at ==> (#[trigger] entries[i]).0 != key,
        at < entries.len() ==> entries[at].0 == key,
    ensures
        key_position(entries, key) == at,
    decreases entries.len(),
{
    if entries.len() > 0 && entries.first().0 != key {
        let rest = entries.drop_first();
        assert forall|i: int| 0 <= i < at - 1 implies (#[trigger] rest[i]).0 != key by {
            assert(rest[i] == entries[i + 1]);
        }
        lemma_key_position(rest, key, at - 1);
    }
}

/// What `key_position` returns lies in range, holds the key if inside, and
/// has no entry with the key before it.
pub proof fn lemma_key_position_found(entries: Seq<(Seq<char>, SpecValue)>, key: Seq<char>)
    ensures
        0 <= key_position(entries, key) <= entries.len(),
        forall|i: int| 0 <= i < key_position(entries, key) ==> (#[trigger] entries[i]).0 != key,
        key_position(entries, key) < entries.len() ==> entries[key_position(entries, key)].0
            == key,
    decreases entries.len(),
{
    if entries.len() > 0 && entries.first().0 != key {
        let rest = entries.drop_first();
        lemma_key_position_found(rest, key);
        assert forall|i: int| 0 <= i < key_position(entries, key) implies (
        #[trigger] entries[i]).0 != key by {
            if i > 0 {
                assert(rest[i - 1] == entries[i]);
            }
        }
    }
}

/// Setting a key keeps the keys distinct.
pub proof fn lemma_insert_keeps_distinct(
    entries: Seq<(Seq<char>, SpecValue)>,
    key: Seq<char>,
    value: SpecValue,
)
    requires
        distinct_keys(entries),
    ensures
        distinct_keys(insert_entry(entries, key, value)),
{
    lemma_key_position_found(entries, key);
}

/// The last write wins: a key that was set is found with the value it was
/// set to, and every other key is found as before.
pub proof fn lemma_insert_then_get(
    entries: Seq<(Seq<char>, SpecValue)>,
    key: Seq<char>,
    value: SpecValue,
    other: Seq<char>,
)
    ensures
        SpecValue::Object(insert_entry(entries, key, value)).get(key) == Some(value),
        other != key ==> SpecValue::Object(insert_entry(entries, key, value)).get(other)
            == SpecValue::Object(entries).get(other),
{
    let after = insert_entry(entries, key, value);
    lemma_key_position_found(entries, key);
    lemma_key_position(after, key, key_position(entries, key));
    if other != key {
        lemma_key_position_found(entries, other);
        let found = key_position(entries, other);
        let at: int = if found < entries.len() {
            found
        } else {
            after.len() as int
        };
        lemma_key_position(after, other, at);
    }
}

impl JsonValue {
    /// Whether the value is one that parsing can yield.
    pub open spec fn wf(&self) -> bool {
        self@.wf()
    }

    /// The value under `key`, if this is an object that has the key.
    pub fn get(&self, key: &str) -> (found: Option<&JsonValue>)
        ensures
            match self@.get(key@) {
                Some(value) => found matches Some(held) && held@ == value,
                None => found is None,
            },
    {
        match self {
            JsonValue::Object(entries) => {
                let needle = String::from_str(key);
                let mut i: usize = 0;
                while i < entries.len()
                    invariant
                        i <= entries.len(),
                        needle@ == key@,
                        *self == JsonValue::Object(*entries),
                        forall|k: int| 0 <= k < i ==> (#[trigger] entries_model(entries@)[k]).0 != key@,
                    decreases entries.len() - i,
                {
                    if entries[i].0 == needle {
                        proof {
                            lemma_key_position(entries_model(entries@), key@, i as int);
                        }
                        return Some(&entries[i].1);
                    }
                    i += 1;
                }
                proof {
                    lemma_key_position(entries_model(entries@), key@, i as int);
                }
                None
            },
            _ => None,
        }
    }

    /// Shows the value as a message does: a literal as it is written, an
    /// array as `[Array]`, an object as `[Object]`.
    pub fn to_string(&self) -> (shown: String)
        ensures
            shown@ == self@.display(),
    {
        match self {
            JsonValue::Null => String::from_str("null"),
            JsonValue::Bool(b) => if *b {
                String::from_str("true")
            } else {
                String::from_str("false")
            },
            JsonValue::Number(text) => text.clone(),
            JsonValue::String(text) => {
                let mut shown = String::new();
                shown.push('"');
                shown.append(text.as_str());
                shown.push('"');
                assert(shown@ =~= seq!['"'] + text@ + seq!['"']);
                shown
            },
            JsonValue::Array(_) => String::from_str("[Array]"),
            JsonValue::Object(_) => String::from_str("[Object]"),
        }
    }
}

/// Sets `key` to `value` in `entries`: an entry under that key is
/// overwritten, a new key is added at the end.
pub(crate) fn set_entry(entries: &mut Vec<(String, JsonValue)>, key: String, value: JsonValue)
    ensures
        entries_model(final(entries)@) == insert_entry(
            entries_model(old(entries)@),
            key@,
            value@,
        ),
{
    let ghost before = entries_model(entries@);
    let mut i: usize = 0;
    while i < entries.len()
        invariant
            i <= entries.len(),
            entries@ == old(entries)@,
            before == entries_model(entries@),
            forall|k: int| 0 <= k < i ==> (#[trigger] before[k]).0 != key@,
        decreases entries.len() - i,
    {
        if entries[i].0 == key {
            proof {
                lemma_key_position(before, key@, i as int);
            }
            entries.set(i, (key, value));
            assert(entries_model(entries@) =~= before.update(i as int, (key@, value@)));
            return ;
        }
        i += 1;
    }
    proof {
        lemma_key_position(before, key@, i as int);
    }
    entries.push((key, value));
    assert(entries_model(entries@) =~= before.push((key@, value@)));
}

impl Clone for JsonValue {
    fn clone(&self) -> (copy: Self)
        ensures
            copy@ == self@,
        decreases self,
    {
        match self {
            JsonValue::Null => JsonValue::Null,
            JsonValue::Bool(b) => JsonValue::Bool(*b),
            JsonValue::Number(text) => JsonValue::Number(text.clone()),
            JsonValue::String(text) => JsonValue::String(text.clone()),
            JsonValue::Array(items) => {
                let mut copies: Vec<JsonValue> = Vec::new();
                let mut i: usize = 0;
                while i < items.len()
                    invariant
                        i <= items.len(),
                        *self == JsonValue::Array(*items),
                        copies.len() == i,
                        items_model(copies@) == items_model(items@).take(i as int),
                    decreases items.len() - i,
                {
                    assert(decreases_to!(*self => self->Array_0));
                    assert(decreases_to!(self->Array_0 => (self->Array_0)[i as int]));
                    let ghost done = copies@;
                    copies.push(items[i].clone());
                    i += 1;
                    assert forall|k: int| 0 <= k < i implies items_model(copies@)[k]
                        == items_model(items@)[k] by {
                        if k < i - 1 {
                            assert(copies@[k] == done[k]);
                            assert(items_model(done)[k] == items_model(items@).take(i - 1)[k]);
                        }
                    }
                    assert(items_model(copies@) =~= items_model(items@).take(i as int));
                }
                assert(items_model(copies@) =~= items_model(items@));
                JsonValue::Array(copies)
            },
            JsonValue::Object(entries) => {
                let mut copies: Vec<(String, JsonValue)> = Vec::new();
                let mut i: usize = 0;
                while i < entries.len()
                    invariant
                        i <= entries.len(),
                        *self == JsonValue::Object(*entries),
                        copies.len() == i,
                        entries_model(copies@) == entries_model(entries@).take(i as int),
                    decreases entries.len() - i,
                {
                    assert(decreases_to!(*self => self->Object_0));
                    assert(decreases_to!(self->Object_0 => (self->Object_0)[i as int]));
                    assert(decreases_to!((self->Object_0)[i as int] => (self->Object_0)[i as int].1));
                    let ghost done = copies@;
                    copies.push((entries[i].0.clone(), entries[i].1.clone()));
                    i += 1;
                    assert forall|k: int| 0 <= k < i implies entries_model(copies@)[k]
                        == entries_model(entries@)[k] by {
                        if k < i - 1 {
                            assert(copies@[k] == done[k]);
                            assert(entries_model(done)[k] == entries_model(entries@).take(i - 1)[k]);
                        }
                    }
                    assert(entries_model(copies@) =~= entries_model(entries@).take(i as int));
                }
                assert(entries_model(copies@) =~= entries_model(entries@));
                JsonValue::Object(copies)
            },
        }
    }
}

/// The kind of a token.
#[derive(Clone, Copy, Debug, PartialEq, Eq, Structural)]
pub enum TokenType {
    Null,
    Bool,
    Number,
    String,
    Comma,
    Colon,
    LeftBrace,
    RightBrace,
    LeftBracket,
    RightBracket,
}

impl TokenType {
    /// The name of the kind in messages: punctuation as it is written, a
    /// literal by the name of its kind.
    pub open spec fn name(self) -> Seq<char> {
        match self {
            TokenType::Null => "null"@,
            TokenType::Bool => "boolean"@,
            TokenType::Number => "number"@,
            TokenType::String => "string"@,
            TokenType::Comma => ","@,
            TokenType::Colon => ":"@,
            TokenType::LeftBrace => "{"@,
            TokenType::RightBrace => "}"@,
            TokenType::LeftBracket => "["@,
            TokenType::RightBracket => "]"@,
        }
    }

    /// Whether a token of this kind carries a value.
    pub open spec fn is_literal(self) -> bool {
        self == TokenType::Null || self == TokenType::Bool || self == TokenType::Number || self
            == TokenType::String
    }

    /// The name of the kind in messages.
    pub fn as_str(&self) -> (name: &'static str)
        ensures
            name@ == self.name(),
    {
        match self {
            TokenType::Null => "null",
            TokenType::Bool => "boolean",
            TokenType::Number => "number",
            TokenType::String => "string",
            TokenType::Comma => ",",
            TokenType::Colon => ":",
            TokenType::LeftBrace => "{",
            TokenType::RightBrace => "}",
            TokenType::LeftBracket => "[",
            TokenType::RightBracket => "]",
        }
    }

    /// The name of the kind in messages, as an owned string.
    pub fn to_string(&self) -> (shown: String)
        ensures
            shown@ == self.name(),
    {
        String::from_str(self.as_str())
    }
}

/// A token: its kind, the value of a literal, and the line and column of its
/// first character, both counted from zero.
#[derive(Debug, PartialEq)]
pub struct Token {
    pub token_type: TokenType,
    pub value: Option<JsonValue>,
    pub line: usize,
    pub column: usize,
}

/// The mathematical value of a `Token`.
pub struct SpecToken {
    pub token_type: TokenType,
    pub value: Option<SpecValue>,
    pub line: nat,
    pub column: nat,
}

impl SpecToken {
    /// Whether the token is one that tokenizing can yield: a literal carries
    /// a well-formed value of its own kind, punctuation carries none.
    pub open spec fn wf(self) -> bool {
        match self.token_type {
            TokenType::Null => self.value == Some(SpecValue::Null),
            TokenType::Bool => self.value matches Some(SpecValue::Bool(_)),
            TokenType::Number => self.value matches Some(SpecValue::Number(text))
                && is_number_literal(text),
            TokenType::String => self.value matches Some(SpecValue::String(text)) && !text.contains(
                '"',
            ),
            _ => self.value is None,
        }
    }
}

impl View for Token {
    type V = SpecToken;

    open spec fn view(&self) -> SpecToken {
        SpecToken {
            token_type: self.token_type,
            value: match self.value {
                Some(value) => Some(value@),
                None => None,
            },
            line: self.line as nat,
            column: self.column as nat,
        }
    }
}

/// The mathematical values of `tokens`, in their order.
pub open spec fn tokens_model(tokens: Seq<Token>) -> Seq<SpecToken> {
    Seq::new(tokens.len(), |i: int| tokens[i]@)
}

/// Why a text is not a JSON document.
#[derive(Debug, PartialEq)]
pub enum Error {
    /// A string literal has no closing quote.
    UnexpectedEndOfString,
    /// The text is empty, or ends inside an array or object.
    UnexpectedEndOfInput,
    /// The character, at the line and column given, begins no token.
    UnexpectedCharacter(char, (usize, usize)),
    /// A run of numeric characters is no number.
    ParseNumberError(String),
    /// A token stands where the grammar has no place for it.
    UnexpectedToken(String),
}

/// The mathematical value of an `Error`.
pub enum SpecError {
    UnexpectedEndOfString,
    UnexpectedEndOfInput,
    UnexpectedCharacter(char, (nat, nat)),
    ParseNumberError(Seq<char>),
    UnexpectedToken(Seq<char>),
}

impl View for Error {
    type V = SpecError;

    open spec fn view(&self) -> SpecError {
        match self {
            Error::UnexpectedEndOfString => SpecError::UnexpectedEndOfString,
            Error::UnexpectedEndOfInput => SpecError::UnexpectedEndOfInput,
            Error::UnexpectedCharacter(c, at) => SpecError::UnexpectedCharacter(
                *c,
                (at.0 as nat, at.1 as nat),
            ),
            Error::ParseNumberError(detail) => SpecError::ParseNumberError(detail@),
            Error::UnexpectedToken(message) => SpecError::UnexpectedToken(message@),
        }
    }
}

impl SpecError {
    /// The error in words.
    pub open spec fn message(self) -> Seq<char> {
        match self {
            SpecError::UnexpectedEndOfString => "Unexpected end-of-string quote"@,
            SpecError::UnexpectedEndOfInput => "Unexpected end of input"@,
            SpecError::UnexpectedCharacter(c, at) => "Unexpected character: "@ + seq![c]
                + ", line "@ + decimal(at.0) + " column "@ + decimal(at.1),
            SpecError::ParseNumberError(detail) => detail,
            SpecError::UnexpectedToken(message) => message,
        }
    }
}

impl Error {
    /// The error in words.
    pub fn to_string(&self) -> (shown: String)
        ensures
            shown@ == self@.message(),
    {
        match self {
            Error::UnexpectedEndOfString => String::from_str("Unexpected end-of-string quote"),
            Error::UnexpectedEndOfInput => String::from_str("Unexpected end of input"),
            Error::UnexpectedCharacter(c, at) => {
                let mut shown = String::from_str("Unexpected character: ");
                shown.push(*c);
                shown.append(", line ");
                push_decimal(&mut shown, at.0);
                shown.append(" column ");
                push_decimal(&mut shown, at.1);
                shown
            },
            Error::ParseNumberError(detail) => detail.clone(),
            Error::UnexpectedToken(message) => message.clone(),
        }
    }
}

} // verus!
