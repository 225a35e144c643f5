//! The canonical text of a value, and the proof that parsing it gives the
//! value back.

use vstd::prelude::*;
use vstd::string::StringExecFns;
use crate::lexer::{
    after_tokens, false_word, lemma_after_tokens, lemma_lex_token, lemma_numeric_end_is,
    lemma_quote_position_is, lex_from, lex_text, null_word, token, true_word, word_at, Cursor,
};
use crate::parser::{
    lemma_parsed_kind, parse_elements, parse_members, parse_value_at,
};
use crate::syntax::{is_numeric, lemma_number_literal_is_numeric};
use crate::types::{
    entries_model, entries_wf, insert_entry, items_model, items_wf, lemma_key_position, JsonValue,
    SpecError, SpecToken, SpecValue, TokenType,
};
use crate::{lemma_parsed_document_wf, parse_text};

verus! {

/// The canonical text of `value`: no whitespace, a number as its literal, a
/// string between quotes as it stands, the elements of an array and the
/// members of an object in their order, separated by commas.
pub open spec fn serialize(value: SpecValue) -> Seq<char>
    decreases value,
{
    match value {
        SpecValue::Null => null_word(),
        SpecValue::Bool(b) => if b {
            true_word()
        } else {
            false_word()
        },
        SpecValue::Number(text) => text,
        SpecValue::String(text) => seq!['"'] + text + seq!['"'],
        SpecValue::Array(items) => seq!['['] + serialize_items(items, true),
        SpecValue::Object(entries) => seq!['{'] + serialize_entries(entries, true),
    }
}

/// The text of the elements `items` and the closing bracket after them;
/// all but the first of an array begin with a comma.
pub open spec fn serialize_items(items: Seq<SpecValue>, first: bool) -> Seq<char>
    decreases items,
{
    if items.len() == 0 {
        seq![']']
    } else {
        (if first {
            Seq::empty()
        } else {
            seq![',']
        }) + serialize(items[0]) + serialize_items(items.drop_first(), false)
    }
}

/// The text of the members `entries` and the closing brace after them; all
/// but the first of an object begin with a comma.
pub open spec fn serialize_entries(entries: Seq<(Seq<char>, SpecValue)>, first: bool) -> Seq<char>
    decreases entries,
{
    if entries.len() == 0 {
        seq!['}']
    } else {
        (if first {
            Seq::empty()
        } else {
            seq![',']
        }) + seq!['"'] + entries[0].0 + seq!['"', ':'] + serialize(entries[0].1)
            + serialize_entries(entries.drop_first(), false)
    }
}

/// The tokens of the canonical text of `value`, where the text begins at
/// `at`.
pub open spec fn value_tokens(value: SpecValue, at: Cursor) -> Seq<SpecToken>
    decreases value,
{
    match value {
        SpecValue::Null => seq![token(TokenType::Null, Some(value), at)],
        SpecValue::Bool(_) => seq![token(TokenType::Bool, Some(value), at)],
        SpecValue::Number(_) => seq![token(TokenType::Number, Some(value), at)],
        SpecValue::String(_) => seq![token(TokenType::String, Some(value), at)],
        SpecValue::Array(items) => seq![token(TokenType::LeftBracket, None, at)] + items_tokens(
            items,
            true,
            at.advance(1),
        ),
        SpecValue::Object(entries) => seq![token(TokenType::LeftBrace, None, at)] + entries_tokens(
            entries,
            true,
            at.advance(1),
        ),
    }
}

/// The cursor past the comma that all but the first element or member
/// begin with.
pub open spec fn past_comma(first: bool, at: Cursor) -> Cursor {
    if first {
        at
    } else {
        at.advance(1)
    }
}

/// The comma token that all but the first element or member begin with.
pub open spec fn comma_tokens(first: bool, at: Cursor) -> Seq<SpecToken> {
    if first {
        Seq::empty()
    } else {
        seq![token(TokenType::Comma, None, at)]
    }
}

/// The tokens of `serialize_items(items, first)`, where that text begins at
/// `at`.
pub open spec fn items_tokens(items: Seq<SpecValue>, first: bool, at: Cursor) -> Seq<SpecToken>
    decreases items,
{
    if items.len() == 0 {
        seq![token(TokenType::RightBracket, None, at)]
    } else {
        let start = past_comma(first, at);
        comma_tokens(first, at) + value_tokens(items[0], start) + items_tokens(
            items.drop_first(),
            false,
            start.advance(serialize(items[0]).len()),
        )
    }
}

/// The tokens of `serialize_entries(entries, first)`, where that text begins
/// at `at`.
pub open spec fn entries_tokens(
    entries: Seq<(Seq<char>, SpecValue)>,
    first: bool,
    at: Cursor,
) -> Seq<SpecToken>
    decreases entries,
{
    if entries.len() == 0 {
        seq![token(TokenType::RightBrace, None, at)]
    } else {
        let start = past_comma(first, at);
        let colon = start.advance(entries[0].0.len() + 2);
        comma_tokens(first, at) + seq![
            token(TokenType::String, Some(SpecValue::String(entries[0].0)), start),
            token(TokenType::Colon, None, colon),
        ] + value_tokens(entries[0].1, colon.advance(1)) + entries_tokens(
            entries.drop_first(),
            false,
            colon.advance(1 + serialize(entries[0].1).len()),
        )
    }
}

/// Whether `part` stands in `whole` at position `at`.
pub open spec fn stands_at<A>(whole: Seq<A>, at: int, part: Seq<A>) -> bool {
    &&& 0 <= at
    &&& at + part.len() <= whole.len()
    &&& forall|i: int| 0 <= i < part.len() ==> whole[at + i] == #[trigger] part[i]
}

/// Where two parts stand one after the other, each stands in its place.
pub proof fn lemma_stands_at_split<A>(whole: Seq<A>, at: int, head: Seq<A>, tail: Seq<A>)
    requires
        stands_at(whole, at, head + tail),
    ensures
        stands_at(whole, at, head),
        stands_at(whole, at + head.len(), tail),
{
    let both = head + tail;
    assert forall|i: int| 0 <= i < head.len() implies whole[at + i] == #[trigger] head[i] by {
        assert(both[i] == head[i]);
    }
    assert forall|i: int| 0 <= i < tail.len() implies whole[at + head.len() + i]
        == #[trigger] tail[i] by {
        assert(both[head.len() + i] == tail[i]);
    }
}

/// The tokens of a value begin with a token that opens a value: a literal,
/// a bracket or a brace.
pub proof fn lemma_value_tokens_first(value: SpecValue, at: Cursor)
    ensures
        value_tokens(value, at).len() >= 1,
        value_tokens(value, at)[0].token_type.is_literal() || value_tokens(
            value,
            at,
        )[0].token_type == TokenType::LeftBracket || value_tokens(value, at)[0].token_type
            == TokenType::LeftBrace,
{
}

/// Parsing the tokens of a well-formed value gives the value back, and ends
/// after them.
pub proof fn lemma_parse_value_tokens(
    tokens: Seq<SpecToken>,
    at: int,
    value: SpecValue,
    from: Cursor,
)
    requires
        value.wf(),
        stands_at(tokens, at, value_tokens(value, from)),
    ensures
        parse_value_at(tokens, at) == Ok::<(SpecValue, int), SpecError>(
            (value, at + value_tokens(value, from).len()),
        ),
    decreases value,
{
    let spelled = value_tokens(value, from);
    assert(tokens[at + 0] == spelled[0]);
    match value {
        SpecValue::Array(items) => {
            let open = seq![token(TokenType::LeftBracket, None, from)];
            let inner = items_tokens(items, true, from.advance(1));
            lemma_stands_at_split(tokens, at, open, inner);
            if items.len() == 0 {
                assert(tokens[at + 1 + 0] == inner[0]);
                assert(items =~= Seq::empty());
            } else {
                let first = value_tokens(items[0], from.advance(1));
                let rest = items_tokens(
                    items.drop_first(),
                    false,
                    from.advance(1).advance(serialize(items[0]).len()),
                );
                lemma_value_tokens_first(items[0], from.advance(1));
                assert(inner =~= first + rest);
                assert(inner[0] == first[0]);
                assert(tokens[at + 1 + 0] == inner[0]);
                lemma_parse_items_tokens(tokens, at + 1, items, Seq::empty(), from.advance(1));
                assert(Seq::<SpecValue>::empty() + items =~= items);
            }
        },
        SpecValue::Object(entries) => {
            let open = seq![token(TokenType::LeftBrace, None, from)];
            let inner = entries_tokens(entries, true, from.advance(1));
            lemma_stands_at_split(tokens, at, open, inner);
            if entries.len() == 0 {
                assert(tokens[at + 1 + 0] == inner[0]);
                assert(entries =~= Seq::empty());
            } else {
                let members = members_tokens(entries, from.advance(1));
                assert(inner =~= members);
                assert(tokens[at + 1 + 0] == members[0]);
                assert(Seq::<(Seq<char>, SpecValue)>::empty() + entries =~= entries);
                lemma_parse_entries_tokens(tokens, at + 1, entries, Seq::empty(), from.advance(1));
            }
        },
        _ => {},
    }
}

/// The tokens of the elements `items`, from the first of them to the
/// closing bracket, where the first begins at `from`.
pub open spec fn elements_tokens(items: Seq<SpecValue>, from: Cursor) -> Seq<SpecToken>
    recommends
        items.len() > 0,
{
    value_tokens(items[0], from) + items_tokens(
        items.drop_first(),
        false,
        from.advance(serialize(items[0]).len()),
    )
}

/// Parsing the tokens of well-formed elements after the elements `done`
/// gives the array of them all, and ends after the closing bracket.
pub proof fn lemma_parse_items_tokens(
    tokens: Seq<SpecToken>,
    at: int,
    items: Seq<SpecValue>,
    done: Seq<SpecValue>,
    from: Cursor,
)
    requires
        items.len() > 0,
        items_wf(items),
        stands_at(tokens, at, elements_tokens(items, from)),
    ensures
        parse_elements(tokens, at, done) == Ok::<(SpecValue, int), SpecError>(
            (SpecValue::Array(done + items), at + elements_tokens(items, from).len()),
        ),
    decreases items,
{
    let first = value_tokens(items[0], from);
    let after = from.advance(serialize(items[0]).len());
    let rest = items.drop_first();
    let tail = items_tokens(rest, false, after);
    lemma_stands_at_split(tokens, at, first, tail);
    assert(items[0].wf());
    lemma_parse_value_tokens(tokens, at, items[0], from);
    lemma_value_tokens_first(items[0], from);
    let next = at + first.len();
    assert(tokens[next + 0] == tail[0]);
    if rest.len() == 0 {
        assert(done + items =~= done.push(items[0]));
    } else {
        let comma = seq![token(TokenType::Comma, None, after)];
        let more = elements_tokens(rest, after.advance(1));
        assert(tail =~= comma + more);
        lemma_stands_at_split(tokens, next, comma, more);
        lemma_value_tokens_first(rest[0], after.advance(1));
        assert(tokens[next + 1 + 0] == more[0]);
        assert(more[0] == value_tokens(rest[0], after.advance(1))[0]);
        assert forall|i: int| 0 <= i < rest.len() implies (#[trigger] rest[i]).wf() by {
            assert(rest[i] == items[i + 1]);
        }
        lemma_parse_items_tokens(tokens, next + 1, rest, done.push(items[0]), after.advance(1));
        assert(done.push(items[0]) + rest =~= done + items);
    }
}

/// The tokens of the members `entries`, from the key of the first of them to
/// the closing brace, where that key begins at `from`.
pub open spec fn members_tokens(entries: Seq<(Seq<char>, SpecValue)>, from: Cursor) -> Seq<
    SpecToken,
>
    recommends
        entries.len() > 0,
{
    let colon = from.advance(entries[0].0.len() + 2);
    seq![
        token(TokenType::String, Some(SpecValue::String(entries[0].0)), from),
        token(TokenType::Colon, None, colon),
    ] + value_tokens(entries[0].1, colon.advance(1)) + entries_tokens(
        entries.drop_first(),
        false,
        colon.advance(1 + serialize(entries[0].1).len()),
    )
}

/// Parsing the tokens of well-formed members after the entries `done`, none
/// of which has a key of theirs, gives the object of them all, and ends
/// after the closing brace.
pub proof fn lemma_parse_entries_tokens(
    tokens: Seq<SpecToken>,
    at: int,
    entries: Seq<(Seq<char>, SpecValue)>,
    done: Seq<(Seq<char>, SpecValue)>,
    from: Cursor,
)
    requires
        entries.len() > 0,
        entries_wf(done + entries),
        stands_at(tokens, at, members_tokens(entries, from)),
    ensures
        parse_members(tokens, at, done) == Ok::<(SpecValue, int), SpecError>(
            (SpecValue::Object(done + entries), at + members_tokens(entries, from).len()),
        ),
    decreases entries,
{
    let all = done + entries;
    let key = entries[0].0;
    let value = entries[0].1;
    let colon = from.advance(key.len() + 2);
    let head = seq![
        token(TokenType::String, Some(SpecValue::String(key)), from),
        token(TokenType::Colon, None, colon),
    ];
    let first = value_tokens(value, colon.advance(1));
    let after = colon.advance(1 + serialize(value).len());
    let rest = entries.drop_first();
    let tail = entries_tokens(rest, false, after);
    lemma_stands_at_split(tokens, at, head + first, tail);
    lemma_stands_at_split(tokens, at, head, first);
    assert(tokens[at + 0] == head[0]);
    assert(tokens[at + 1] == head[1]);
    assert(all[done.len() as int] == entries[0]);
    assert(value.wf());
    assert(decreases_to!(entries => entries[0]));
    assert(decreases_to!(entries[0] => entries[0].1));
    lemma_parse_value_tokens(tokens, at + 2, value, colon.advance(1));
    lemma_value_tokens_first(value, colon.advance(1));
    let next = at + 2 + first.len();
    assert(tokens[next + 0] == tail[0]);
    assert forall|i: int| 0 <= i < done.len() implies (#[trigger] done[i]).0 != key by {
        assert(all[i] == done[i]);
    }
    lemma_key_position(done, key, done.len() as int);
    assert(insert_entry(done, key, value) == done.push((key, value)));
    if rest.len() == 0 {
        assert(done + entries =~= done.push((key, value)));
    } else {
        let comma = seq![token(TokenType::Comma, None, after)];
        let more = members_tokens(rest, after.advance(1));
        assert(tail =~= comma + more);
        lemma_stands_at_split(tokens, next, comma, more);
        assert(tokens[next + 1 + 0] == more[0]);
        assert(done.push((key, value)) + rest =~= all);
        lemma_parse_entries_tokens(tokens, next + 1, rest, done.push((key, value)), after.advance(1));
    }
}

/// Whether a number that ends at `end` in `text` ends there for the
/// tokenizer too: no numeric character follows it.
pub open spec fn number_ends(text: Seq<char>, end: nat) -> bool {
    end < text.len() ==> !is_numeric(text[end as int])
}

/// Tokenizing the canonical text of a well-formed literal yields its one
/// token, and goes on after the text.
pub proof fn lemma_lex_literal(text: Seq<char>, at: Cursor, value: SpecValue)
    requires
        value.wf(),
        !(value is Array),
        !(value is Object),
        stands_at(text, at.index as int, serialize(value)),
        value is Number ==> number_ends(text, at.index + serialize(value).len()),
    ensures
        lex_from(text, at) == after_tokens(
            value_tokens(value, at),
            lex_from(text, at.advance(serialize(value).len())),
        ),
{
    let index = at.index as int;
    let written = serialize(value);
    match value {
        SpecValue::Null => {
            assert(text[index + 0] == written[0]);
            assert(text.subrange(index, index + 4) =~= null_word()) by {
                assert forall|i: int| 0 <= i < 4 implies text[index + i] == null_word()[i] by {
                    assert(text[index + i] == written[i]);
                }
            }
            lemma_lex_token(text, at, token(TokenType::Null, Some(value), at), 4);
        },
        SpecValue::Bool(b) => {
            assert(text[index + 0] == written[0]);
            if b {
                assert(text.subrange(index, index + 4) =~= true_word()) by {
                    assert forall|i: int| 0 <= i < 4 implies text[index + i] == true_word()[i] by {
                        assert(text[index + i] == written[i]);
                    }
                }
                lemma_lex_token(text, at, token(TokenType::Bool, Some(value), at), 4);
            } else {
                assert(!word_at(text, index, true_word())) by {
                    if word_at(text, index, true_word()) {
                        assert(text.subrange(index, index + 4)[0] == true_word()[0]);
                    }
                }
                assert(text.subrange(index, index + 5) =~= false_word()) by {
                    assert forall|i: int| 0 <= i < 5 implies text[index + i] == false_word()[i] by {
                        assert(text[index + i] == written[i]);
                    }
                }
                lemma_lex_token(text, at, token(TokenType::Bool, Some(value), at), 5);
            }
        },
        SpecValue::Number(literal) => {
            lemma_number_literal_is_numeric(literal);
            assert(text[index + 0] == literal[0]);
            assert forall|k: int| index <= k < index + literal.len() implies is_numeric(
                #[trigger] text[k],
            ) by {
                assert(text[index + (k - index)] == literal[k - index]);
            }
            lemma_numeric_end_is(text, index, index + literal.len());
            assert(text.subrange(index, index + literal.len()) =~= literal) by {
                assert forall|i: int| 0 <= i < literal.len() implies text[index + i]
                    == literal[i] by {
                    assert(text[index + i] == literal[i]);
                }
            }
            lemma_lex_token(
                text,
                at,
                token(TokenType::Number, Some(value), at),
                literal.len(),
            );
        },
        SpecValue::String(content) => {
            assert(text[index + 0] == written[0]);
            let close = index + 1 + content.len();
            assert(text[index + (close - index)] == written[close - index]);
            assert forall|k: int| index + 1 <= k < close implies #[trigger] text[k] != '"' by {
                assert(text[index + (k - index)] == written[k - index]);
                assert(written[k - index] == content[k - index - 1]);
            }
            lemma_quote_position_is(text, index + 1, close);
            assert(text.subrange(index + 1, close) =~= content) by {
                assert forall|i: int| 0 <= i < content.len() implies text[index + 1 + i]
                    == content[i] by {
                    assert(text[index + (1 + i)] == written[1 + i]);
                }
            }
            lemma_lex_token(
                text,
                at,
                token(TokenType::String, Some(value), at),
                content.len() + 2,
            );
        },
        _ => {},
    }
}

/// Tokenizing the canonical text of a well-formed value yields the tokens
/// of the value, and goes on after the text.
pub proof fn lemma_lex_value(text: Seq<char>, at: Cursor, value: SpecValue)
    requires
        value.wf(),
        stands_at(text, at.index as int, serialize(value)),
        value is Number ==> number_ends(text, at.index + serialize(value).len()),
    ensures
        lex_from(text, at) == after_tokens(
            value_tokens(value, at),
            lex_from(text, at.advance(serialize(value).len())),
        ),
    decreases value, 0nat,
{
    let index = at.index as int;
    match value {
        SpecValue::Array(items) => {
            let open = seq!['['];
            let inner = serialize_items(items, true);
            lemma_stands_at_split(text, index, open, inner);
            assert(text[index + 0] == open[0]);
            let first = token(TokenType::LeftBracket, None, at);
            lemma_lex_token(text, at, first, 1);
            lemma_lex_items(text, at.advance(1), items, true);
            let rest = lex_from(text, at.advance(1).advance(inner.len()));
            lemma_after_tokens(seq![first], items_tokens(items, true, at.advance(1)), rest);
            assert(at.advance(1).advance(inner.len()) == at.advance(serialize(value).len()));
        },
        SpecValue::Object(entries) => {
            let open = seq!['{'];
            let inner = serialize_entries(entries, true);
            lemma_stands_at_split(text, index, open, inner);
            assert(text[index + 0] == open[0]);
            let first = token(TokenType::LeftBrace, None, at);
            lemma_lex_token(text, at, first, 1);
            lemma_lex_entries(text, at.advance(1), entries, true);
            let rest = lex_from(text, at.advance(1).advance(inner.len()));
            lemma_after_tokens(seq![first], entries_tokens(entries, true, at.advance(1)), rest);
            assert(at.advance(1).advance(inner.len()) == at.advance(serialize(value).len()));
        },
        _ => {
            lemma_lex_literal(text, at, value);
        },
    }
}

/// The text of elements or members and their closing bracket or brace
/// begins with that bracket or brace, or with a comma.
pub proof fn lemma_serialized_rest_first(
    items: Seq<SpecValue>,
    entries: Seq<(Seq<char>, SpecValue)>,
)
    ensures
        serialize_items(items, false).len() >= 1,
        !is_numeric(serialize_items(items, false)[0]),
        serialize_entries(entries, false).len() >= 1,
        !is_numeric(serialize_entries(entries, false)[0]),
{
}

/// Tokenizing the canonical text of well-formed elements and their closing
/// bracket yields their tokens, and goes on after the text.
pub proof fn lemma_lex_items(text: Seq<char>, at: Cursor, items: Seq<SpecValue>, first: bool)
    requires
        items_wf(items),
        stands_at(text, at.index as int, serialize_items(items, first)),
    ensures
        lex_from(text, at) == after_tokens(
            items_tokens(items, first, at),
            lex_from(text, at.advance(serialize_items(items, first).len())),
        ),
    decreases items, 0nat,
{
    let index = at.index as int;
    let written = serialize_items(items, first);
    if items.len() == 0 {
        assert(text[index + 0] == written[0]);
        lemma_lex_token(text, at, token(TokenType::RightBracket, None, at), 1);
    } else {
        let comma: Seq<char> = if first {
            Seq::empty()
        } else {
            seq![',']
        };
        let one = serialize(items[0]);
        let rest = items.drop_first();
        let tail = serialize_items(rest, false);
        lemma_stands_at_split(text, index, comma + one, tail);
        lemma_stands_at_split(text, index, comma, one);
        let start = past_comma(first, at);
        let after = start.advance(one.len());
        lemma_serialized_rest_first(rest, Seq::empty());
        assert(text[index + comma.len() + one.len() + 0] == tail[0]);
        assert(items[0].wf());
        lemma_lex_value(text, start, items[0]);
        assert forall|i: int| 0 <= i < rest.len() implies (#[trigger] rest[i]).wf() by {
            assert(rest[i] == items[i + 1]);
        }
        lemma_lex_items(text, after, rest, false);
        let end = lex_from(text, after.advance(tail.len()));
        lemma_after_tokens(value_tokens(items[0], start), items_tokens(rest, false, after), end);
        assert(after.advance(tail.len()) == at.advance(written.len()));
        if !first {
            assert(text[index + 0] == comma[0]);
            let separator = token(TokenType::Comma, None, at);
            lemma_lex_token(text, at, separator, 1);
            lemma_after_tokens(
                seq![separator],
                value_tokens(items[0], start) + items_tokens(rest, false, after),
                end,
            );
            assert(seq![separator] + (value_tokens(items[0], start) + items_tokens(
                rest,
                false,
                after,
            )) =~= items_tokens(items, first, at));
        } else {
            assert(value_tokens(items[0], start) + items_tokens(rest, false, after)
                =~= items_tokens(items, first, at));
        }
    }
}

/// The canonical text of a member: its key between quotes, a colon, and the
/// text of its value.
pub open spec fn serialize_member(key: Seq<char>, value: SpecValue) -> Seq<char> {
    seq!['"'] + key + seq!['"'] + seq![':'] + serialize(value)
}

/// The tokens of `serialize_member(key, value)`, where that text begins at
/// `from`.
pub open spec fn member_tokens(key: Seq<char>, value: SpecValue, from: Cursor) -> Seq<SpecToken> {
    seq![
        token(TokenType::String, Some(SpecValue::String(key)), from),
        token(TokenType::Colon, None, from.advance(key.len() + 2)),
    ] + value_tokens(value, from.advance(key.len() + 3))
}

/// Tokenizing the canonical text of a well-formed member yields its
/// tokens, and goes on after the text.
pub proof fn lemma_lex_member(text: Seq<char>, at: Cursor, key: Seq<char>, value: SpecValue)
    requires
        !key.contains('"'),
        value.wf(),
        stands_at(text, at.index as int, serialize_member(key, value)),
        number_ends(text, at.index + serialize_member(key, value).len()),
    ensures
        lex_from(text, at) == after_tokens(
            member_tokens(key, value, at),
            lex_from(text, at.advance(serialize_member(key, value).len())),
        ),
    decreases value, 1nat,
{
    let index = at.index as int;
    let quoted = seq!['"'] + key + seq!['"'];
    let colon = seq![':'];
    let one = serialize(value);
    lemma_stands_at_split(text, index, quoted + colon, one);
    lemma_stands_at_split(text, index, quoted, colon);
    let at_colon = at.advance(key.len() + 2);
    let at_value = at.advance(key.len() + 3);
    let key_value = SpecValue::String(key);
    let key_token = token(TokenType::String, Some(key_value), at);
    let colon_token = token(TokenType::Colon, None, at_colon);
    assert(lex_from(text, at) == after_tokens(seq![key_token], lex_from(text, at_colon))) by {
        assert(serialize(key_value) == quoted);
        lemma_lex_literal(text, at, key_value);
    }
    assert(lex_from(text, at_colon) == after_tokens(seq![colon_token], lex_from(text, at_value)))
        by {
        assert(text[index + quoted.len() + 0] == colon[0]);
        lemma_lex_token(text, at_colon, colon_token, 1);
        assert(at_colon.advance(1) == at_value);
    }
    let end = lex_from(text, at.advance(serialize_member(key, value).len()));
    assert(lex_from(text, at_value) == after_tokens(value_tokens(value, at_value), end)) by {
        lemma_lex_value(text, at_value, value);
        assert(at_value.advance(one.len()) == at.advance(serialize_member(key, value).len()));
    }
    lemma_after_tokens(seq![colon_token], value_tokens(value, at_value), end);
    lemma_after_tokens(seq![key_token], seq![colon_token] + value_tokens(value, at_value), end);
    assert(seq![key_token] + (seq![colon_token] + value_tokens(value, at_value))
        =~= member_tokens(key, value, at));
}

/// Tokenizing the canonical text of well-formed members and their closing
/// brace yields their tokens, and goes on after the text.
pub proof fn lemma_lex_entries(
    text: Seq<char>,
    at: Cursor,
    entries: Seq<(Seq<char>, SpecValue)>,
    first: bool,
)
    requires
        entries_wf(entries),
        stands_at(text, at.index as int, serialize_entries(entries, first)),
    ensures
        lex_from(text, at) == after_tokens(
            entries_tokens(entries, first, at),
            lex_from(text, at.advance(serialize_entries(entries, first).len())),
        ),
    decreases entries, 0nat,
{
    let index = at.index as int;
    let written = serialize_entries(entries, first);
    if entries.len() == 0 {
        assert(text[index + 0] == written[0]);
        lemma_lex_token(text, at, token(TokenType::RightBrace, None, at), 1);
    } else {
        let comma: Seq<char> = if first {
            Seq::empty()
        } else {
            seq![',']
        };
        let key = entries[0].0;
        let value = entries[0].1;
        let member = serialize_member(key, value);
        let rest = entries.drop_first();
        let tail = serialize_entries(rest, false);
        let start = past_comma(first, at);
        let after = start.advance(member.len());
        let end = lex_from(text, at.advance(written.len()));
        let one_part = member_tokens(key, value, start);
        let rest_part = entries_tokens(rest, false, after);
        assert(written == comma + member + tail) by {
            assert(written =~= comma + member + tail);
        }
        assert(after.advance(tail.len()) == at.advance(written.len()));
        lemma_stands_at_split(text, index, comma + member, tail);
        lemma_stands_at_split(text, index, comma, member);
        assert(lex_from(text, start) == after_tokens(one_part, lex_from(text, after))) by {
            assert(entries[0].1.wf() && !entries[0].0.contains('"'));
            lemma_serialized_rest_first(Seq::empty(), rest);
            assert(text[index + comma.len() + member.len() + 0] == tail[0]);
            assert(decreases_to!(entries => entries[0]));
            assert(decreases_to!(entries[0] => entries[0].1));
            lemma_lex_member(text, start, key, value);
        }
        assert(lex_from(text, after) == after_tokens(rest_part, end)) by {
            assert(entries_wf(rest)) by {
                assert forall|i: int| 0 <= i < rest.len() implies !(
                #[trigger] rest[i]).0.contains('"') && rest[i].1.wf() by {
                    assert(rest[i] == entries[i + 1]);
                }
                assert forall|i: int, j: int| 0 <= i < j < rest.len() implies (
                #[trigger] rest[i]).0 != (#[trigger] rest[j]).0 by {
                    assert(rest[i] == entries[i + 1]);
                    assert(rest[j] == entries[j + 1]);
                }
            }
            lemma_lex_entries(text, after, rest, false);
        }
        lemma_after_tokens(one_part, rest_part, end);
        assert(comma_tokens(first, at) + one_part + rest_part == entries_tokens(
            entries,
            first,
            at,
        )) by {
            assert(after == start.advance(key.len() + 2).advance(1 + serialize(value).len()));
            assert(comma_tokens(first, at) + one_part + rest_part =~= entries_tokens(
                entries,
                first,
                at,
            ));
        }
        if !first {
            let separator = token(TokenType::Comma, None, at);
            assert(lex_from(text, at) == after_tokens(seq![separator], lex_from(text, start))) by {
                assert(text[index + 0] == comma[0]);
                lemma_lex_token(text, at, separator, 1);
            }
            lemma_after_tokens(seq![separator], one_part + rest_part, end);
            assert(seq![separator] + (one_part + rest_part) =~= comma_tokens(first, at) + one_part
                + rest_part);
        } else {
            assert(one_part + rest_part =~= comma_tokens(first, at) + one_part + rest_part);
        }
    }
}

/// The tokens of the canonical text of a well-formed value are the tokens of
/// the value, where the value is an array or an object.
pub proof fn lemma_lex_serialized(value: SpecValue)
    requires
        value.wf(),
        value is Array || value is Object,
    ensures
        lex_text(serialize(value)) == Ok::<Seq<SpecToken>, SpecError>(
            value_tokens(value, Cursor::start()),
        ),
{
    let text = serialize(value);
    let start = Cursor::start();
    lemma_lex_value(text, start, value);
    let end = lex_from(text, start.advance(text.len()));
    assert(end.tokens =~= Seq::empty());
    assert(value_tokens(value, start) + end.tokens =~= value_tokens(value, start));
}

/// Parsing the canonical text of a well-formed array or object gives the
/// array or object back.
pub proof fn lemma_parse_serialized(value: SpecValue)
    requires
        value.wf(),
        value is Array || value is Object,
    ensures
        parse_text(serialize(value)) == Ok::<SpecValue, SpecError>(value),
{
    lemma_lex_serialized(value);
    let tokens = value_tokens(value, Cursor::start());
    lemma_value_tokens_first(value, Cursor::start());
    lemma_parse_value_tokens(tokens, 0, value, Cursor::start());
}

/// Round trip: the canonical text of a document that was parsed is parsed to
/// the same document.
pub proof fn lemma_round_trip(text: Seq<char>)
    ensures
        parse_text(text) matches Ok(value) ==> parse_text(serialize(value)) == Ok::<
            SpecValue,
            SpecError,
        >(value),
{
    if let Ok(value) = parse_text(text) {
        lemma_parsed_document_wf(text);
        let tokens = lex_text(text)->Ok_0;
        lemma_parsed_kind(tokens, 0);
        lemma_parse_serialized(value);
    }
}

impl JsonValue {
    /// Writes the value as canonical text.
    pub fn to_json(&self) -> (text: String)
        ensures
            text@ == serialize(self@),
    {
        let mut text = String::new();
        self.write_json(&mut text);
        assert(Seq::<char>::empty() + serialize(self@) =~= serialize(self@));
        text
    }

    /// Appends the canonical text of the value to `out`.
    fn write_json(&self, out: &mut String)
        ensures
            final(out)@ == old(out)@ + serialize(self@),
        decreases self,
    {
        match self {
            JsonValue::Null => {
                out.append("null");
                proof {
                    reveal_strlit("null");
                    assert("null"@ =~= null_word());
                }
            },
            JsonValue::Bool(b) => {
                if *b {
                    out.append("true");
                    proof {
                        reveal_strlit("true");
                        assert("true"@ =~= true_word());
                    }
                } else {
                    out.append("false");
                    proof {
                        reveal_strlit("false");
                        assert("false"@ =~= false_word());
                    }
                }
            },
            JsonValue::Number(literal) => {
                out.append(literal.as_str());
            },
            JsonValue::String(content) => {
                out.push('"');
                out.append(content.as_str());
                out.push('"');
                assert(out@ =~= old(out)@ + (seq!['"'] + content@ + seq!['"']));
            },
            JsonValue::Array(items) => {
                let ghost model = items_model(items@);
                out.push('[');
                assert(model.skip(0) =~= model);
                assert(out@ + serialize_items(model, true) =~= old(out)@ + (seq!['[']
                    + serialize_items(model, true)));
                let mut i: usize = 0;
                while i < items.len()
                    invariant
                        i <= items.len(),
                        *self == JsonValue::Array(*items),
                        model == items_model(items@),
                        old(out)@ + serialize(self@) == out@ + serialize_items(
                            model.skip(i as int),
                            i == 0,
                        ),
                    decreases items.len() - i,
                {
                    let ghost before = out@;
                    let ghost left = model.skip(i as int);
                    if i > 0 {
                        out.push(',');
                    }
                    assert(decreases_to!(*self => self->Array_0));
                    assert(decreases_to!(self->Array_0 => (self->Array_0)[i as int]));
                    items[i].write_json(out);
                    proof {
                        assert(left[0] == items[i as int]@);
                        assert(left.drop_first() =~= model.skip(i + 1));
                        let comma: Seq<char> = if i == 0 {
                            Seq::empty()
                        } else {
                            seq![',']
                        };
                        assert(before + (comma + serialize(left[0]) + serialize_items(
                            left.drop_first(),
                            false,
                        )) =~= out@ + serialize_items(model.skip(i + 1), false));
                    }
                    i += 1;
                }
                out.push(']');
                assert(model.skip(i as int) =~= Seq::empty());
            },
            JsonValue::Object(entries) => {
                let ghost model = entries_model(entries@);
                out.push('{');
                assert(model.skip(0) =~= model);
                assert(out@ + serialize_entries(model, true) =~= old(out)@ + (seq!['{']
                    + serialize_entries(model, true)));
                let mut i: usize = 0;
                while i < entries.len()
                    invariant
                        i <= entries.len(),
                        *self == JsonValue::Object(*entries),
                        model == entries_model(entries@),
                        old(out)@ + serialize(self@) == out@ + serialize_entries(
                            model.skip(i as int),
                            i == 0,
                        ),
                    decreases entries.len() - i,
                {
                    let ghost before = out@;
                    let ghost left = model.skip(i as int);
                    if i > 0 {
                        out.push(',');
                    }
                    out.push('"');
                    out.append(entries[i].0.as_str());
                    out.push('"');
                    out.push(':');
                    assert(decreases_to!(*self => self->Object_0));
                    assert(decreases_to!(self->Object_0 => (self->Object_0)[i as int]));
                    assert(decreases_to!((self->Object_0)[i as int] => (self->Object_0)[i as int].1));
                    entries[i].1.write_json(out);
                    proof {
                        assert(left[0] == (entries[i as int].0@, entries[i as int].1@));
                        assert(left.drop_first() =~= model.skip(i + 1));
                        let comma: Seq<char> = if i == 0 {
                            Seq::empty()
                        } else {
                            seq![',']
                        };
                        assert(before + (comma + seq!['"'] + left[0].0 + seq!['"', ':']
                            + serialize(left[0].1) + serialize_entries(left.drop_first(), false))
                            =~= out@ + serialize_entries(model.skip(i + 1), false));
                    }
                    i += 1;
                }
                out.push('}');
                assert(model.skip(i as int) =~= Seq::empty());
            },
        }
    }
}

} // verus!
