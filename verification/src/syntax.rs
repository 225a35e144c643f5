//! The characters of JSON text: punctuation, the character classes that the
//! tokenizer scans by, and the shape of a numeric literal.

use vstd::prelude::*;

verus! {

pub const JSON_QUOTE: char = '"';

pub const JSON_COMMA: char = ',';

pub const JSON_COLON: char = ':';

pub const JSON_LEFTBRACKET: char = '[';

pub const JSON_RIGHTBRACKET: char = ']';

pub const JSON_LEFTBRACE: char = '{';

pub const JSON_RIGHTBRACE: char = '}';

/// Whitespace between tokens: space, tab, line feed, carriage return.
pub open spec fn is_whitespace(c: char) -> bool {
    c == ' ' || c == '\t' || c == '\n' || c == '\r'
}

/// A decimal digit.
pub open spec fn is_digit(c: char) -> bool {
    '0' <= c <= '9'
}

/// A character that may occur in a numeric run: a digit, `.`, `-`, `e` or `E`.
pub open spec fn is_numeric(c: char) -> bool {
    is_digit(c) || c == '.' || c == '-' || c == 'e' || c == 'E'
}

#[verifier::when_used_as_spec(is_whitespace)]
pub fn whitespace_char(c: char) -> (b: bool)
    ensures
        b == is_whitespace(c),
{
    c == ' ' || c == '\t' || c == '\n' || c == '\r'
}

#[verifier::when_used_as_spec(is_digit)]
pub fn digit_char(c: char) -> (b: bool)
    ensures
        b == is_digit(c),
{
    '0' <= c && c <= '9'
}

#[verifier::when_used_as_spec(is_numeric)]
pub fn numeric_char(c: char) -> (b: bool)
    ensures
        b == is_numeric(c),
{
    digit_char(c) || c == '.' || c == '-' || c == 'e' || c == 'E'
}

/// The first position at or after `from` that holds no digit; the length of
/// `s` where the digits run to its end.
pub open spec fn digits_end(s: Seq<char>, from: int) -> int
    decreases s.len() - from,
{
    if 0 <= from < s.len() && is_digit(s[from]) {
        digits_end(s, from + 1)
    } else {
        from
    }
}

/// Whether `s` is a decimal floating-point literal:
///
/// ```text
/// literal  ::= '-'? mantissa exponent?
/// mantissa ::= digit+ | digit+ '.' digit* | digit* '.' digit+
/// exponent ::= ('e' | 'E') '-'? digit+
/// ```
pub open spec fn is_number_literal(s: Seq<char>) -> bool {
    let int_start: int = if s.len() > 0 && s[0] == '-' { 1 } else { 0 };
    let int_end = digits_end(s, int_start);
    let frac_start = if int_end < s.len() && s[int_end] == '.' { int_end + 1 } else { int_end };
    let frac_end = digits_end(s, frac_start);
    let exp_start = if frac_end + 1 < s.len() && s[frac_end + 1] == '-' {
        frac_end + 2
    } else {
        frac_end + 1
    };
    &&& (int_end - int_start) + (frac_end - frac_start) >= 1
    &&& frac_end < s.len() ==> {
        &&& s[frac_end] == 'e' || s[frac_end] == 'E'
        &&& exp_start < s.len()
        &&& digits_end(s, exp_start) == s.len()
    }
}

/// `digits_end` stops inside the sequence, past nothing but digits, at a
/// character that is no digit.
pub proof fn lemma_digits_end(s: Seq<char>, from: int)
    requires
        0 <= from <= s.len(),
    ensures
        from <= digits_end(s, from) <= s.len(),
        forall|k: int| from <= k < digits_end(s, from) ==> is_digit(#[trigger] s[k]),
        digits_end(s, from) < s.len() ==> !is_digit(s[digits_end(s, from)]),
    decreases s.len() - from,
{
    if from < s.len() && is_digit(s[from]) {
        lemma_digits_end(s, from + 1);
    }
}

/// A numeric literal is not empty and holds numeric characters only.
pub proof fn lemma_number_literal_is_numeric(s: Seq<char>)
    requires
        is_number_literal(s),
    ensures
        s.len() >= 1,
        forall|k: int| 0 <= k < s.len() ==> is_numeric(#[trigger] s[k]),
{
    let int_start: int = if s.len() > 0 && s[0] == '-' { 1 } else { 0 };
    lemma_digits_end(s, int_start);
    let int_end = digits_end(s, int_start);
    let frac_start = if int_end < s.len() && s[int_end] == '.' { int_end + 1 } else { int_end };
    lemma_digits_end(s, frac_start);
    let frac_end = digits_end(s, frac_start);
    if frac_end < s.len() {
        let exp_start = if frac_end + 1 < s.len() && s[frac_end + 1] == '-' {
            frac_end + 2
        } else {
            frac_end + 1
        };
        lemma_digits_end(s, exp_start);
    }
}

/// Scans the digits of the run of `chars` that begins at `start` and stops
/// before `end`, from `from` on.
fn scan_digits(chars: &Vec<char>, start: usize, from: usize, end: usize) -> (stop: usize)
    requires
        start <= from <= end <= chars.len(),
    ensures
        stop - start == digits_end(chars@.subrange(start as int, end as int), from - start),
        from <= stop <= end,
{
    let ghost run = chars@.subrange(start as int, end as int);
    let mut i: usize = from;
    while i < end && digit_char(chars[i])
        invariant
            start <= from <= i <= end <= chars.len(),
            run == chars@.subrange(start as int, end as int),
            digits_end(run, from - start) == digits_end(run, i - start),
        decreases end - i,
    {
        assert(run[i - start] == chars@[i as int]);
        i += 1;
    }
    assert(i < end ==> run[i - start] == chars@[i as int]);
    i
}

/// Decides whether the characters of `chars` from `start` up to `end` form a
/// numeric literal.
pub(crate) fn number_literal(chars: &Vec<char>, start: usize, end: usize) -> (valid: bool)
    requires
        start <= end <= chars.len(),
    ensures
        valid == is_number_literal(chars@.subrange(start as int, end as int)),
{
    let ghost run = chars@.subrange(start as int, end as int);
    assert(forall|k: int| start <= k < end ==> run[k - start] == chars@[k]);
    let int_start: usize = if start < end && chars[start] == '-' { start + 1 } else { start };
    let int_end: usize = scan_digits(chars, start, int_start, end);
    let frac_start: usize = if int_end < end && chars[int_end] == '.' { int_end + 1 } else { int_end };
    let frac_end: usize = scan_digits(chars, start, frac_start, end);
    if int_end == int_start && frac_end == frac_start {
        return false;
    }
    if frac_end == end {
        return true;
    }
    if chars[frac_end] != 'e' && chars[frac_end] != 'E' {
        return false;
    }
    let exp_start: usize = if frac_end + 1 < end && chars[frac_end + 1] == '-' {
        frac_end + 2
    } else {
        frac_end + 1
    };
    if exp_start >= end {
        return false;
    }
    scan_digits(chars, start, exp_start, end) == end
}

} // verus!
