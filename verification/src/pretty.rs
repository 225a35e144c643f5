//! The pretty-printer: from a sequence of tokens to indented text.

use vstd::prelude::*;
use vstd::string::StringExecFns;
use crate::text::{push_spaces, spaces};
use crate::types::{tokens_model, Error, SpecToken, Token, TokenType};

verus! {

/// What the printer remembers between tokens.
pub struct Layout {
    /// How many arrays and objects are open.
    pub depth: nat,
    /// Whether the line has its indentation already, so that an opening
    /// bracket or brace writes none.
    pub skip_indent: bool,
    /// Whether the array or object just opened is empty, so that it is closed
    /// on the same line.
    pub skip_newline: bool,
}

impl Layout {
    /// The layout before the first token.
    pub open spec fn start() -> Layout {
        Layout { depth: 0, skip_indent: false, skip_newline: false }
    }
}

/// Whether a token of kind `token_type` opens an array or object.
pub open spec fn opens(token_type: TokenType) -> bool {
    token_type == TokenType::LeftBrace || token_type == TokenType::LeftBracket
}

/// Whether a token of kind `token_type` closes an array or object.
pub open spec fn closes(token_type: TokenType) -> bool {
    token_type == TokenType::RightBrace || token_type == TokenType::RightBracket
}

/// Whether `token_type` opens an array or object that `next` closes at once.
pub open spec fn opens_empty(token_type: TokenType, next: Option<TokenType>) -> bool {
    ||| token_type == TokenType::LeftBrace && next == Some(TokenType::RightBrace)
    ||| token_type == TokenType::LeftBracket && next == Some(TokenType::RightBracket)
}

/// How a literal token is written: by its value, or by the name of its
/// kind where it carries none.
pub open spec fn written(token: SpecToken) -> Seq<char> {
    match token.value {
        Some(value) => value.display(),
        None => token.token_type.name(),
    }
}

/// The depth after a closing token.
pub open spec fn closed_depth(depth: nat) -> nat {
    if depth > 0 {
        (depth - 1) as nat
    } else {
        0
    }
}

/// What `token` adds to the text, where the kind of the token after it is
/// `next`, the layout reached is `layout`, and each level is indented by
/// `indent` spaces.
pub open spec fn piece(token: SpecToken, next: Option<TokenType>, layout: Layout, indent: nat) -> Seq<
    char,
> {
    let kind = token.token_type;
    if opens(kind) {
        if opens_empty(kind, next) {
            kind.name()
        } else if layout.skip_indent {
            kind.name() + seq!['\n'] + spaces(indent * (layout.depth + 1))
        } else {
            spaces(indent * layout.depth) + kind.name() + seq!['\n'] + spaces(
                indent * (layout.depth + 1),
            )
        }
    } else if closes(kind) {
        if layout.skip_newline {
            kind.name()
        } else {
            seq!['\n'] + spaces(indent * closed_depth(layout.depth)) + kind.name()
        }
    } else if kind == TokenType::Comma {
        kind.name() + seq!['\n'] + spaces(indent * layout.depth)
    } else if kind == TokenType::Colon {
        kind.name() + seq![' ']
    } else {
        written(token)
    }
}

/// The layout after a token of kind `kind` that a token of kind `next`
/// follows, from the layout `layout`.
pub open spec fn step(kind: TokenType, next: Option<TokenType>, layout: Layout) -> Layout {
    if opens(kind) {
        Layout {
            depth: layout.depth + 1,
            skip_indent: false,
            skip_newline: layout.skip_newline || opens_empty(kind, next),
        }
    } else if closes(kind) {
        Layout { depth: closed_depth(layout.depth), skip_indent: false, skip_newline: false }
    } else if kind == TokenType::Comma || kind == TokenType::Colon {
        Layout { skip_indent: true, ..layout }
    } else {
        layout
    }
}

/// The kind of the token after position `at`, if there is one.
pub open spec fn kind_after(tokens: Seq<SpecToken>, at: int) -> Option<TokenType> {
    if 0 <= at + 1 < tokens.len() {
        Some(tokens[at + 1].token_type)
    } else {
        None
    }
}

/// The text of the tokens from `at` on, from the layout `layout`.
pub open spec fn format_from(tokens: Seq<SpecToken>, at: int, layout: Layout, indent: nat) -> Seq<
    char,
>
    decreases tokens.len() - at,
{
    if 0 <= at < tokens.len() {
        piece(tokens[at], kind_after(tokens, at), layout, indent) + format_from(
            tokens,
            at + 1,
            step(tokens[at].token_type, kind_after(tokens, at), layout),
            indent,
        )
    } else {
        Seq::empty()
    }
}

/// The indented text of `tokens`: what is inside an array or object begins
/// on a new line, one level deeper; a comma ends a line; a colon is followed
/// by a space; an empty array or object stays on one line.
pub open spec fn format_text(tokens: Seq<SpecToken>, indent: nat) -> Seq<char> {
    format_from(tokens, 0, Layout::start(), indent)
}

/// Appends the indentation of `depth` levels of `indent` spaces to `out`.
fn push_indent(out: &mut String, indent: usize, depth: usize)
    ensures
        final(out)@ == old(out)@ + spaces(indent as nat * depth as nat),
{
    let mut level: usize = 0;
    assert(out@ =~= old(out)@ + spaces(indent as nat * 0));
    while level < depth
        invariant
            level <= depth,
            out@ == old(out)@ + spaces(indent as nat * level as nat),
        decreases depth - level,
    {
        let ghost before = out@;
        push_spaces(out, indent);
        assert(indent as nat * (level + 1) as nat == indent as nat * level as nat + indent as nat)
            by (nonlinear_arith);
        level += 1;
        assert(out@ =~= old(out)@ + spaces(indent as nat * level as nat));
    }
}

/// Appends to `out` what `token` adds to the text.
fn push_piece(
    out: &mut String,
    token: &Token,
    next: Option<TokenType>,
    depth: usize,
    skip_indent: bool,
    skip_newline: bool,
    indent: usize,
)
    requires
        depth < usize::MAX,
    ensures
        final(out)@ == old(out)@ + piece(
            token@,
            next,
            Layout { depth: depth as nat, skip_indent, skip_newline },
            indent as nat,
        ),
{
    let kind = token.token_type;
    match kind {
        TokenType::LeftBrace | TokenType::LeftBracket => {
            let empty = match next {
                Some(after) => kind == TokenType::LeftBrace && after == TokenType::RightBrace
                    || kind == TokenType::LeftBracket && after == TokenType::RightBracket,
                None => false,
            };
            if empty {
                out.append(kind.as_str());
            } else if skip_indent {
                out.append(kind.as_str());
                out.push('\n');
                push_indent(out, indent, depth + 1);
                assert(out@ =~= old(out)@ + (kind.name() + seq!['\n'] + spaces(
                    indent as nat * (depth as nat + 1),
                )));
            } else {
                push_indent(out, indent, depth);
                out.append(kind.as_str());
                out.push('\n');
                push_indent(out, indent, depth + 1);
                assert(out@ =~= old(out)@ + (spaces(indent as nat * depth as nat) + kind.name()
                    + seq!['\n'] + spaces(indent as nat * (depth as nat + 1))));
            }
        },
        TokenType::RightBrace | TokenType::RightBracket => {
            if skip_newline {
                out.append(kind.as_str());
            } else {
                let closed: usize = if depth > 0 {
                    depth - 1
                } else {
                    0
                };
                out.push('\n');
                push_indent(out, indent, closed);
                out.append(kind.as_str());
                assert(out@ =~= old(out)@ + (seq!['\n'] + spaces(
                    indent as nat * closed_depth(depth as nat),
                ) + kind.name()));
            }
        },
        TokenType::Comma => {
            out.append(kind.as_str());
            out.push('\n');
            push_indent(out, indent, depth);
            assert(out@ =~= old(out)@ + (kind.name() + seq!['\n'] + spaces(
                indent as nat * depth as nat,
            )));
        },
        TokenType::Colon => {
            out.append(kind.as_str());
            out.push(' ');
            assert(out@ =~= old(out)@ + (kind.name() + seq![' ']));
        },
        _ => {
            match &token.value {
                Some(value) => {
                    let shown = value.to_string();
                    out.append(shown.as_str());
                },
                None => {
                    out.append(kind.as_str());
                },
            }
        },
    }
}

/// Writes `tokens` as indented text, each level indented by `indent` spaces.
pub fn format(tokens: &[Token], indent: usize) -> (result: Result<String, Error>)
    ensures
        result matches Ok(text) && text@ == format_text(tokens_model(tokens@), indent as nat),
{
    let ghost model = tokens_model(tokens@);
    let mut out = String::new();
    let mut depth: usize = 0;
    let mut skip_indent = false;
    let mut skip_newline = false;
    let mut i: usize = 0;
    assert(out@ + format_text(model, indent as nat) =~= format_text(model, indent as nat));
    while i < tokens.len()
        invariant
            i <= tokens.len(),
            depth <= i,
            model == tokens_model(tokens@),
            format_text(model, indent as nat) == out@ + format_from(
                model,
                i as int,
                Layout { depth: depth as nat, skip_indent, skip_newline },
                indent as nat,
            ),
        decreases tokens.len() - i,
    {
        let ghost before = out@;
        let ghost layout = Layout { depth: depth as nat, skip_indent, skip_newline };
        let token = &tokens[i];
        let kind = token.token_type;
        let next = if i + 1 < tokens.len() {
            Some(tokens[i + 1].token_type)
        } else {
            None
        };
        assert(next == kind_after(model, i as int));
        push_piece(&mut out, token, next, depth, skip_indent, skip_newline, indent);
        match kind {
            TokenType::LeftBrace | TokenType::LeftBracket => {
                let empty = match next {
                    Some(after) => kind == TokenType::LeftBrace && after == TokenType::RightBrace
                        || kind == TokenType::LeftBracket && after == TokenType::RightBracket,
                    None => false,
                };
                if empty {
                    skip_newline = true;
                }
                depth += 1;
                skip_indent = false;
            },
            TokenType::RightBrace | TokenType::RightBracket => {
                if depth > 0 {
                    depth -= 1;
                }
                skip_indent = false;
                skip_newline = false;
            },
            TokenType::Comma | TokenType::Colon => {
                skip_indent = true;
            },
            _ => {},
        }
        assert(Layout { depth: depth as nat, skip_indent, skip_newline } == step(
            kind,
            next,
            layout,
        ));
        i += 1;
        assert(before + (piece(model[i - 1], next, layout, indent as nat) + format_from(
            model,
            i as int,
            step(kind, next, layout),
            indent as nat,
        )) =~= out@ + format_from(model, i as int, step(kind, next, layout), indent as nat));
    }
    assert(out@ + Seq::<char>::empty() =~= out@);
    Ok(out)
}

} // verus!
