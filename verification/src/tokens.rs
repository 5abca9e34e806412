//! The tokens of a file, in source order.

use crate::text_size::{TextRange, TextSize};
use vstd::prelude::*;

verus! {

/// What a token is, as far as the block structure of a file tells tokens apart.
#[derive(Debug, Clone, Copy, PartialEq, Eq, Structural)]
pub enum TokenKind {
    If,
    Elif,
    Else,
    For,
    While,
    Try,
    Except,
    Finally,
    Match,
    Case,
    Def,
    Class,
    With,
    Return,
    Raise,
    Break,
    Continue,
    Lpar,
    Rpar,
    Lsqb,
    Rsqb,
    Lbrace,
    Rbrace,
    Colon,
    Newline,
    NonLogicalNewline,
    Indent,
    Dedent,
    Comment,
    Other,
}

impl TokenKind {
    /// Whether the token is a comment or a line break that ends no statement.
    pub open spec fn spec_is_trivia(self) -> bool {
        self == TokenKind::Comment || self == TokenKind::NonLogicalNewline
    }

    pub fn is_trivia(self) -> (trivia: bool)
        ensures
            trivia == self.spec_is_trivia(),
    {
        self == TokenKind::Comment || self == TokenKind::NonLogicalNewline
    }
}

#[derive(Debug, Clone, Copy, PartialEq, Eq, Structural)]
pub struct Token {
    pub kind: TokenKind,
    pub range: TextRange,
}

/// How many of the first of `tokens` start before `offset`.
pub open spec fn starting_before(tokens: Seq<Token>, offset: int) -> int
    decreases tokens.len(),
{
    if tokens.len() > 0 && tokens[0].range.start < offset {
        1 + starting_before(tokens.skip(1), offset)
    } else {
        0
    }
}

/// How many of the first of `tokens` end at or before `offset`.
pub open spec fn ending_by(tokens: Seq<Token>, offset: int) -> int
    decreases tokens.len(),
{
    if tokens.len() > 0 && tokens[0].range.end <= offset {
        1 + ending_by(tokens.skip(1), offset)
    } else {
        0
    }
}

pub fn count_starting_before(tokens: &Vec<Token>, offset: TextSize) -> (count: usize)
    ensures
        count == starting_before(tokens@, offset as int),
        count <= tokens.len(),
{
    let mut i: usize = 0;
    assert(tokens@.skip(0) =~= tokens@);
    while i < tokens.len() && tokens[i].range.start < offset
        invariant
            i <= tokens.len(),
            starting_before(tokens@, offset as int) == i + starting_before(
                tokens@.skip(i as int),
                offset as int,
            ),
        decreases tokens.len() - i,
    {
        assert(tokens@.skip(i as int)[0] == tokens@[i as int]);
        assert(tokens@.skip(i as int).skip(1) =~= tokens@.skip(i + 1));
        i += 1;
    }
    assert(i < tokens.len() ==> tokens@.skip(i as int)[0] == tokens@[i as int]);
    i
}

pub fn count_ending_by(tokens: &Vec<Token>, offset: TextSize) -> (count: usize)
    ensures
        count == ending_by(tokens@, offset as int),
        count <= tokens.len(),
{
    let mut i: usize = 0;
    assert(tokens@.skip(0) =~= tokens@);
    while i < tokens.len() && tokens[i].range.end <= offset
        invariant
            i <= tokens.len(),
            ending_by(tokens@, offset as int) == i + ending_by(
                tokens@.skip(i as int),
                offset as int,
            ),
        decreases tokens.len() - i,
    {
        assert(tokens@.skip(i as int)[0] == tokens@[i as int]);
        assert(tokens@.skip(i as int).skip(1) =~= tokens@.skip(i + 1));
        i += 1;
    }
    assert(i < tokens.len() ==> tokens@.skip(i as int)[0] == tokens@[i as int]);
    i
}

/// How many of the first of `tokens` end before `offset`.
pub open spec fn ending_before(tokens: Seq<Token>, offset: int) -> int
    decreases tokens.len(),
{
    if tokens.len() > 0 && tokens[0].range.end < offset {
        1 + ending_before(tokens.skip(1), offset)
    } else {
        0
    }
}

pub fn count_ending_before(tokens: &Vec<Token>, offset: TextSize) -> (count: usize)
    ensures
        count == ending_before(tokens@, offset as int),
        count <= tokens.len(),
{
    let mut i: usize = 0;
    assert(tokens@.skip(0) =~= tokens@);
    while i < tokens.len() && tokens[i].range.end < offset
        invariant
            i <= tokens.len(),
            ending_before(tokens@, offset as int) == i + ending_before(
                tokens@.skip(i as int),
                offset as int,
            ),
        decreases tokens.len() - i,
    {
        assert(tokens@.skip(i as int)[0] == tokens@[i as int]);
        assert(tokens@.skip(i as int).skip(1) =~= tokens@.skip(i + 1));
        i += 1;
    }
    assert(i < tokens.len() ==> tokens@.skip(i as int)[0] == tokens@[i as int]);
    i
}

/// The tokens that start at `offset` or after it.
pub open spec fn tokens_from(tokens: Seq<Token>, offset: int) -> Seq<Token> {
    tokens.skip(starting_before(tokens, offset))
}

/// The first of `tokens` that covers any text.
pub open spec fn first_wide(tokens: Seq<Token>) -> Option<TextRange>
    decreases tokens.len(),
{
    if tokens.len() == 0 {
        None
    } else if tokens[0].range.start != tokens[0].range.end {
        Some(tokens[0].range)
    } else {
        first_wide(tokens.skip(1))
    }
}

/// The first of `tokens` that is of `kind`.
pub open spec fn first_of_kind(tokens: Seq<Token>, kind: TokenKind) -> Option<TextRange>
    decreases tokens.len(),
{
    if tokens.len() == 0 {
        None
    } else if tokens[0].kind == kind {
        Some(tokens[0].range)
    } else {
        first_of_kind(tokens.skip(1), kind)
    }
}

/// The last of `tokens` that is no trivia.
pub open spec fn last_significant(tokens: Seq<Token>) -> Option<TextRange>
    decreases tokens.len(),
{
    if tokens.len() == 0 {
        None
    } else if !tokens.last().kind.spec_is_trivia() {
        Some(tokens.last().range)
    } else {
        last_significant(tokens.drop_last())
    }
}

/// The first token starting at or after `offset`, passing over the zero-width `Dedent`s
/// that start where a dedented clause keyword does.
pub open spec fn token_after(tokens: Seq<Token>, offset: int) -> Option<TextRange> {
    first_wide(tokens_from(tokens, offset))
}

/// The token starting exactly at `offset`.
pub open spec fn token_starting(tokens: Seq<Token>, offset: int) -> Option<TextRange> {
    match token_after(tokens, offset) {
        Some(range) => if range.start == offset {
            Some(range)
        } else {
            None
        },
        None => None,
    }
}

pub fn first_token_any(tokens: &Vec<Token>, offset: TextSize) -> (found: Option<TextRange>)
    ensures
        found == token_after(tokens@, offset as int),
{
    let mut i: usize = count_starting_before(tokens, offset);
    let ghost from = tokens_from(tokens@, offset as int);
    while i < tokens.len()
        invariant
            i <= tokens.len(),
            first_wide(from) == first_wide(tokens@.skip(i as int)),
            from == tokens_from(tokens@, offset as int),
        decreases tokens.len() - i,
    {
        assert(tokens@.skip(i as int)[0] == tokens@[i as int]);
        assert(tokens@.skip(i as int).skip(1) =~= tokens@.skip(i + 1));
        if !tokens[i].range.is_empty() {
            return Some(tokens[i].range);
        }
        i += 1;
    }
    None
}

pub fn token_at(tokens: &Vec<Token>, offset: TextSize) -> (found: Option<TextRange>)
    ensures
        found == token_starting(tokens@, offset as int),
{
    match first_token_any(tokens, offset) {
        Some(range) => if range.start == offset {
            Some(range)
        } else {
            None
        },
        None => None,
    }
}

/// The first token of `kind` at or after `offset`.
pub fn first_token(tokens: &Vec<Token>, offset: TextSize, kind: TokenKind) -> (found: Option<
    TextRange,
>)
    ensures
        found == first_of_kind(tokens_from(tokens@, offset as int), kind),
{
    let mut i: usize = count_starting_before(tokens, offset);
    let ghost from = tokens_from(tokens@, offset as int);
    while i < tokens.len()
        invariant
            i <= tokens.len(),
            first_of_kind(from, kind) == first_of_kind(tokens@.skip(i as int), kind),
            from == tokens_from(tokens@, offset as int),
        decreases tokens.len() - i,
    {
        assert(tokens@.skip(i as int)[0] == tokens@[i as int]);
        assert(tokens@.skip(i as int).skip(1) =~= tokens@.skip(i + 1));
        if tokens[i].kind == kind {
            return Some(tokens[i].range);
        }
        i += 1;
    }
    None
}

/// The last significant token ending at or before `offset`.
pub fn token_before(tokens: &Vec<Token>, offset: TextSize) -> (found: Option<TextRange>)
    ensures
        found == last_significant(tokens@.take(ending_by(tokens@, offset as int))),
{
    let mut left: usize = count_ending_by(tokens, offset);
    let ghost upto = tokens@.take(left as int);
    while left > 0
        invariant
            left <= tokens.len(),
            upto == tokens@.take(ending_by(tokens@, offset as int)),
            last_significant(upto) == last_significant(tokens@.take(left as int)),
        decreases left,
    {
        assert(tokens@.take(left as int).drop_last() =~= tokens@.take(left - 1));
        assert(tokens@.take(left as int).last() == tokens@[left - 1]);
        if !tokens[left - 1].kind.is_trivia() {
            return Some(tokens[left - 1].range);
        }
        left -= 1;
    }
    None
}

/// Whether a token of `kind` lays out the lines around code, rather than being code.
pub open spec fn is_layout(kind: TokenKind) -> bool {
    match kind {
        TokenKind::Newline
        | TokenKind::NonLogicalNewline
        | TokenKind::Indent
        | TokenKind::Dedent
        | TokenKind::Comment => true,
        _ => false,
    }
}

/// The first of `tokens` that is code.
pub open spec fn first_code(tokens: Seq<Token>) -> Option<TextRange>
    decreases tokens.len(),
{
    if tokens.len() == 0 {
        None
    } else if !is_layout(tokens[0].kind) {
        Some(tokens[0].range)
    } else {
        first_code(tokens.skip(1))
    }
}

/// The first token at or after `offset` that is code.
pub fn first_code_token(tokens: &Vec<Token>, offset: TextSize) -> (found: Option<TextRange>)
    ensures
        found == first_code(tokens_from(tokens@, offset as int)),
{
    let mut i: usize = count_starting_before(tokens, offset);
    let ghost from = tokens_from(tokens@, offset as int);
    while i < tokens.len()
        invariant
            i <= tokens.len(),
            first_code(from) == first_code(tokens@.skip(i as int)),
            from == tokens_from(tokens@, offset as int),
        decreases tokens.len() - i,
    {
        assert(tokens@.skip(i as int)[0] == tokens@[i as int]);
        assert(tokens@.skip(i as int).skip(1) =~= tokens@.skip(i + 1));
        match tokens[i].kind {
            TokenKind::Newline
            | TokenKind::NonLogicalNewline
            | TokenKind::Indent
            | TokenKind::Dedent
            | TokenKind::Comment => {},
            _ => {
                return Some(tokens[i].range);
            },
        }
        i += 1;
    }
    None
}

} // verus!
