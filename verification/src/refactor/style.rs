//! How a file is written: how its lines end, and what one level of its indentation is.

use crate::source::{is_source, is_span, line_end_of, line_start_of, spans, text_of};
use crate::strings::{same_text, without_leading};
use crate::text_size::TextRange;
use crate::tokens::{Token, TokenKind};
use ruff_python_ast::token::{self, TokenFlags, Tokens};
use ruff_python_codegen::Stylist;
use vstd::prelude::*;
use vstd::string::StrSliceExecFns;

verus! {

/// What a file's own style has new text written like.
#[derive(Debug)]
pub struct Style {
    /// One level of indentation.
    pub indentation: String,
    pub line_ending: String,
}

/// The line ending `text` comes to first; a carriage return and the line feed after it are one.
pub open spec fn first_line_ending(text: Seq<char>) -> Option<Seq<char>>
    decreases text.len(),
{
    if text.len() == 0 {
        None
    } else if text[0] == '\n' {
        Some("\n"@)
    } else if text[0] == '\r' {
        if text.len() > 1 && text[1] == '\n' {
            Some("\r\n"@)
        } else {
            Some("\r"@)
        }
    } else {
        first_line_ending(text.skip(1))
    }
}

/// Whether `text` has its lines end in `ending`. Where it has a single line, that is up to the
/// platform.
pub open spec fn ends_lines(text: Seq<char>, ending: Seq<char>) -> bool {
    match first_line_ending(text) {
        Some(first) => ending == first,
        None => ending == "\n"@ || ending == "\r\n"@,
    }
}

/// What is left of `whitespace` past its last form feed, which starts the indentation anew.
pub open spec fn past_form_feed(whitespace: Seq<char>) -> Seq<char>
    decreases whitespace.len(),
{
    if whitespace.len() == 0 || whitespace.last() == '\x0C' {
        Seq::empty()
    } else {
        past_form_feed(whitespace.drop_last()).push(whitespace.last())
    }
}

/// The whitespace before what `line` says, if it says anything.
pub open spec fn hanging(line: Seq<char>) -> Seq<char> {
    let said = without_leading(line);
    if said.len() == 0 {
        Seq::empty()
    } else {
        line.take(line.len() - said.len())
    }
}

/// The indentation of the first line after one of `breaks` that is indented, or four spaces.
pub open spec fn first_hanging(text: Seq<char>, breaks: Seq<TextRange>) -> Seq<char>
    decreases breaks.len(),
{
    if breaks.len() == 0 {
        "    "@
    } else {
        let at = breaks[0].end as int;
        let line = text_of(
            text,
            TextRange {
                start: line_start_of(text, at) as u32,
                end: line_end_of(text, at) as u32,
            },
        );
        if hanging(line).len() > 0 {
            hanging(line)
        } else {
            first_hanging(text, breaks.skip(1))
        }
    }
}

/// One level of indentation of `text`: the first of `indents`, or how a line inside brackets is
/// indented when there is none.
pub open spec fn indentation_unit(
    text: Seq<char>,
    indents: Seq<TextRange>,
    breaks: Seq<TextRange>,
) -> Seq<char> {
    if indents.len() > 0 {
        past_form_feed(text_of(text, indents[0]))
    } else {
        first_hanging(text, breaks)
    }
}

pub open spec fn all_spans(text: Seq<char>, ranges: Seq<TextRange>) -> bool {
    forall|i: int| 0 <= i < ranges.len() ==> is_span(text, #[trigger] ranges[i])
}

/// `Stylist::line_ending` of ruff_python_codegen: the first line ending of the text, or the
/// platform's when it has none. It does not depend on the tokens.
#[verifier::external_body]
fn line_ending(text: &str) -> (ending: String)
    ensures
        ends_lines(text@, ending@),
{
    let tokens = Tokens::new(Vec::new());
    Stylist::from_tokens(&tokens, text).line_ending().as_str().to_string()
}

/// `Stylist::indentation` of ruff_python_codegen: the text of the first `Indent` token, past a
/// form feed in it; without one, the whitespace of the first indented line that a
/// `NonLogicalNewline` token ends before; and four spaces otherwise. Tokens of other kinds do not
/// bear on it.
#[verifier::external_body]
fn indentation(text: &str, indents: &Vec<TextRange>, breaks: &Vec<TextRange>) -> (unit: String)
    requires
        is_source(text@),
        all_spans(text@, indents@),
        all_spans(text@, breaks@),
    ensures
        unit@ == indentation_unit(text@, indents@, breaks@),
{
    let token = |kind: token::TokenKind, range: &TextRange| {
        let range = ruff_text_size::TextRange::new(range.start.into(), range.end.into());
        token::Token::new(kind, range, TokenFlags::empty())
    };
    let indents = indents.iter().map(|range| token(token::TokenKind::Indent, range));
    let breaks = breaks.iter().map(|range| token(token::TokenKind::NonLogicalNewline, range));
    let tokens = Tokens::new(indents.chain(breaks).collect());
    Stylist::from_tokens(&tokens, text).indentation().as_str().to_string()
}

/// Where the tokens of `kind` are.
pub open spec fn places_of(tokens: Seq<Token>, kind: TokenKind) -> Seq<TextRange>
    decreases tokens.len(),
{
    if tokens.len() == 0 {
        Seq::empty()
    } else {
        let before = places_of(tokens.drop_last(), kind);
        if tokens.last().kind == kind {
            before.push(tokens.last().range)
        } else {
            before
        }
    }
}

/// Whether each of `tokens` covers a stretch of `text`.
pub open spec fn are_of(tokens: Seq<Token>, text: Seq<char>) -> bool {
    forall|i: int| 0 <= i < tokens.len() ==> is_span(text, (#[trigger] tokens[i]).range)
}

/// Whether each of `tokens` covers a stretch of `text`.
pub fn are_tokens_of(tokens: &Vec<Token>, text: &str) -> (placed: bool)
    requires
        is_source(text@),
    ensures
        placed == are_of(tokens@, text@),
{
    let mut i: usize = 0;
    while i < tokens.len()
        invariant
            i <= tokens.len(),
            is_source(text@),
            forall|j: int| 0 <= j < i ==> is_span(text@, (#[trigger] tokens@[j]).range),
        decreases tokens.len() - i,
    {
        if !spans(text, tokens[i].range) {
            assert(!is_span(text@, tokens@[i as int].range));
            return false;
        }
        i += 1;
    }
    true
}

fn find_places(text: &str, tokens: &Vec<Token>, kind: TokenKind) -> (places: Vec<TextRange>)
    requires
        are_of(tokens@, text@),
    ensures
        places@ == places_of(tokens@, kind),
        all_spans(text@, places@),
{
    let mut places: Vec<TextRange> = Vec::new();
    let mut i: usize = 0;
    while i < tokens.len()
        invariant
            i <= tokens.len(),
            are_of(tokens@, text@),
            places@ == places_of(tokens@.take(i as int), kind),
            all_spans(text@, places@),
        decreases tokens.len() - i,
    {
        assert(tokens@.take(i + 1).drop_last() =~= tokens@.take(i as int));
        assert(tokens@.take(i + 1).last() == tokens@[i as int]);
        if tokens[i].kind == kind {
            places.push(tokens[i].range);
        }
        i += 1;
    }
    assert(tokens@.take(i as int) =~= tokens@);
    places
}

/// Whether `text` has more than one line.
fn has_line_ending(text: &str) -> (has: bool)
    ensures
        has == first_line_ending(text@) is Some,
{
    let length = text.unicode_len();
    let mut i: usize = 0;
    assert(text@.skip(0) =~= text@);
    while i < length
        invariant
            i <= length,
            length == text@.len(),
            first_line_ending(text@) is Some == first_line_ending(text@.skip(i as int)) is Some,
        decreases length - i,
    {
        assert(text@.skip(i as int)[0] == text@[i as int]);
        assert(text@.skip(i as int).skip(1) =~= text@.skip(i + 1));
        let c = text.get_char(i);
        if c == '\n' || c == '\r' {
            return true;
        }
        i += 1;
    }
    false
}

impl Style {
    /// Whether this is the style of the file that reads `text`, whose tokens are `tokens`.
    pub open spec fn is_of(self, text: Seq<char>, tokens: Seq<Token>) -> bool {
        &&& ends_lines(text, self.line_ending@)
        &&& self.indentation@ == indentation_unit(
            text,
            places_of(tokens, TokenKind::Indent),
            places_of(tokens, TokenKind::NonLogicalNewline),
        )
    }

    /// Whether this is the style of the file that reads `text`, whose tokens are `tokens`.
    pub fn is_style_of(&self, text: &str, tokens: &Vec<Token>) -> (is_of: bool)
        requires
            is_source(text@),
            are_of(tokens@, text@),
        ensures
            is_of == self.is_of(text@, tokens@),
    {
        let own = Style::of(text, tokens);
        if !same_text(self.indentation.as_str(), own.indentation.as_str()) {
            return false;
        }
        let ending = self.line_ending.as_str();
        same_text(ending, own.line_ending.as_str()) || (!has_line_ending(text) && (same_text(
            ending,
            "\n",
        ) || same_text(ending, "\r\n")))
    }

    /// The style of the file that reads `text`, whose tokens are `tokens`.
    pub fn of(text: &str, tokens: &Vec<Token>) -> (style: Style)
        requires
            is_source(text@),
            are_of(tokens@, text@),
        ensures
            style.is_of(text@, tokens@),
    {
        let indents = find_places(text, tokens, TokenKind::Indent);
        let breaks = find_places(text, tokens, TokenKind::NonLogicalNewline);
        Style {
            indentation: indentation(text, &indents, &breaks),
            line_ending: line_ending(text),
        }
    }
}

} // verus!
