//! A source text, and where its lines are.
//!
//! Offsets count bytes, so what a line is, is said of the text's UTF-8 encoding.
//! An offset points into the text where a character starts or the text ends.

use crate::text_size::{TextRange, TextSize};
use ruff_python_trivia::PythonWhitespace;
use ruff_source_file::LineRanges;
use vstd::prelude::*;
use vstd::string::StrSliceExecFns;
use vstd::utf8::{
    decode_utf8, decode_utf8_encode_utf8, encode_utf8, encode_utf8_decode_utf8,
    encode_utf8_first_scalar, encode_utf8_valid_utf8, is_char_boundary,
    is_char_boundary_iff_not_is_continuation_byte, is_char_boundary_start_end_of_seq,
    is_continuation_byte, is_leading_byte_width_1, pop_first_scalar, valid_utf8, valid_utf8_split,
};

verus! {

/// The bytes of `text`.
pub open spec fn bytes_of(text: Seq<char>) -> Seq<u8> {
    encode_utf8(text)
}

/// Whether every offset into `text` fits in a [`TextSize`].
pub open spec fn is_source(text: Seq<char>) -> bool {
    bytes_of(text).len() <= u32::MAX
}

/// Whether a character of `text` starts at `offset`, or `text` ends there.
pub open spec fn is_offset(text: Seq<char>, offset: int) -> bool {
    0 <= offset <= bytes_of(text).len() && is_char_boundary(bytes_of(text), offset)
}

/// Where the code of `text` begins: past the byte order mark, when it has one.
pub open spec fn code_start(text: Seq<char>) -> int {
    if text.len() > 0 && text[0] == '\u{feff}' {
        3
    } else {
        0
    }
}

/// Whether `range` is a stretch of `text`'s code.
pub open spec fn is_span(text: Seq<char>, range: TextRange) -> bool {
    &&& code_start(text) <= range.start <= range.end
    &&& is_offset(text, range.start as int)
    &&& is_offset(text, range.end as int)
}

/// The text at `range`.
pub open spec fn text_of(text: Seq<char>, range: TextRange) -> Seq<char> {
    decode_utf8(bytes_of(text).subrange(range.start as int, range.end as int))
}

/// Whether `text` can be cut at both ends of `range`.
pub open spec fn is_cut(text: Seq<char>, range: TextRange) -> bool {
    range.start <= range.end && is_offset(text, range.start as int) && is_offset(
        text,
        range.end as int,
    )
}

pub open spec fn is_line_break(byte: u8) -> bool {
    byte == 0x0a || byte == 0x0d
}

/// Where the line holding `offset` starts: after the last line break before it, or where the
/// code begins.
pub open spec fn line_start_of(text: Seq<char>, offset: int) -> int
    decreases offset,
{
    if offset <= 0 {
        code_start(text)
    } else if is_line_break(bytes_of(text)[offset - 1]) {
        offset
    } else {
        line_start_of(text, offset - 1)
    }
}

/// Where the line holding `offset` ends: at the first line break from there, or where the text
/// ends.
pub open spec fn line_end_of(text: Seq<char>, offset: int) -> int
    decreases bytes_of(text).len() - offset,
{
    if offset >= bytes_of(text).len() {
        bytes_of(text).len() as int
    } else if is_line_break(bytes_of(text)[offset]) {
        offset
    } else {
        line_end_of(text, offset + 1)
    }
}

/// Where the line holding `offset` ends, its line break included; a carriage return and the line
/// feed after it are one line break.
pub open spec fn full_line_end_of(text: Seq<char>, offset: int) -> int {
    let end = line_end_of(text, offset);
    let bytes = bytes_of(text);
    if end >= bytes.len() {
        bytes.len() as int
    } else if bytes[end] == 0x0d && end + 1 < bytes.len() && bytes[end + 1] == 0x0a {
        end + 2
    } else {
        end + 1
    }
}

/// Whether a line break lies in `range`.
pub open spec fn breaks_line(text: Seq<char>, range: TextRange) -> bool {
    exists|i: int| range.start <= i < range.end && #[trigger] is_line_break(bytes_of(text)[i])
}

/// Python's whitespace between tokens: a space, a tab, a form feed.
pub open spec fn is_space(c: char) -> bool {
    c == ' ' || c == '\t' || c == '\x0C'
}

pub open spec fn all_space(text: Seq<char>) -> bool {
    forall|i: int| 0 <= i < text.len() ==> is_space(#[trigger] text[i])
}

/// `text` without the whitespace it starts with.
pub open spec fn trimmed_start(text: Seq<char>) -> Seq<char>
    decreases text.len(),
{
    if text.len() > 0 && is_space(text[0]) {
        trimmed_start(text.skip(1))
    } else {
        text
    }
}

/// `text` without the whitespace it ends with.
pub open spec fn trimmed_end(text: Seq<char>) -> Seq<char>
    decreases text.len(),
{
    if text.len() > 0 && is_space(text.last()) {
        trimmed_end(text.drop_last())
    } else {
        text
    }
}

/// `text` without the whitespace around it.
pub open spec fn trimmed(text: Seq<char>) -> Seq<char> {
    trimmed_end(trimmed_start(text))
}

/// The whitespace `text` starts with.
pub open spec fn indentation_of(text: Seq<char>) -> Seq<char> {
    text.take(text.len() - trimmed_start(text).len())
}

/// `LineRanges::line_start` of ruff_source_file: one past the last `\n` or `\r` before `offset`,
/// or the end of the byte order mark when there is none.
#[verifier::external_body]
pub(crate) fn line_start(text: &str, offset: TextSize) -> (start: TextSize)
    requires
        is_offset(text@, offset as int),
    ensures
        start == line_start_of(text@, offset as int),
{
    text.line_start(ruff_text_size::TextSize::from(offset)).into()
}

/// `LineRanges::line_end` of ruff_source_file: the first `\n` or `\r` at or after `offset`, or
/// the length of the text.
#[verifier::external_body]
pub(crate) fn line_end(text: &str, offset: TextSize) -> (end: TextSize)
    requires
        is_source(text@),
        is_offset(text@, offset as int),
    ensures
        end == line_end_of(text@, offset as int),
{
    text.line_end(ruff_text_size::TextSize::from(offset)).into()
}

/// `LineRanges::full_line_end` of ruff_source_file: past the first line break at or after
/// `offset`, where `\r\n` is one break, or the length of the text.
#[verifier::external_body]
pub(crate) fn full_line_end(text: &str, offset: TextSize) -> (end: TextSize)
    requires
        is_source(text@),
        is_offset(text@, offset as int),
    ensures
        end == full_line_end_of(text@, offset as int),
{
    text.full_line_end(ruff_text_size::TextSize::from(offset)).into()
}

/// `LineRanges::contains_line_break` of ruff_source_file: whether a `\n` or `\r` lies in
/// `range`.
#[verifier::external_body]
pub(crate) fn contains_line_break(text: &str, range: TextRange) -> (contains: bool)
    requires
        is_cut(text@, range),
    ensures
        contains == breaks_line(text@, range),
{
    text.contains_line_break(ruff_text_size::TextRange::new(range.start.into(), range.end.into()))
}

/// `indentation_at_offset` of ruff_python_trivia: the text from the start of the line to
/// `offset`, when it is all whitespace.
#[verifier::external_body]
pub(crate) fn indentation_at_offset<'a>(text: &'a str, offset: TextSize) -> (found: Option<&'a str>)
    requires
        is_offset(text@, offset as int),
        code_start(text@) <= offset,
    ensures
        ({
            let before = text_of(
                text@,
                TextRange { start: line_start_of(text@, offset as int) as u32, end: offset },
            );
            match found {
                Some(indentation) => all_space(before) && indentation@ == before,
                None => !all_space(before),
            }
        }),
{
    ruff_python_trivia::indentation_at_offset(ruff_text_size::TextSize::from(offset), text)
}

/// `leading_indentation` of ruff_python_trivia: the whitespace `line` starts with.
#[verifier::external_body]
pub(crate) fn leading_indentation(line: &str) -> (indentation: &str)
    ensures
        indentation@ == indentation_of(line@),
{
    ruff_python_trivia::leading_indentation(line)
}

/// `PythonWhitespace::trim_whitespace` of ruff_python_trivia: `text` without the spaces, tabs and
/// form feeds around it.
#[verifier::external_body]
pub(crate) fn trim_whitespace(text: &str) -> (rest: &str)
    ensures
        rest@ == trimmed(text@),
{
    text.trim_whitespace()
}

/// `PythonWhitespace::trim_whitespace_start` of ruff_python_trivia: `text` without the spaces,
/// tabs and form feeds it starts with.
#[verifier::external_body]
pub(crate) fn trim_whitespace_start(text: &str) -> (rest: &str)
    ensures
        rest@ == trimmed_start(text@),
{
    text.trim_whitespace_start()
}

/// An ASCII byte is a character of its own.
pub proof fn lemma_valid_after_ascii(bytes: Seq<u8>, i: int)
    requires
        valid_utf8(bytes),
        0 <= i < bytes.len(),
        bytes[i] < 0x80,
    ensures
        is_char_boundary(bytes, i),
        is_char_boundary(bytes, i + 1),
{
    assert(!is_continuation_byte(bytes[i]));
    is_char_boundary_iff_not_is_continuation_byte(bytes, i);
    if i + 1 == bytes.len() {
        is_char_boundary_start_end_of_seq(bytes);
    } else {
        valid_utf8_split(bytes, i);
        let rest = bytes.subrange(i, bytes.len() as int);
        assert(rest[0] == bytes[i]);
        assert(is_leading_byte_width_1(rest[0]));
        let after = pop_first_scalar(rest);
        assert(valid_utf8(after));
        assert(after =~= bytes.subrange(i + 1, bytes.len() as int));
        is_char_boundary_start_end_of_seq(after);
        is_char_boundary_iff_not_is_continuation_byte(after, 0);
        assert(after[0] == bytes[i + 1]);
        is_char_boundary_iff_not_is_continuation_byte(bytes, i + 1);
    }
}

/// A line break is a character of its own.
pub proof fn lemma_line_break_offsets(text: Seq<char>, i: int)
    requires
        0 <= i < bytes_of(text).len(),
        is_line_break(bytes_of(text)[i]),
    ensures
        is_offset(text, i),
        is_offset(text, i + 1),
{
    encode_utf8_valid_utf8(text);
    lemma_valid_after_ascii(bytes_of(text), i);
}

/// The text ends at an offset.
pub proof fn lemma_ends(text: Seq<char>)
    ensures
        is_offset(text, 0),
        is_offset(text, bytes_of(text).len() as int),
{
    encode_utf8_valid_utf8(text);
    is_char_boundary_start_end_of_seq(bytes_of(text));
}

/// The code begins at an offset.
pub proof fn lemma_code_start(text: Seq<char>)
    ensures
        is_offset(text, code_start(text)),
{
    lemma_ends(text);
    if text.len() > 0 && text[0] == '\u{feff}' {
        encode_utf8_valid_utf8(text);
        encode_utf8_first_scalar(text);
        let bytes = bytes_of(text);
        assert(vstd::utf8::length_of_first_scalar(bytes) == 3);
        is_char_boundary_start_end_of_seq(pop_first_scalar(bytes));
        reveal_with_fuel(is_char_boundary, 2);
    }
}

/// The line holding `offset` starts at an offset, at or before it.
pub proof fn lemma_line_start(text: Seq<char>, offset: int)
    requires
        code_start(text) <= offset <= bytes_of(text).len(),
    ensures
        code_start(text) <= line_start_of(text, offset) <= offset,
        is_offset(text, line_start_of(text, offset)),
    decreases offset,
{
    lemma_code_start(text);
    if offset > code_start(text) {
        if is_line_break(bytes_of(text)[offset - 1]) {
            lemma_line_break_offsets(text, offset - 1);
        } else {
            lemma_line_start(text, offset - 1);
        }
    } else {
        lemma_line_start_in_mark(text, offset);
    }
}

/// No line starts inside a byte order mark.
proof fn lemma_line_start_in_mark(text: Seq<char>, offset: int)
    requires
        0 <= offset <= code_start(text),
    ensures
        line_start_of(text, offset) == code_start(text),
    decreases offset,
{
    if offset > 0 {
        lemma_mark_bytes(text);
        lemma_line_start_in_mark(text, offset - 1);
    }
}

proof fn lemma_mark_bytes(text: Seq<char>)
    requires
        text.len() > 0,
        text[0] == '\u{feff}',
    ensures
        bytes_of(text).len() >= 3,
        bytes_of(text)[0] == 0xef,
        bytes_of(text)[1] == 0xbb,
        bytes_of(text)[2] == 0xbf,
{
    let mark = vstd::utf8::encode_scalar(0xfeff);
    assert(mark.len() == 3);
    assert(0xe0u8 | ((0xfeffu32 >> 12) & 0x0f) as u8 == 0xef) by (bit_vector);
    assert(0x80u8 | ((0xfeffu32 >> 6) & 0x3f) as u8 == 0xbb) by (bit_vector);
    assert(0x80u8 | (0xfeffu32 & 0x3f) as u8 == 0xbf) by (bit_vector);
    assert(bytes_of(text) == vstd::utf8::encode_scalar(text[0] as u32) + encode_utf8(
        text.drop_first(),
    ));
}

/// The line holding `offset` ends at an offset, at or after it.
pub proof fn lemma_line_end(text: Seq<char>, offset: int)
    requires
        0 <= offset <= bytes_of(text).len(),
    ensures
        offset <= line_end_of(text, offset) <= full_line_end_of(text, offset)
            <= bytes_of(text).len(),
        is_offset(text, line_end_of(text, offset)),
        is_offset(text, full_line_end_of(text, offset)),
        line_end_of(text, offset) < bytes_of(text).len() ==> line_end_of(text, offset)
            < full_line_end_of(text, offset),
    decreases bytes_of(text).len() - offset,
{
    lemma_ends(text);
    if offset < bytes_of(text).len() {
        if is_line_break(bytes_of(text)[offset]) {
            lemma_line_break_offsets(text, offset);
            if offset + 1 < bytes_of(text).len() && is_line_break(bytes_of(text)[offset + 1]) {
                lemma_line_break_offsets(text, offset + 1);
            }
        } else {
            lemma_line_end(text, offset + 1);
        }
    }
}

/// A stretch between two offsets is the encoding of the text there.
pub proof fn lemma_text_of(text: Seq<char>, range: TextRange)
    requires
        is_cut(text, range),
    ensures
        bytes_of(text_of(text, range)) == bytes_of(text).subrange(
            range.start as int,
            range.end as int,
        ),
        valid_utf8(bytes_of(text).subrange(range.start as int, range.end as int)),
{
    let bytes = bytes_of(text);
    encode_utf8_valid_utf8(text);
    valid_utf8_split(bytes, range.start as int);
    let rest = bytes.subrange(range.start as int, bytes.len() as int);
    let cut = range.end - range.start;
    lemma_offset_in_rest(bytes, range.start as int, range.end as int);
    valid_utf8_split(rest, cut);
    assert(rest.subrange(0, cut) =~= bytes.subrange(range.start as int, range.end as int));
    decode_utf8_encode_utf8(rest.subrange(0, cut));
}

/// A boundary stays one when what lies before an earlier boundary is cut off.
proof fn lemma_offset_in_rest(bytes: Seq<u8>, start: int, end: int)
    requires
        valid_utf8(bytes),
        0 <= start <= end <= bytes.len(),
        is_char_boundary(bytes, start),
        is_char_boundary(bytes, end),
    ensures
        valid_utf8(bytes.subrange(start, bytes.len() as int)),
        is_char_boundary(bytes.subrange(start, bytes.len() as int), end - start),
{
    valid_utf8_split(bytes, start);
    let rest = bytes.subrange(start, bytes.len() as int);
    is_char_boundary_start_end_of_seq(rest);
    if end < bytes.len() {
        is_char_boundary_iff_not_is_continuation_byte(bytes, end);
        assert(rest[end - start] == bytes[end]);
        is_char_boundary_iff_not_is_continuation_byte(rest, end - start);
    }
}

/// The text at `range`.
pub fn slice<'a>(text: &'a str, range: TextRange) -> (found: &'a str)
    requires
        is_cut(text@, range),
    ensures
        found@ == text_of(text@, range),
        bytes_of(found@) == bytes_of(text@).subrange(range.start as int, range.end as int),
{
    proof {
        encode_utf8_valid_utf8(text@);
        lemma_offset_in_rest(bytes_of(text@), range.start as int, range.end as int);
        lemma_text_of(text@, range);
    }
    let (_, rest) = text.split_at(range.start as usize);
    let (found, _) = rest.split_at((range.end - range.start) as usize);
    proof {
        assert(encode_utf8(found@) =~= bytes_of(text@).subrange(
            range.start as int,
            range.end as int,
        ));
        encode_utf8_decode_utf8(found@);
    }
    found
}

/// The text at `range`, when `text` can be cut there.
pub fn get<'a>(text: &'a str, range: TextRange) -> (found: Option<&'a str>)
    ensures
        match found {
            Some(found) => {
                &&& is_cut(text@, range)
                &&& found@ == text_of(text@, range)
                &&& bytes_of(found@) == bytes_of(text@).subrange(
                    range.start as int,
                    range.end as int,
                )
            },
            None => !is_cut(text@, range),
        },
{
    proof {
        encode_utf8_valid_utf8(text@);
    }
    let length = text.as_bytes().len();
    if range.start <= range.end && (range.end as usize) <= length && text.is_char_boundary(
        range.start as usize,
    ) && text.is_char_boundary(range.end as usize) {
        Some(slice(text, range))
    } else {
        None
    }
}

/// What follows `offset` in `text`.
pub open spec fn text_from(text: Seq<char>, offset: int) -> Seq<char> {
    decode_utf8(bytes_of(text).skip(offset))
}

/// What follows `offset` in `text`, when it can be cut there.
pub fn get_from<'a>(text: &'a str, offset: TextSize) -> (found: Option<&'a str>)
    ensures
        match found {
            Some(found) => is_offset(text@, offset as int) && found@ == text_from(
                text@,
                offset as int,
            ),
            None => !is_offset(text@, offset as int),
        },
{
    proof {
        encode_utf8_valid_utf8(text@);
    }
    let length = text.as_bytes().len();
    if (offset as usize) <= length && text.is_char_boundary(offset as usize) {
        let (_, rest) = text.split_at(offset as usize);
        proof {
            assert(encode_utf8(rest@) =~= bytes_of(text@).skip(offset as int));
            encode_utf8_decode_utf8(rest@);
        }
        Some(rest)
    } else {
        None
    }
}

/// Whether every offset into `text` fits in a [`TextSize`].
pub fn fits(text: &str) -> (fits: bool)
    ensures
        fits == is_source(text@),
{
    text.as_bytes().len() <= u32::MAX as usize
}

/// Whether `range` is a stretch of `text`'s code.
pub fn spans(text: &str, range: TextRange) -> (spans: bool)
    requires
        is_source(text@),
    ensures
        spans == is_span(text@, range),
{
    proof {
        encode_utf8_valid_utf8(text@);
    }
    let start: u32 = if !text.is_empty() && text.get_char(0) == '\u{feff}' {
        3
    } else {
        0
    };
    start <= range.start && range.start <= range.end && (range.end as usize) <= text.len()
        && text.is_char_boundary(range.start as usize) && text.is_char_boundary(
        range.end as usize,
    )
}

/// The encoding of two texts in a row is the one encoding after the other.
pub proof fn lemma_bytes_concat(a: Seq<char>, b: Seq<char>)
    ensures
        bytes_of(a + b) == bytes_of(a) + bytes_of(b),
    decreases a.len(),
{
    if a.len() == 0 {
        assert(a + b =~= b);
        assert(bytes_of(a) + bytes_of(b) =~= bytes_of(b));
    } else {
        assert((a + b).drop_first() =~= a.drop_first() + b);
        lemma_bytes_concat(a.drop_first(), b);
        assert((a + b)[0] == a[0]);
        assert(bytes_of(a + b) =~= bytes_of(a) + bytes_of(b));
    }
}

/// Between two characters of a stretch is an offset.
pub proof fn lemma_cut_within(text: Seq<char>, range: TextRange, a: Seq<char>, b: Seq<char>)
    requires
        is_cut(text, range),
        text_of(text, range) == a + b,
    ensures
        bytes_of(a).len() + bytes_of(b).len() == range.end - range.start,
        is_offset(text, range.start + bytes_of(a).len()),
{
    let bytes = bytes_of(text);
    lemma_text_of(text, range);
    lemma_bytes_concat(a, b);
    let at = range.start + bytes_of(a).len();
    encode_utf8_valid_utf8(text);
    encode_utf8_valid_utf8(b);
    if bytes_of(b).len() > 0 {
        is_char_boundary_start_end_of_seq(bytes_of(b));
        is_char_boundary_iff_not_is_continuation_byte(bytes_of(b), 0);
        let stretch = bytes.subrange(range.start as int, range.end as int);
        assert(stretch[bytes_of(a).len() as int] == bytes_of(b)[0]);
        assert(bytes[at] == bytes_of(b)[0]);
        is_char_boundary_iff_not_is_continuation_byte(bytes, at);
    } else {
        assert(at == range.end);
    }
}

/// Trimming the start of a text takes whitespace off it.
pub proof fn lemma_trimmed_start(text: Seq<char>)
    ensures
        trimmed_start(text).len() <= text.len(),
        text == indentation_of(text) + trimmed_start(text),
    decreases text.len(),
{
    if text.len() > 0 && is_space(text[0]) {
        lemma_trimmed_start(text.skip(1));
        assert(text =~= indentation_of(text) + trimmed_start(text)) by {
            let rest = text.skip(1);
            assert(rest == indentation_of(rest) + trimmed_start(rest));
            assert forall|i: int| 0 <= i < text.len() implies text[i] == (indentation_of(text)
                + trimmed_start(text))[i] by {
                if i >= text.len() - trimmed_start(text).len() {
                    let k = i - (text.len() - trimmed_start(text).len());
                    assert(rest[i - 1] == (indentation_of(rest) + trimmed_start(rest))[i - 1]);
                }
            }
        }
    } else {
        assert(text =~= indentation_of(text) + trimmed_start(text));
    }
}

/// Trimming the end of a text takes whitespace off it.
pub proof fn lemma_trimmed_end(text: Seq<char>)
    ensures
        trimmed_end(text).len() <= text.len(),
        text == trimmed_end(text) + text.skip(trimmed_end(text).len() as int),
    decreases text.len(),
{
    if text.len() > 0 && is_space(text.last()) {
        lemma_trimmed_end(text.drop_last());
        let kept = trimmed_end(text.drop_last());
        assert forall|i: int| 0 <= i < kept.len() implies kept[i] == text[i] by {
            assert(text.drop_last() == kept + text.drop_last().skip(kept.len() as int));
            assert(text.drop_last()[i] == (kept + text.drop_last().skip(kept.len() as int))[i]);
        }
    }
    assert(text =~= trimmed_end(text) + text.skip(trimmed_end(text).len() as int));
}

/// The part of `range` without the whitespace around its text, when `text` can be cut there and
/// more than whitespace is there.
pub open spec fn trimmed_range(text: Seq<char>, range: TextRange) -> Option<TextRange> {
    let selected = text_of(text, range);
    if is_cut(text, range) && trimmed(selected).len() > 0 {
        let start = range.start + bytes_of(indentation_of(selected)).len();
        Some(
            TextRange { start: start as u32, end: (start + bytes_of(trimmed(selected)).len()) as u32 },
        )
    } else {
        None
    }
}

/// The trimmed range lies in the range, between characters.
pub proof fn lemma_trimmed_range(text: Seq<char>, range: TextRange)
    ensures
        trimmed_range(text, range) matches Some(inner) ==> {
            let selected = text_of(text, range);
            &&& is_cut(text, inner)
            &&& range.start <= inner.start <= inner.end <= range.end
            &&& inner.start == range.start + bytes_of(indentation_of(selected)).len()
            &&& inner.end == inner.start + bytes_of(trimmed(selected)).len()
            &&& bytes_of(selected).len() == bytes_of(indentation_of(selected)).len() + bytes_of(
                trimmed_start(selected),
            ).len()
        },
{
    if trimmed_range(text, range) is Some {
        let selected = text_of(text, range);
        let lead = indentation_of(selected);
        let rest = trimmed_start(selected);
        let kept = trimmed_end(rest);
        let tail = rest.skip(kept.len() as int);
        lemma_trimmed_start(selected);
        lemma_trimmed_end(rest);
        lemma_cut_within(text, range, lead, rest);
        assert(selected =~= (lead + kept) + tail);
        lemma_cut_within(text, range, lead + kept, tail);
        lemma_bytes_concat(lead, kept);
        lemma_bytes_concat(lead, rest);
        lemma_bytes_concat(kept, tail);
    }
}

/// The part of `range` without the whitespace around its text.
pub fn trim_range(text: &str, range: TextRange) -> (trimmed_: Option<TextRange>)
    requires
        is_source(text@),
    ensures
        trimmed_ == trimmed_range(text@, range),
        trimmed_ matches Some(inner) ==> is_cut(text@, inner) && range.start <= inner.start
            && inner.end <= range.end,
{
    let selected = match get(text, range) {
        Some(selected) => selected,
        None => {
            return None;
        },
    };
    let kept = trim_whitespace(selected);
    if kept.is_empty() {
        return None;
    }
    proof {
        lemma_trimmed_range(text@, range);
    }
    let leading: usize = selected.len() - trim_whitespace_start(selected).len();
    let start: u32 = range.start + leading as u32;
    Some(TextRange { start, end: start + kept.len() as u32 })
}

} // verus!
