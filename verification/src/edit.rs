//! Edits to a file's text.

use crate::source::{bytes_of, is_offset, lemma_bytes_concat, text_from};
use crate::text_size::{TextRange, TextSize};
use vstd::prelude::*;
use vstd::utf8::{
    decode_utf8, decode_utf8_encode_utf8, encode_utf8_decode_utf8, encode_utf8_valid_utf8,
    valid_utf8_split,
};

verus! {

/// A file of the project.
#[derive(Debug, Clone, Copy, PartialEq, Eq, Structural)]
pub struct File {
    pub index: u32,
}

/// Text to write in place of what is at a range.
#[derive(Debug, Clone)]
pub struct Edit {
    pub range: TextRange,
    /// `None` deletes what is there.
    pub content: Option<String>,
}

/// An [`Edit`] as a mathematical value.
pub ghost struct EditModel {
    pub range: TextRange,
    pub content: Option<Seq<char>>,
}

pub open spec fn text_in(text: Option<String>) -> Option<Seq<char>> {
    match text {
        Some(text) => Some(text@),
        None => None,
    }
}

impl View for Edit {
    type V = EditModel;

    open spec fn view(&self) -> EditModel {
        EditModel { range: self.range, content: text_in(self.content) }
    }
}

pub open spec fn edit_models(edits: Seq<Edit>) -> Seq<EditModel> {
    edits.map_values(|edit: Edit| edit@)
}

/// Writing `content` at `range`.
pub open spec fn replacing(content: Seq<char>, range: TextRange) -> EditModel {
    EditModel { range, content: Some(content) }
}

/// Writing `content` before what is at `at`.
pub open spec fn inserting(content: Seq<char>, at: int) -> EditModel {
    EditModel { range: TextRange { start: at as u32, end: at as u32 }, content: Some(content) }
}

/// Removing what is at `range`.
pub open spec fn deleting(range: TextRange) -> EditModel {
    EditModel { range, content: None }
}

/// `text` with `edit` made.
pub open spec fn applied(text: Seq<char>, edit: EditModel) -> Seq<char> {
    let written = match edit.content {
        Some(content) => content,
        None => Seq::empty(),
    };
    decode_utf8(bytes_of(text).take(edit.range.start as int)) + written + text_from(
        text,
        edit.range.end as int,
    )
}

/// Where what inserting `content` at `at` writes is.
pub open spec fn inserted_at(content: Seq<char>, at: int) -> TextRange {
    TextRange { start: at as u32, end: (at + bytes_of(content).len()) as u32 }
}

/// What was inserted ends in the text it was inserted in.
pub proof fn lemma_inserted_fits(text: Seq<char>, content: Seq<char>, at: int)
    requires
        is_offset(text, at),
        at <= u32::MAX,
    ensures
        at + bytes_of(content).len() <= bytes_of(applied(text, inserting(content, at))).len(),
{
    let bytes = bytes_of(text);
    let before = decode_utf8(bytes.take(at));
    encode_utf8_valid_utf8(text);
    valid_utf8_split(bytes, at);
    assert(bytes.take(at) =~= bytes.subrange(0, at));
    decode_utf8_encode_utf8(bytes.take(at));
    lemma_bytes_concat(before, content);
    lemma_bytes_concat(before + content, text_from(text, at));
}

/// Deleting what was inserted gives the text back.
pub proof fn lemma_insertion_undone(text: Seq<char>, content: Seq<char>, at: int)
    requires
        is_offset(text, at),
        at + bytes_of(content).len() <= u32::MAX,
    ensures
        applied(
            applied(text, inserting(content, at)),
            deleting(inserted_at(content, at)),
        ) == text,
{
    let bytes = bytes_of(text);
    let before = decode_utf8(bytes.take(at));
    let rest = text_from(text, at);
    let after = applied(text, inserting(content, at));
    let end = at + bytes_of(content).len();
    encode_utf8_valid_utf8(text);
    valid_utf8_split(bytes, at);
    assert(bytes.take(at) =~= bytes.subrange(0, at));
    assert(bytes.skip(at) =~= bytes.subrange(at, bytes.len() as int));
    decode_utf8_encode_utf8(bytes.take(at));
    decode_utf8_encode_utf8(bytes.skip(at));
    lemma_bytes_concat(before, content);
    lemma_bytes_concat(before + content, rest);
    assert(after == before + content + rest);
    assert(bytes_of(after).take(at) =~= bytes_of(before));
    assert(bytes_of(after).skip(end) =~= bytes_of(rest));
    encode_utf8_decode_utf8(before);
    encode_utf8_decode_utf8(rest);
    lemma_bytes_concat(before, rest);
    assert(bytes_of(before + rest) =~= bytes);
    encode_utf8_decode_utf8(before + rest);
    encode_utf8_decode_utf8(text);
    assert(before + Seq::empty() + rest =~= before + rest);
}

impl Edit {
    pub fn range_replacement(content: String, range: TextRange) -> (edit: Edit)
        ensures
            edit@ == replacing(content@, range),
    {
        Edit { range, content: Some(content) }
    }

    pub fn insertion(content: String, at: TextSize) -> (edit: Edit)
        ensures
            edit@ == inserting(content@, at as int),
    {
        Edit { range: TextRange::empty(at), content: Some(content) }
    }

    /// The same edit again.
    pub fn copy(&self) -> (edit: Edit)
        ensures
            edit@ == self@,
    {
        Edit {
            range: self.range,
            content: match &self.content {
                Some(content) => Some(crate::strings::owned(content.as_str())),
                None => None,
            },
        }
    }

    pub fn range_deletion(range: TextRange) -> (edit: Edit)
        ensures
            edit@ == deleting(range),
    {
        Edit { range, content: None }
    }
}

/// An edit, and the file it applies to.
#[derive(Debug, Clone)]
pub struct FileEdit {
    pub file: File,
    pub edit: Edit,
}

/// A [`FileEdit`] as a mathematical value.
pub ghost struct FileEditModel {
    pub file: File,
    pub edit: EditModel,
}

impl View for FileEdit {
    type V = FileEditModel;

    open spec fn view(&self) -> FileEditModel {
        FileEditModel { file: self.file, edit: self.edit@ }
    }
}

pub open spec fn file_edit_models(edits: Seq<FileEdit>) -> Seq<FileEditModel> {
    edits.map_values(|edit: FileEdit| edit@)
}

} // verus!
