//! The string literals of a file, with what is inside them.

use crate::node::{
    child_of, height, is_path, lemma_height_child, lemma_height_child_of, lemma_path_rest, Field,
    Node, NodeKind, StringFlags,
};
use crate::source::{
    bytes_of, get, is_cut, is_source, lemma_text_of, lemma_valid_after_ascii, text_of,
};
use crate::text_size::{TextRange, TextSize};
use vstd::prelude::*;
use vstd::utf8::{encode_utf8_valid_utf8, valid_utf8, valid_utf8_split};

verus! {

/// One string literal part: one pair of quotes and what is between them.
#[derive(Debug, Clone, PartialEq, Eq)]
pub struct OutlineString {
    /// The part, prefix and quotes included.
    pub range: TextRange,
    /// How many leading characters basedpython strips from each line of this literal, when it
    /// strips any: a lone triple-quoted string in a basedpython file whose content starts on the
    /// line after the opening quotes and whose closing quotes sit on a line of their own.
    pub stripped_indent: Option<TextSize>,
    /// The `{...}` interpolations of an f-string or t-string, braces included.
    pub interpolations: Vec<TextRange>,
    /// The escape sequences in the literal text. A backslash Python does not recognise is still
    /// reported, as two characters: Python keeps it verbatim, and that is worth seeing.
    pub escapes: Vec<TextRange>,
}

/// An [`OutlineString`] as a mathematical value.
pub ghost struct OutlineStringModel {
    pub range: TextRange,
    pub stripped_indent: Option<TextSize>,
    pub interpolations: Seq<TextRange>,
    pub escapes: Seq<TextRange>,
}

impl View for OutlineString {
    type V = OutlineStringModel;

    open spec fn view(&self) -> OutlineStringModel {
        OutlineStringModel {
            range: self.range,
            stripped_indent: self.stripped_indent,
            interpolations: self.interpolations@,
            escapes: self.escapes@,
        }
    }
}

impl OutlineString {
    /// The same part again.
    pub fn copy(&self) -> (string: OutlineString)
        ensures
            string@ == self@,
    {
        let interpolations = self.interpolations.clone();
        let escapes = self.escapes.clone();
        assert(interpolations@ =~= self.interpolations@);
        assert(escapes@ =~= self.escapes@);
        OutlineString {
            range: self.range,
            stripped_indent: self.stripped_indent,
            interpolations,
            escapes,
        }
    }
}

pub open spec fn string_models(strings: Seq<OutlineString>) -> Seq<OutlineStringModel> {
    strings.map_values(|string: OutlineString| string@)
}

pub open spec fn is_hex_digit(byte: u8) -> bool {
    0x30 <= byte <= 0x39 || 0x41 <= byte <= 0x46 || 0x61 <= byte <= 0x66
}

pub open spec fn is_octal_digit(byte: u8) -> bool {
    0x30 <= byte <= 0x37
}

/// How many bytes the character starting with `byte` takes.
pub open spec fn width(byte: u8) -> int {
    if byte <= 0x7f {
        1
    } else if byte <= 0xdf {
        2
    } else if byte <= 0xef {
        3
    } else {
        4
    }
}

/// How long an escape is that takes `count` hex digits, where what follows its backslash is
/// `rest`. Without the digits it is the backslash and the character after it.
pub open spec fn hex_escape(rest: Seq<u8>, count: int) -> int {
    if rest.len() > count && forall|i: int| 1 <= i <= count ==> is_hex_digit(#[trigger] rest[i]) {
        count + 2
    } else {
        2
    }
}

/// Where the first closing brace of `rest` is, from `from` on.
pub open spec fn closing_brace(rest: Seq<u8>, from: int) -> Option<int>
    decreases rest.len() - from,
{
    if !(0 <= from < rest.len()) {
        None
    } else if rest[from] == 0x7d {
        Some(from)
    } else {
        closing_brace(rest, from + 1)
    }
}

/// How many octal digits `rest` starts with, up to `most`.
pub open spec fn octal_digits(rest: Seq<u8>, most: nat) -> int
    decreases most,
{
    if most > 0 && rest.len() > 0 && is_octal_digit(rest[0]) {
        1 + octal_digits(rest.skip(1), (most - 1) as nat)
    } else {
        0
    }
}

/// How long an escape is where what follows its backslash is `rest`, by Python's rules: `\N{...}`,
/// `\u` and `\U` are escapes in a `str` and not in `bytes`, `\x` takes two hex digits and an
/// octal escape up to three, and a line continuation is an escape of its line break. Any other
/// escape is the backslash and the whole character after it.
pub open spec fn escape_length(rest: Seq<u8>, in_bytes: bool) -> int {
    if rest[0] == 0x78 {
        hex_escape(rest, 2)
    } else if rest[0] == 0x75 && !in_bytes {
        hex_escape(rest, 4)
    } else if rest[0] == 0x55 && !in_bytes {
        hex_escape(rest, 8)
    } else if rest[0] == 0x4e && !in_bytes && rest.len() > 1 && rest[1] == 0x7b {
        match closing_brace(rest, 0) {
            Some(close) => close + 2,
            None => 2,
        }
    } else if is_octal_digit(rest[0]) {
        1 + octal_digits(rest, 3)
    } else if rest[0] == 0x0d && rest.len() > 1 && rest[1] == 0x0a {
        3
    } else {
        1 + width(rest[0])
    }
}

/// The escapes in `bytes` from `index` on, where `bytes` start at `start`.
pub open spec fn escapes_from(bytes: Seq<u8>, index: int, start: int, in_bytes: bool) -> Seq<
    TextRange,
>
    decreases bytes.len() - index,
{
    if !(0 <= index < bytes.len()) {
        Seq::empty()
    } else if bytes[index] != 0x5c || index + 1 >= bytes.len() {
        escapes_from(bytes, index + 1, start, in_bytes)
    } else {
        let length = escape_length(bytes.skip(index + 1), in_bytes);
        let escape = TextRange {
            start: (start + index) as u32,
            end: (start + index + length) as u32,
        };
        if 0 < length <= bytes.len() - index {
            seq![escape] + escapes_from(bytes, index + length, start, in_bytes)
        } else {
            Seq::empty()
        }
    }
}

/// The escapes in the literal text at `run`.
pub open spec fn escapes_at(text: Seq<char>, run: TextRange, in_bytes: bool) -> Seq<TextRange> {
    if is_cut(text, run) {
        escapes_from(bytes_of(text_of(text, run)), 0, run.start as int, in_bytes)
    } else {
        Seq::empty()
    }
}

/// The escapes in each of `runs`, in order.
pub open spec fn escapes_in_all(text: Seq<char>, runs: Seq<TextRange>, in_bytes: bool) -> Seq<
    TextRange,
>
    decreases runs.len(),
{
    if runs.len() == 0 {
        Seq::empty()
    } else {
        escapes_in_all(text, runs.drop_last(), in_bytes) + escapes_at(text, runs.last(), in_bytes)
    }
}

proof fn lemma_closing_brace(rest: Seq<u8>, from: int)
    ensures
        closing_brace(rest, from) matches Some(close) ==> from <= close < rest.len(),
    decreases rest.len() - from,
{
    if 0 <= from < rest.len() {
        lemma_closing_brace(rest, from + 1);
    }
}

proof fn lemma_octal_digits(rest: Seq<u8>, most: nat)
    ensures
        0 <= octal_digits(rest, most) <= rest.len(),
    decreases most,
{
    if most > 0 && rest.len() > 0 {
        lemma_octal_digits(rest.skip(1), (most - 1) as nat);
    }
}

/// An escape is longer than its backslash, and ends where the text does at the latest.
pub proof fn lemma_escape_length(bytes: Seq<u8>, index: int, in_bytes: bool)
    requires
        valid_utf8(bytes),
        0 <= index,
        index + 1 < bytes.len(),
        bytes[index] == 0x5c,
    ensures
        2 <= escape_length(bytes.skip(index + 1), in_bytes) <= bytes.len() - index,
{
    let rest = bytes.skip(index + 1);
    lemma_closing_brace(rest, 0);
    lemma_octal_digits(rest, 3);
    lemma_octal_digits(rest.skip(1), 2);
    lemma_valid_after_ascii(bytes, index);
    valid_utf8_split(bytes, index + 1);
    assert(rest =~= bytes.subrange(index + 1, bytes.len() as int));
    assert(valid_utf8(rest));
    if rest.len() > 1 && rest[0] == 0x4e && rest[1] == 0x7b {
        if let Some(close) = closing_brace(rest, 0) {
            assert(close >= 0);
        }
    }
}

fn hex_length(chars: &[u8], index: usize, count: usize) -> (length: usize)
    requires
        index + 1 < chars@.len(),
        count <= 8,
    ensures
        length == hex_escape(chars@.skip(index + 1), count as int),
{
    let ghost rest = chars@.skip(index + 1);
    let total = chars.len();
    if total - (index + 1) <= count {
        return 2;
    }
    let mut i: usize = 1;
    while i <= count
        invariant
            1 <= i <= count + 1,
            count <= 8,
            total == chars@.len(),
            rest == chars@.skip(index + 1),
            rest.len() > count,
            index + 1 < chars@.len(),
            forall|j: int| 1 <= j < i ==> is_hex_digit(#[trigger] rest[j]),
        decreases count + 1 - i,
    {
        let byte = chars[index + 1 + i];
        assert(byte == rest[i as int]);
        if !((0x30 <= byte && byte <= 0x39) || (0x41 <= byte && byte <= 0x46) || (0x61 <= byte
            && byte <= 0x66)) {
            return 2;
        }
        i += 1;
    }
    count + 2
}

fn brace_length(chars: &[u8], index: usize) -> (length: usize)
    requires
        index + 1 < chars@.len(),
    ensures
        length == (match closing_brace(chars@.skip(index + 1), 0) {
            Some(close) => close + 2,
            None => 2,
        }),
{
    let ghost rest = chars@.skip(index + 1);
    let total = chars.len();
    let mut i: usize = index + 1;
    while i < total
        invariant
            index + 1 <= i <= total,
            total == chars@.len(),
            rest == chars@.skip(index + 1),
            closing_brace(rest, 0) == closing_brace(rest, i - index - 1),
        decreases chars@.len() - i,
    {
        assert(chars@[i as int] == rest[i - index - 1]);
        if chars[i] == 0x7d {
            return i - index - 1 + 2;
        }
        i += 1;
    }
    2
}

fn octal_length(chars: &[u8], index: usize) -> (length: usize)
    requires
        index + 1 < chars@.len(),
    ensures
        length == 1 + octal_digits(chars@.skip(index + 1), 3),
{
    let ghost rest = chars@.skip(index + 1);
    let mut count: usize = 0;
    assert(rest.skip(0) =~= rest);
    while count < 3 && count < chars.len() - (index + 1) && 0x30 <= chars[index + 1 + count]
        && chars[index + 1 + count] <= 0x37
        invariant
            count <= 3,
            count <= rest.len(),
            index + 1 < chars@.len(),
            rest == chars@.skip(index + 1),
            octal_digits(rest, 3) == count + octal_digits(
                rest.skip(count as int),
                (3 - count) as nat,
            ),
        decreases 3 - count,
    {
        assert(rest.skip(count as int)[0] == chars@[index + 1 + count]);
        assert(rest.skip(count as int).skip(1) =~= rest.skip(count + 1));
        count += 1;
    }
    assert(count < rest.len() ==> rest.skip(count as int)[0] == chars@[index + 1 + count]);
    1 + count
}

/// The escape sequences in the literal text `run`.
pub fn escapes_in(source: &str, run: TextRange, in_bytes: bool, found: &mut Vec<TextRange>)
    requires
        is_source(source@),
    ensures
        final(found)@ == old(found)@ + escapes_at(source@, run, in_bytes),
{
    let text = match get(source, run) {
        Some(text) => text,
        None => {
            assert(found@ =~= old(found)@ + escapes_at(source@, run, in_bytes));
            return;
        },
    };
    let chars = text.as_bytes();
    let ghost bytes = bytes_of(text@);
    let ghost start = found@;
    proof {
        encode_utf8_valid_utf8(text@);
    }
    let mut index: usize = 0;
    assert(found@ + escapes_from(bytes, 0, run.start as int, in_bytes) =~= start + escapes_at(
        source@,
        run,
        in_bytes,
    ));
    while index < chars.len()
        invariant
            index <= chars@.len(),
            bytes == chars@,
            valid_utf8(bytes),
            bytes.len() == run.end - run.start,
            run.start <= run.end,
            found@ + escapes_from(bytes, index as int, run.start as int, in_bytes) == start
                + escapes_at(source@, run, in_bytes),
        decreases chars@.len() - index,
    {
        if chars[index] != 0x5c || chars.len() - index <= 1 {
            index += 1;
            continue;
        }
        let ghost rest = bytes.skip(index + 1);
        let ghost before = found@;
        proof {
            lemma_escape_length(bytes, index as int, in_bytes);
        }
        let next = chars[index + 1];
        assert(next == rest[0]);
        let after_next: u8 = if chars.len() - index > 2 {
            chars[index + 2]
        } else {
            0
        };
        assert(rest.len() > 1 ==> after_next == rest[1]);
        let length: usize = if next == 0x78 {
            hex_length(chars, index, 2)
        } else if next == 0x75 && !in_bytes {
            hex_length(chars, index, 4)
        } else if next == 0x55 && !in_bytes {
            hex_length(chars, index, 8)
        } else if next == 0x4e && !in_bytes && after_next == 0x7b {
            brace_length(chars, index)
        } else if 0x30 <= next && next <= 0x37 {
            octal_length(chars, index)
        } else if next == 0x0d && after_next == 0x0a {
            3
        } else if next <= 0x7f {
            2
        } else if next <= 0xdf {
            3
        } else if next <= 0xef {
            4
        } else {
            5
        };
        assert(length == escape_length(rest, in_bytes));
        let at: u32 = run.start + index as u32;
        let escape = TextRange { start: at, end: at + length as u32 };
        found.push(escape);
        assert(found@ + escapes_from(bytes, index + length, run.start as int, in_bytes) =~= before
            + escapes_from(bytes, index as int, run.start as int, in_bytes));
        index += length;
    }
    assert(found@ =~= start + escapes_at(source@, run, in_bytes));
}

/// The literal text among the first `upto` elements of `node`, a format spec's included: that is
/// where its escapes are.
pub open spec fn literal_runs(node: Node, upto: int) -> Seq<TextRange>
    decreases height(node), upto,
{
    if !(0 < upto <= node.children@.len()) {
        Seq::empty()
    } else {
        let element = node.children@[upto - 1];
        let spec = child_of(element, Field::FormatSpec);
        proof {
            lemma_height_child(node, upto - 1);
            lemma_height_child_of(element, Field::FormatSpec);
        }
        let runs = if element.kind is InterpolatedLiteral {
            seq![element.range]
        } else if element.kind is Interpolation && spec is Some {
            literal_runs(spec->0, spec->0.children@.len() as int)
        } else {
            Seq::empty()
        };
        literal_runs(node, upto - 1) + runs
    }
}

/// The interpolations among `elements`, in order.
pub open spec fn interpolation_ranges(elements: Seq<Node>) -> Seq<TextRange>
    decreases elements.len(),
{
    if elements.len() == 0 {
        Seq::empty()
    } else if elements.last().kind is Interpolation {
        interpolation_ranges(elements.drop_last()).push(elements.last().range)
    } else {
        interpolation_ranges(elements.drop_last())
    }
}

fn collect_runs(node: &Node, runs: &mut Vec<TextRange>)
    ensures
        final(runs)@ == old(runs)@ + literal_runs(*node, node.children@.len() as int),
    decreases height(*node),
{
    let ghost start = runs@;
    let mut i: usize = 0;
    assert(runs@ =~= start + literal_runs(*node, 0));
    while i < node.children.len()
        invariant
            i <= node.children.len(),
            runs@ == start + literal_runs(*node, i as int),
        decreases node.children.len() - i,
    {
        let ghost before = runs@;
        let element = &node.children[i];
        proof {
            lemma_height_child(*node, i as int);
            lemma_height_child_of(*element, Field::FormatSpec);
        }
        if matches!(element.kind, NodeKind::InterpolatedLiteral) {
            runs.push(element.range);
        } else if matches!(element.kind, NodeKind::Interpolation) {
            if let Some(spec) = element.child(Field::FormatSpec) {
                collect_runs(spec, runs);
            }
        }
        assert(runs@ =~= start + literal_runs(*node, i + 1));
        i += 1;
    }
}

fn collect_interpolations(elements: &Vec<Node>) -> (found: Vec<TextRange>)
    ensures
        found@ == interpolation_ranges(elements@),
{
    let mut found: Vec<TextRange> = Vec::new();
    let mut i: usize = 0;
    assert(found@ =~= interpolation_ranges(elements@.take(0)));
    while i < elements.len()
        invariant
            i <= elements.len(),
            found@ == interpolation_ranges(elements@.take(i as int)),
        decreases elements.len() - i,
    {
        assert(elements@.take(i + 1).drop_last() =~= elements@.take(i as int));
        assert(elements@.take(i + 1).last() == elements@[i as int]);
        if matches!(elements[i].kind, NodeKind::Interpolation) {
            found.push(elements[i].range);
        }
        i += 1;
    }
    assert(elements@.take(i as int) =~= elements@);
    found
}

/// The part `expr` consists of, when it is a string expression of a lone part — the only shape
/// that is dedented.
pub open spec fn lone_part(expr: Node) -> Option<TextRange> {
    let lone = match expr.kind {
        NodeKind::ExprStringLiteral { implicit_concatenated } => !implicit_concatenated,
        NodeKind::ExprFString { implicit_concatenated } => !implicit_concatenated,
        NodeKind::ExprTString { implicit_concatenated } => !implicit_concatenated,
        _ => false,
    };
    match child_of(expr, Field::Part) {
        Some(part) => if lone {
            Some(part.range)
        } else {
            None
        },
        None => None,
    }
}

/// How much of the part at `range` is dedented, where its delimiters are `flags` and the lone
/// part of the expression around it is `dedentable`.
pub open spec fn stripped(
    dedents: bool,
    dedentable: Option<TextRange>,
    range: TextRange,
    flags: StringFlags,
    dedent: Option<u32>,
) -> Option<u32> {
    if dedents && dedentable == Some(range) && flags.triple_quoted && !flags.unclosed
        && !flags.bytes {
        dedent
    } else {
        None
    }
}

/// A string literal part, as the outline has it.
pub open spec fn outlined_string(
    text: Seq<char>,
    range: TextRange,
    flags: StringFlags,
    stripped_indent: Option<u32>,
    interpolations: Seq<TextRange>,
    runs: Seq<TextRange>,
) -> OutlineStringModel {
    OutlineStringModel {
        range,
        stripped_indent,
        interpolations,
        escapes: if flags.raw {
            Seq::empty()
        } else {
            escapes_in_all(text, runs, flags.bytes)
        },
    }
}

/// The string `node` itself is, when it is a literal part.
pub open spec fn own_string(
    text: Seq<char>,
    dedents: bool,
    dedentable: Option<TextRange>,
    node: Node,
) -> Option<OutlineStringModel> {
    match node.kind {
        NodeKind::StringPart { flags, content, dedent } => Some(
            outlined_string(
                text,
                node.range,
                flags,
                stripped(dedents, dedentable, node.range, flags, dedent),
                Seq::empty(),
                seq![content],
            ),
        ),
        NodeKind::BytesPart { flags, content } => Some(
            outlined_string(
                text,
                node.range,
                flags,
                stripped(dedents, dedentable, node.range, flags, None),
                Seq::empty(),
                seq![content],
            ),
        ),
        NodeKind::FStringPart { flags, dedent } => Some(
            outlined_string(
                text,
                node.range,
                flags,
                stripped(dedents, dedentable, node.range, flags, dedent),
                interpolation_ranges(node.children@),
                literal_runs(node, node.children@.len() as int),
            ),
        ),
        NodeKind::TStringPart { flags, dedent } => Some(
            outlined_string(
                text,
                node.range,
                flags,
                stripped(dedents, dedentable, node.range, flags, dedent),
                interpolation_ranges(node.children@),
                literal_runs(node, node.children@.len() as int),
            ),
        ),
        _ => None,
    }
}

/// What of the expression around `node` may be dedented, for what is under `node`.
pub open spec fn dedentable_under(node: Node, dedentable: Option<TextRange>) -> Option<TextRange> {
    if node.kind.spec_is_expression() {
        lone_part(node)
    } else if node.kind is FStringPart || node.kind is TStringPart {
        // inside an interpolation is an expression, which may hold strings of its own
        None
    } else {
        dedentable
    }
}

/// Every string literal part in `node`, in source order.
pub open spec fn strings_in(
    text: Seq<char>,
    dedents: bool,
    dedentable: Option<TextRange>,
    node: Node,
) -> Seq<OutlineStringModel>
    decreases node, 1int,
{
    let own = match own_string(text, dedents, dedentable, node) {
        Some(string) => seq![string],
        None => Seq::empty(),
    };
    own + strings_in_all(text, dedents, dedentable_under(node, dedentable), node.children@)
}

/// Every string literal part in `nodes`, in source order.
pub open spec fn strings_in_all(
    text: Seq<char>,
    dedents: bool,
    dedentable: Option<TextRange>,
    nodes: Seq<Node>,
) -> Seq<OutlineStringModel>
    decreases nodes, 0int,
{
    if nodes.len() == 0 {
        Seq::empty()
    } else {
        strings_in_all(text, dedents, dedentable, nodes.drop_last()) + strings_in(
            text,
            dedents,
            dedentable,
            nodes.last(),
        )
    }
}

fn lone(expr: &Node) -> (range: Option<TextRange>)
    ensures
        range == lone_part(*expr),
{
    let lone = match &expr.kind {
        NodeKind::ExprStringLiteral { implicit_concatenated } => !*implicit_concatenated,
        NodeKind::ExprFString { implicit_concatenated } => !*implicit_concatenated,
        NodeKind::ExprTString { implicit_concatenated } => !*implicit_concatenated,
        _ => false,
    };
    match expr.child(Field::Part) {
        Some(part) => if lone {
            Some(part.range)
        } else {
            None
        },
        None => None,
    }
}

/// Collects every string literal part, with what is inside it.
pub struct StringCollector<'a> {
    pub source: &'a str,
    /// Whether this file's triple-quoted strings are dedented, which is basedpython's rule and not
    /// python's.
    pub dedents: bool,
}

impl<'a> StringCollector<'a> {
    fn outlined(
        &self,
        range: TextRange,
        flags: StringFlags,
        stripped_indent: Option<u32>,
        interpolations: Vec<TextRange>,
        runs: &Vec<TextRange>,
    ) -> (string: OutlineString)
        requires
            is_source(self.source@),
        ensures
            string@ == outlined_string(
                self.source@,
                range,
                flags,
                stripped_indent,
                interpolations@,
                runs@,
            ),
    {
        let mut escapes: Vec<TextRange> = Vec::new();
        if !flags.raw {
            let mut i: usize = 0;
            assert(escapes@ =~= escapes_in_all(self.source@, runs@.take(0), flags.bytes));
            while i < runs.len()
                invariant
                    i <= runs.len(),
                    is_source(self.source@),
                    escapes@ == escapes_in_all(self.source@, runs@.take(i as int), flags.bytes),
                decreases runs.len() - i,
            {
                assert(runs@.take(i + 1).drop_last() =~= runs@.take(i as int));
                assert(runs@.take(i + 1).last() == runs@[i as int]);
                escapes_in(self.source, runs[i], flags.bytes, &mut escapes);
                i += 1;
            }
            assert(runs@.take(i as int) =~= runs@);
        }
        OutlineString { range, stripped_indent, interpolations, escapes }
    }

    fn stripped(
        &self,
        dedentable: Option<TextRange>,
        range: TextRange,
        flags: StringFlags,
        dedent: Option<u32>,
    ) -> (indent: Option<u32>)
        ensures
            indent == stripped(self.dedents, dedentable, range, flags, dedent),
    {
        let is_lone = match dedentable {
            Some(lone) => lone == range,
            None => false,
        };
        if self.dedents && is_lone && flags.triple_quoted && !flags.unclosed && !flags.bytes {
            dedent
        } else {
            None
        }
    }

    fn own(&self, dedentable: Option<TextRange>, node: &Node) -> (string: Option<OutlineString>)
        requires
            is_source(self.source@),
        ensures
            match string {
                Some(string) => own_string(self.source@, self.dedents, dedentable, *node) == Some(
                    string@,
                ),
                None => own_string(self.source@, self.dedents, dedentable, *node) is None,
            },
    {
        match &node.kind {
            NodeKind::StringPart { flags, content, dedent } => {
                let mut runs: Vec<TextRange> = Vec::new();
                runs.push(*content);
                assert(runs@ =~= seq![*content]);
                let indent = self.stripped(dedentable, node.range, *flags, *dedent);
                let none: Vec<TextRange> = Vec::new();
                assert(none@ =~= Seq::empty());
                Some(self.outlined(node.range, *flags, indent, none, &runs))
            },
            NodeKind::BytesPart { flags, content } => {
                let mut runs: Vec<TextRange> = Vec::new();
                runs.push(*content);
                assert(runs@ =~= seq![*content]);
                let indent = self.stripped(dedentable, node.range, *flags, None);
                let none: Vec<TextRange> = Vec::new();
                assert(none@ =~= Seq::empty());
                Some(self.outlined(node.range, *flags, indent, none, &runs))
            },
            NodeKind::FStringPart { flags, dedent } | NodeKind::TStringPart { flags, dedent } => {
                let mut runs: Vec<TextRange> = Vec::new();
                collect_runs(node, &mut runs);
                assert(runs@ =~= literal_runs(*node, node.children@.len() as int));
                let indent = self.stripped(dedentable, node.range, *flags, *dedent);
                let interpolations = collect_interpolations(&node.children);
                Some(self.outlined(node.range, *flags, indent, interpolations, &runs))
            },
            _ => None,
        }
    }

    fn visit(&self, dedentable: Option<TextRange>, node: &Node) -> (strings: Vec<OutlineString>)
        requires
            is_source(self.source@),
        ensures
            string_models(strings@) == strings_in(self.source@, self.dedents, dedentable, *node),
        decreases node, 1int,
    {
        let mut strings: Vec<OutlineString> = Vec::new();
        assert(string_models(strings@) =~= Seq::empty());
        if let Some(string) = self.own(dedentable, node) {
            strings.push(string);
            assert(string_models(strings@) =~= seq![string@]);
        }
        let under = if node.kind.is_expression() {
            lone(node)
        } else if matches!(node.kind, NodeKind::FStringPart { .. }) || matches!(
            node.kind,
            NodeKind::TStringPart { .. }
        ) {
            None
        } else {
            dedentable
        };
        let ghost own = strings@;
        let mut nested = self.visit_all(under, &node.children);
        let ghost inner = nested@;
        strings.append(&mut nested);
        assert(string_models(strings@) =~= string_models(own) + string_models(inner));
        strings
    }

    /// Every string literal part in `nodes`, in source order.
    pub fn visit_all(&self, dedentable: Option<TextRange>, nodes: &Vec<Node>) -> (strings: Vec<
        OutlineString,
    >)
        requires
            is_source(self.source@),
        ensures
            string_models(strings@) == strings_in_all(
                self.source@,
                self.dedents,
                dedentable,
                nodes@,
            ),
        decreases nodes@, 0int,
    {
        let mut strings: Vec<OutlineString> = Vec::new();
        let mut i: usize = 0;
        assert(string_models(strings@) =~= strings_in_all(
            self.source@,
            self.dedents,
            dedentable,
            nodes@.take(0),
        ));
        while i < nodes.len()
            invariant
                i <= nodes.len(),
                is_source(self.source@),
                string_models(strings@) == strings_in_all(
                    self.source@,
                    self.dedents,
                    dedentable,
                    nodes@.take(i as int),
                ),
            decreases nodes.len() - i,
        {
            assert(nodes@.take(i + 1).drop_last() =~= nodes@.take(i as int));
            assert(nodes@.take(i + 1).last() == nodes@[i as int]);
            let ghost before = strings@;
            let mut more = self.visit(dedentable, &nodes[i]);
            let ghost added = more@;
            strings.append(&mut more);
            assert(string_models(strings@) =~= string_models(before) + string_models(added));
            i += 1;
        }
        assert(nodes@.take(i as int) =~= nodes@);
        strings
    }
}

/// Escapes come one after the other: each ends before the next starts, and none is empty.
pub proof fn law_escapes_in_order(
    bytes: Seq<u8>,
    index: int,
    start: int,
    in_bytes: bool,
    i: int,
)
    requires
        valid_utf8(bytes),
        0 <= index <= bytes.len(),
        0 <= start,
        start + bytes.len() <= u32::MAX,
        0 <= i < escapes_from(bytes, index, start, in_bytes).len(),
    ensures
        ({
            let escapes = escapes_from(bytes, index, start, in_bytes);
            &&& start + index <= escapes[i].start
            &&& escapes[i].start + 2 <= escapes[i].end
            &&& escapes[i].end <= start + bytes.len()
            &&& i > 0 ==> escapes[i - 1].end <= escapes[i].start
        }),
    decreases bytes.len() - index,
{
    if index < bytes.len() {
        if bytes[index] != 0x5c || index + 1 >= bytes.len() {
            law_escapes_in_order(bytes, index + 1, start, in_bytes, i);
        } else {
            lemma_escape_length(bytes, index, in_bytes);
            let length = escape_length(bytes.skip(index + 1), in_bytes);
            let rest = escapes_from(bytes, index + length, start, in_bytes);
            let all = escapes_from(bytes, index, start, in_bytes);
            if i > 0 {
                law_escapes_in_order(bytes, index + length, start, in_bytes, i - 1);
                assert(all[i] == rest[i - 1]);
                if i > 1 {
                    assert(all[i - 1] == rest[i - 2]);
                }
            }
        }
    }
}

proof fn lemma_escape_starts(bytes: Seq<u8>, index: int, start: int, in_bytes: bool, i: int)
    requires
        valid_utf8(bytes),
        0 <= index <= bytes.len(),
        0 <= start,
        start + bytes.len() <= u32::MAX,
        0 <= i < escapes_from(bytes, index, start, in_bytes).len(),
    ensures
        ({
            let escape = escapes_from(bytes, index, start, in_bytes)[i];
            let at = escape.start - start;
            &&& index <= at < bytes.len() - 1
            &&& bytes[at] == 0x5c
            &&& escape.end - escape.start == escape_length(bytes.skip(at + 1), in_bytes)
        }),
    decreases bytes.len() - index,
{
    if index < bytes.len() {
        if bytes[index] != 0x5c || index + 1 >= bytes.len() {
            lemma_escape_starts(bytes, index + 1, start, in_bytes, i);
        } else {
            lemma_escape_length(bytes, index, in_bytes);
            let length = escape_length(bytes.skip(index + 1), in_bytes);
            let rest = escapes_from(bytes, index + length, start, in_bytes);
            if i > 0 {
                lemma_escape_starts(bytes, index + length, start, in_bytes, i - 1);
                assert(escapes_from(bytes, index, start, in_bytes)[i] == rest[i - 1]);
            }
        }
    }
}

/// Whether one of `escapes` covers `at`.
pub open spec fn is_covered(escapes: Seq<TextRange>, at: int) -> bool {
    exists|k: int|
        0 <= k < escapes.len() && (#[trigger] escapes[k]).start <= at && at < escapes[k].end
}

proof fn lemma_backslash_covered(bytes: Seq<u8>, index: int, start: int, in_bytes: bool, at: int)
    requires
        valid_utf8(bytes),
        0 <= index <= at < bytes.len() - 1,
        0 <= start,
        start + bytes.len() <= u32::MAX,
        bytes[at] == 0x5c,
    ensures
        is_covered(escapes_from(bytes, index, start, in_bytes), start + at),
    decreases bytes.len() - index,
{
    let all = escapes_from(bytes, index, start, in_bytes);
    if bytes[index] != 0x5c {
        lemma_backslash_covered(bytes, index + 1, start, in_bytes, at);
    } else {
        lemma_escape_length(bytes, index, in_bytes);
        let length = escape_length(bytes.skip(index + 1), in_bytes);
        let rest = escapes_from(bytes, index + length, start, in_bytes);
        if at < index + length {
            assert(all[0].start <= start + at < all[0].end);
        } else {
            lemma_backslash_covered(bytes, index + length, start, in_bytes, at);
            let k = choose|k: int|
                0 <= k < rest.len() && (#[trigger] rest[k]).start <= start + at && start + at
                    < rest[k].end;
            assert(all[k + 1] == rest[k]);
        }
    }
}

/// The escapes of a run of literal text are what its backslashes start: each escape lies in the
/// run, starts at a backslash and takes more than that, they are in order and apart, and every
/// backslash is part of one but for a last one with nothing after it. What is no stretch of the
/// text has none.
pub proof fn law_escapes_are_what_backslashes_start(
    text: Seq<char>,
    run: TextRange,
    in_bytes: bool,
)
    ensures
        ({
            let escapes = escapes_at(text, run, in_bytes);
            &&& forall|i: int|
                0 <= i < escapes.len() ==> {
                    &&& run.start <= (#[trigger] escapes[i]).start
                    &&& escapes[i].start + 2 <= escapes[i].end <= run.end
                    &&& bytes_of(text)[escapes[i].start as int] == 0x5c
                }
            &&& forall|i: int, j: int|
                0 <= i < j < escapes.len() ==> (#[trigger] escapes[i]).end <= (
                #[trigger] escapes[j]).start
            &&& is_cut(text, run) ==> forall|at: int|
                run.start <= at < run.end - 1 && #[trigger] bytes_of(text)[at] == 0x5c
                    ==> is_covered(escapes, at)
            &&& !is_cut(text, run) ==> escapes.len() == 0
        }),
{
    if is_cut(text, run) {
        let escapes = escapes_at(text, run, in_bytes);
        let bytes = bytes_of(text_of(text, run));
        let start = run.start as int;
        lemma_text_of(text, run);
        encode_utf8_valid_utf8(text_of(text, run));
        assert forall|i: int| 0 <= i < escapes.len() implies {
            &&& run.start <= (#[trigger] escapes[i]).start
            &&& escapes[i].start + 2 <= escapes[i].end <= run.end
            &&& bytes_of(text)[escapes[i].start as int] == 0x5c
        } by {
            law_escapes_in_order(bytes, 0, start, in_bytes, i);
            lemma_escape_starts(bytes, 0, start, in_bytes, i);
        }
        assert forall|i: int, j: int| 0 <= i < j < escapes.len() implies (
        #[trigger] escapes[i]).end <= (#[trigger] escapes[j]).start by {
            lemma_escapes_apart(bytes, start, in_bytes, i, j);
        }
        assert forall|at: int|
            run.start <= at < run.end - 1 && #[trigger] bytes_of(text)[at]
                == 0x5c implies is_covered(escapes, at) by {
            assert(bytes[at - start] == bytes_of(text)[at]);
            lemma_backslash_covered(bytes, 0, start, in_bytes, at - start);
        }
    }
}

proof fn lemma_escapes_apart(bytes: Seq<u8>, start: int, in_bytes: bool, i: int, j: int)
    requires
        valid_utf8(bytes),
        0 <= start,
        start + bytes.len() <= u32::MAX,
        0 <= i < j < escapes_from(bytes, 0, start, in_bytes).len(),
    ensures
        escapes_from(bytes, 0, start, in_bytes)[i].end <= escapes_from(
            bytes,
            0,
            start,
            in_bytes,
        )[j].start,
    decreases j,
{
    law_escapes_in_order(bytes, 0, start, in_bytes, j);
    if i < j - 1 {
        law_escapes_in_order(bytes, 0, start, in_bytes, j - 1);
        lemma_escapes_apart(bytes, start, in_bytes, i, j - 1);
    }
}

/// An escape takes the hex digits it asks for, or only the letter that asks for them.
pub proof fn law_hex_escapes(rest: Seq<u8>, in_bytes: bool)
    requires
        rest.len() > 0,
    ensures
        rest[0] == 0x78 ==> escape_length(rest, in_bytes) == hex_escape(rest, 2),
        rest[0] == 0x75 && !in_bytes ==> escape_length(rest, in_bytes) == hex_escape(rest, 4),
        rest[0] == 0x55 && !in_bytes ==> escape_length(rest, in_bytes) == hex_escape(rest, 8),
        (rest[0] == 0x75 || rest[0] == 0x55) && in_bytes ==> escape_length(rest, in_bytes) == 2,
{
}

/// What a literal part of a string is marked with, when `node` is one.
pub open spec fn flags_of(node: Node) -> Option<StringFlags> {
    match node.kind {
        NodeKind::StringPart { flags, .. } => Some(flags),
        NodeKind::BytesPart { flags, .. } => Some(flags),
        NodeKind::FStringPart { flags, .. } => Some(flags),
        NodeKind::TStringPart { flags, .. } => Some(flags),
        _ => None,
    }
}

proof fn lemma_strings_among(
    text: Seq<char>,
    dedents: bool,
    dedentable: Option<TextRange>,
    nodes: Seq<Node>,
    i: int,
    string: OutlineStringModel,
)
    requires
        0 <= i < nodes.len(),
        strings_in(text, dedents, dedentable, nodes[i]).contains(string),
    ensures
        strings_in_all(text, dedents, dedentable, nodes).contains(string),
    decreases nodes.len(),
{
    let all = strings_in_all(text, dedents, dedentable, nodes);
    let before = strings_in_all(text, dedents, dedentable, nodes.drop_last());
    if i < nodes.len() - 1 {
        assert(nodes.drop_last()[i] == nodes[i]);
        lemma_strings_among(text, dedents, dedentable, nodes.drop_last(), i, string);
        let k = before.index_of(string);
        assert(all[k] == string);
    } else {
        let last = strings_in(text, dedents, dedentable, nodes.last());
        let k = last.index_of(string);
        assert(all[before.len() + k] == string);
    }
}

/// Every literal part of a string in a file is outlined, however deep it is: where it is, without
/// escapes when it is raw, and stripped of its indentation exactly when strings are, it is the
/// only part of its string, between three quotes that are closed, and not of bytes.
pub proof fn law_every_string_is_outlined(
    text: Seq<char>,
    dedents: bool,
    dedentable: Option<TextRange>,
    path: Seq<Node>,
    flags: StringFlags,
) -> (string: OutlineStringModel)
    requires
        is_path(path),
        flags_of(path.last()) == Some(flags),
    ensures
        strings_in(text, dedents, dedentable, path[0]).contains(string),
        string.range == path.last().range,
        flags.raw ==> string.escapes.len() == 0,
        !dedents || !flags.triple_quoted || flags.unclosed || flags.bytes || path.last().kind
            is BytesPart ==> string.stripped_indent is None,
        path.len() > 1 && path[path.len() - 2].kind.spec_is_expression() ==> ({
            let expr = path[path.len() - 2];
            let is_lone = match expr.kind {
                NodeKind::ExprStringLiteral { implicit_concatenated } => !implicit_concatenated,
                NodeKind::ExprFString { implicit_concatenated } => !implicit_concatenated,
                NodeKind::ExprTString { implicit_concatenated } => !implicit_concatenated,
                _ => false,
            };
            let dedent = match path.last().kind {
                NodeKind::StringPart { dedent, .. } => dedent,
                NodeKind::FStringPart { dedent, .. } => dedent,
                NodeKind::TStringPart { dedent, .. } => dedent,
                _ => None,
            };
            &&& !is_lone ==> string.stripped_indent is None
            &&& is_lone && child_of(expr, Field::Part) == Some(path.last()) && dedents
                && flags.triple_quoted && !flags.unclosed && !flags.bytes
                ==> string.stripped_indent == dedent
        }),
    decreases path.len(),
{
    let node = path[0];
    let all = strings_in(text, dedents, dedentable, node);
    let own = own_string(text, dedents, dedentable, node);
    if path.len() > 1 {
        lemma_path_rest(path);
        let rest = path.skip(1);
        let under = dedentable_under(node, dedentable);
        let string = law_every_string_is_outlined(text, dedents, under, rest, flags);
        let i = node.children@.index_of(path[1]);
        lemma_strings_among(text, dedents, under, node.children@, i, string);
        let below = strings_in_all(text, dedents, under, node.children@);
        let k = below.index_of(string);
        let first = all.len() - below.len();
        assert(all[first + k] == string);
        if path.len() > 2 {
            assert(rest[rest.len() - 2] == path[path.len() - 2]);
            string
        } else {
            let exact = own_string(text, dedents, under, path[1])->0;
            assert(strings_in(text, dedents, under, path[1])[0] == exact);
            lemma_strings_among(text, dedents, under, node.children@, i, exact);
            let at = below.index_of(exact);
            assert(all[first + at] == exact);
            exact
        }
    } else {
        assert(all[0] == own->0);
        own->0
    }
}

/// Every interpolation of a string is listed, where it is.
pub proof fn law_every_interpolation_is_listed(elements: Seq<Node>, i: int)
    requires
        0 <= i < elements.len(),
        elements[i].kind is Interpolation,
    ensures
        interpolation_ranges(elements).contains(elements[i].range),
    decreases elements.len(),
{
    let all = interpolation_ranges(elements);
    if i < elements.len() - 1 {
        assert(elements.drop_last()[i] == elements[i]);
        law_every_interpolation_is_listed(elements.drop_last(), i);
        let before = interpolation_ranges(elements.drop_last());
        let k = before.index_of(elements[i].range);
        assert(all[k] == elements[i].range);
    } else {
        assert(all[all.len() - 1] == elements[i].range);
    }
}

/// The text of a string with values in it is looked through for escapes all over: what is between
/// its values, and what is in the format of each, however deep those are.
pub proof fn law_all_text_is_looked_through(node: Node, upto: int, i: int)
    requires
        0 <= i < upto <= node.children@.len(),
    ensures
        node.children@[i].kind is InterpolatedLiteral ==> literal_runs(node, upto).contains(
            node.children@[i].range,
        ),
        node.children@[i].kind is Interpolation ==> (child_of(
            node.children@[i],
            Field::FormatSpec,
        ) matches Some(spec) ==> forall|run: TextRange|
            literal_runs(spec, spec.children@.len() as int).contains(run)
                ==> #[trigger] literal_runs(node, upto).contains(run)),
    decreases upto,
{
    let element = node.children@[i];
    let before = literal_runs(node, upto - 1);
    let all = literal_runs(node, upto);
    if i < upto - 1 {
        law_all_text_is_looked_through(node, upto - 1, i);
        assert forall|run: TextRange| before.contains(run) implies #[trigger] all.contains(run) by {
            let k = before.index_of(run);
            assert(all[k] == run);
        }
    } else {
        lemma_height_child(node, i);
        lemma_height_child_of(element, Field::FormatSpec);
        if element.kind is InterpolatedLiteral {
            assert(all[before.len() as int] == element.range);
        }
        if let Some(spec) = child_of(element, Field::FormatSpec) {
            let inner = literal_runs(spec, spec.children@.len() as int);
            if element.kind is Interpolation {
                assert forall|run: TextRange| inner.contains(run) implies #[trigger] all.contains(
                    run,
                ) by {
                    let k = inner.index_of(run);
                    assert(all[before.len() + k] == run);
                }
            }
        }
    }
}

} // verus!
