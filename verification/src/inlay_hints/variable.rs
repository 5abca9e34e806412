//! The type of a variable, shown where its annotation would be written, with the edits that
//! write it.

use super::facts::{
    ImportAction, ImportActionModel, ImportAnswer, LabelSpan, NamedType, ScopeMember, TypeDetail,
    TypeLabel, VariableType,
};
use super::imports::{action_in, import_at, DynamicImports, Symbol};
use super::matching::{call_matches_name, calls_name};
use super::{
    part_models, parts_text, plain_part, push_part, push_text, text_edit_models, InlayHint, InlayHintKind,
    InlayHintLabel, InlayHintLabelPart, InlayHintModel, InlayHintTextEdit, PartModel,
    TextEditModel,
};
use crate::edit::{text_in, File};
use crate::node::Node;
use crate::source::{
    bytes_of, get, get_from, is_cut, is_offset, lemma_bytes_concat, lemma_text_of, slice, text_from,
    text_of,
};
use crate::strings::{join2, owned, same_text};
use crate::text_size::TextRange;
use vstd::prelude::*;
use vstd::string::{StrSliceExecFns, StringExecFns};
use vstd::utf8::{
    decode_utf8_encode_utf8, encode_utf8_decode_utf8, encode_utf8_valid_utf8,
    is_char_boundary_start_end_of_seq, valid_utf8_split,
};

verus! {

/// If the import action requires qualifying the symbol (e.g. `import foo` instead of
/// `from foo import A`), the qualified symbol text. An import that brings the symbol in by its own
/// name does not.
pub open spec fn qualified_text(action: ImportActionModel) -> Option<Seq<char>> {
    if action.import is Some && !action.symbol_text.contains('.') {
        None
    } else {
        Some(action.symbol_text)
    }
}

pub open spec fn str_in(text: Option<&str>) -> Option<Seq<char>> {
    match text {
        Some(text) => Some(text@),
        None => None,
    }
}

/// If the import action requires qualifying the symbol (e.g. `import foo` instead of
/// `from foo import A`), returns the qualified symbol text. Otherwise returns `None`.
pub fn qualified_symbol_text(import_action: &ImportAction) -> (text: Option<&str>)
    ensures
        str_in(text) == qualified_text(import_action@),
{
    if import_action.import.is_some() && !has_dot(import_action.symbol_text.as_str()) {
        return None;
    }
    Some(import_action.symbol_text.as_str())
}

/// The first of `members` named `name`.
pub open spec fn member_named(members: Seq<ScopeMember>, name: Seq<char>) -> Option<ScopeMember>
    decreases members.len(),
{
    if members.len() == 0 {
        None
    } else if members[0].name@ == name {
        Some(members[0])
    } else {
        member_named(members.skip(1), name)
    }
}

/// The first of `answers` to a request for `symbol`.
pub open spec fn answer_to(answers: Seq<ImportAnswer>, symbol: Symbol, qualified: bool) -> Option<
    ImportActionModel,
>
    decreases answers.len(),
{
    if answers.len() == 0 {
        None
    } else if answers[0].module@ == symbol.0 && answers[0].symbol@ == symbol.1
        && answers[0].qualified == qualified {
        Some(answers[0].action@)
    } else {
        answer_to(answers.skip(1), symbol, qualified)
    }
}

/// The imports there are, and those of them that were made for one hint.
pub ghost struct Importing {
    pub imports: Map<Symbol, ImportActionModel>,
    pub imported: Seq<Symbol>,
}

/// What comes of asking for a symbol: how it has to be spelled, when not by its name, and the
/// imports after that.
pub ghost struct Asked {
    pub spelling: Option<Seq<char>>,
    pub after: Importing,
}

/// Importing `symbol`, whose type is defined by `definition`, into the scope of `variable`, where
/// the type is rendered as `label`.
pub open spec fn asked_for(
    variable: VariableType,
    definition: u32,
    symbol: Symbol,
    label: Seq<char>,
    sofar: Importing,
) -> Asked {
    let member = member_named(variable.members@, symbol.1);
    if member matches Some(member) && member.definition == Some(definition) {
        Asked { spelling: None, after: sofar }
    } else {
        match import_at(sofar.imports, symbol) {
            Some(action) => Asked { spelling: qualified_text(action), after: sofar },
            // a label like `foo.A` is qualified; and where there is another member in scope with
            // the same name it has to be, so that it does not refer to that
            None => match answer_to(
                variable.imports@,
                symbol,
                label.contains('.') || member is Some,
            ) {
                Some(action) => Asked {
                    spelling: qualified_text(action),
                    after: Importing {
                        imports: sofar.imports.insert(symbol, action),
                        imported: sofar.imported.push(symbol),
                    },
                },
                None => Asked { spelling: None, after: sofar },
            },
        }
    }
}

/// What a label is made up of so far.
pub ghost struct Labelling {
    /// How far into the rendered type it is.
    pub offset: int,
    pub parts: Seq<PartModel>,
    /// What an edit would write, which qualifies some imported symbols: `A` could turn into
    /// `foo.A`.
    pub written: Seq<char>,
    pub allow_edits: bool,
    pub importing: Importing,
}

/// What comes of `named`, which is rendered as `label`, in an edit of `file`.
pub open spec fn spelled(
    file: File,
    variable: VariableType,
    named: NamedType,
    label: Seq<char>,
    sofar: Importing,
) -> Asked {
    let unchanged = Asked { spelling: None, after: sofar };
    match named.definition {
        None => unchanged,
        // don't try to import symbols in scope, and only module-level names can be imported
        Some(definition) => if !definition.is_global || definition.file == file {
            unchanged
        } else {
            match definition.module {
                None => unchanged,
                Some(module) => if module.is_builtins || named.is_none {
                    unchanged
                } else {
                    asked_for(
                        variable,
                        definition.id,
                        (
                            module.name@,
                            // fall back to the label if there is no name
                            match definition.name {
                                Some(name) => name@,
                                None => label,
                            },
                        ),
                        label,
                        sofar,
                    )
                },
            }
        },
    }
}

/// Whether an edit could write `named`: if it is defined in a class or function body there is
/// no safe edit.
pub open spec fn is_importable(named: NamedType) -> bool {
    named.definition matches Some(definition) ==> definition.is_global
}

/// The label after one more of the types that make it up. A type is given the text it renders
/// as unless a type before it was given some of that.
pub open spec fn with_span(
    file: File,
    variable: VariableType,
    label: Seq<char>,
    span: LabelSpan,
    sofar: Labelling,
) -> Labelling {
    match span.detail {
        TypeDetail::Type(named) => if is_cut(label, span.range) && span.range.start
            >= sofar.offset {
            let gap = text_of(
                label,
                TextRange { start: sofar.offset as u32, end: span.range.start },
            );
            let text = text_of(label, span.range);
            let asked = spelled(file, variable, named, text, sofar.importing);
            let spaced = if span.range.start > sofar.offset {
                sofar.parts.push(plain_part(gap))
            } else {
                sofar.parts
            };
            Labelling {
                offset: span.range.end as int,
                parts: spaced.push(PartModel { text, target: named.target }),
                written: sofar.written + gap + match asked.spelling {
                    Some(spelling) => spelling,
                    None => text,
                },
                allow_edits: sofar.allow_edits && is_importable(named),
                importing: asked.after,
            }
        } else {
            sofar
        },
        _ => sofar,
    }
}

pub open spec fn with_spans(
    file: File,
    variable: VariableType,
    label: Seq<char>,
    spans: Seq<LabelSpan>,
    sofar: Labelling,
) -> Labelling
    decreases spans.len(),
{
    if spans.len() == 0 {
        sofar
    } else {
        with_span(
            file,
            variable,
            label,
            spans.last(),
            with_spans(file, variable, label, spans.drop_last(), sofar),
        )
    }
}

/// The edits that make the imports `imported`.
pub open spec fn import_edits(
    imports: Map<Symbol, ImportActionModel>,
    imported: Seq<Symbol>,
) -> Seq<TextEditModel>
    decreases imported.len(),
{
    if imported.len() == 0 {
        Seq::empty()
    } else {
        let before = import_edits(imports, imported.drop_last());
        match import_at(imports, imported.last()) {
            Some(action) => match action.import {
                Some(edit) => match edit.content {
                    Some(content) => before.push(
                        TextEditModel { range: edit.range, new_text: content },
                    ),
                    None => before,
                },
                None => before,
            },
            None => before,
        }
    }
}

/// What comes of hinting a variable: the hint, when there is one, and the imports after that.
pub ghost struct Hinted {
    pub hint: Option<InlayHintModel>,
    pub imports: Map<Symbol, ImportActionModel>,
}

/// The label of a variable's type, whole.
pub open spec fn labelled(
    file: File,
    variable: VariableType,
    rendered: TypeLabel,
    allow_edits: bool,
    imports: Map<Symbol, ImportActionModel>,
) -> Labelling {
    with_spans(
        file,
        variable,
        rendered.label@,
        rendered.spans@,
        Labelling {
            offset: 0,
            parts: seq![plain_part(": "@)],
            written: Seq::empty(),
            allow_edits,
            importing: Importing { imports, imported: Seq::empty() },
        },
    )
}

/// The hint of the type of `expr`, to which `rhs` is assigned.
pub open spec fn variable_hint(
    file: File,
    expr: Node,
    rhs: Node,
    variable: VariableType,
    rendered: TypeLabel,
    allow_edits: bool,
    imports: Map<Symbol, ImportActionModel>,
) -> Hinted {
    let label = rendered.label@;
    // filter out repetitive hints like `x: T = T()`
    if calls_name(rhs, label) {
        Hinted { hint: None, imports }
    } else {
        let labelling = labelled(file, variable, rendered, allow_edits, imports);
        let rest = text_from(label, labelling.offset);
        let position = expr.range.end;
        Hinted {
            hint: Some(
                InlayHintModel {
                    position,
                    kind: InlayHintKind::Type,
                    // the rest of the label has no target
                    label: if labelling.offset < bytes_of(label).len() {
                        labelling.parts.push(plain_part(rest))
                    } else {
                        labelling.parts
                    },
                    padding_left: false,
                    padding_right: false,
                    text_edits: if rendered.is_valid_syntax && labelling.allow_edits {
                        seq![
                            TextEditModel {
                                range: TextRange { start: position, end: position },
                                new_text: ": "@ + (labelling.written + rest),
                            },
                        ] + import_edits(
                            labelling.importing.imports,
                            labelling.importing.imported,
                        )
                    } else {
                        Seq::empty()
                    },
                },
            ),
            imports: labelling.importing.imports,
        }
    }
}

fn find_member<'a>(members: &'a Vec<ScopeMember>, name: &str) -> (found: Option<&'a ScopeMember>)
    ensures
        crate::lookup::value_in(found) == member_named(members@, name@),
{
    let mut i: usize = 0;
    assert(members@.skip(0) =~= members@);
    while i < members.len()
        invariant
            i <= members.len(),
            member_named(members@, name@) == member_named(members@.skip(i as int), name@),
        decreases members.len() - i,
    {
        assert(members@.skip(i as int)[0] == members@[i as int]);
        assert(members@.skip(i as int).skip(1) =~= members@.skip(i + 1));
        if same_text(members[i].name.as_str(), name) {
            return Some(&members[i]);
        }
        i += 1;
    }
    None
}

fn find_answer<'a>(
    answers: &'a Vec<ImportAnswer>,
    module: &str,
    symbol: &str,
    qualified: bool,
) -> (found: Option<&'a ImportAction>)
    ensures
        action_in(found) == answer_to(answers@, (module@, symbol@), qualified),
{
    let mut i: usize = 0;
    assert(answers@.skip(0) =~= answers@);
    while i < answers.len()
        invariant
            i <= answers.len(),
            answer_to(answers@, (module@, symbol@), qualified) == answer_to(
                answers@.skip(i as int),
                (module@, symbol@),
                qualified,
            ),
        decreases answers.len() - i,
    {
        assert(answers@.skip(i as int)[0] == answers@[i as int]);
        assert(answers@.skip(i as int).skip(1) =~= answers@.skip(i + 1));
        let answer = &answers[i];
        if same_text(answer.module.as_str(), module) && same_text(answer.symbol.as_str(), symbol)
            && answer.qualified == qualified {
            return Some(&answer.action);
        }
        i += 1;
    }
    None
}

fn has_dot(text: &str) -> (has: bool)
    ensures
        has == text@.contains('.'),
{
    let length = text.unicode_len();
    let mut i: usize = 0;
    while i < length
        invariant
            i <= length,
            length == text@.len(),
            forall|j: int| 0 <= j < i ==> text@[j] != '.',
        decreases length - i,
    {
        if text.get_char(i) == '.' {
            assert(text@[i as int] == '.');
            return true;
        }
        i += 1;
    }
    false
}

pub open spec fn symbols(imported: Seq<(String, String)>) -> Seq<Symbol> {
    imported.map_values(|symbol: (String, String)| (symbol.0@, symbol.1@))
}

/// Makes the imports one hint needs.
pub struct DynamicImporter<'a> {
    pub variable: &'a VariableType,
    pub dynamic_imports: DynamicImports,
    pub imported_members: Vec<(String, String)>,
}

impl<'a> DynamicImporter<'a> {
    pub open spec fn model(&self) -> Importing {
        Importing {
            imports: self.dynamic_imports@,
            imported: symbols(self.imported_members@),
        }
    }

    pub fn new(variable: &'a VariableType, dynamic_imports: DynamicImports) -> (importer: Self)
        ensures
            importer.variable == variable,
            importer.model() == (Importing {
                imports: dynamic_imports@,
                imported: Seq::empty(),
            }),
    {
        let importer = DynamicImporter {
            variable,
            dynamic_imports,
            imported_members: Vec::new(),
        };
        assert(importer.model().imported =~= Seq::empty());
        importer
    }

    /// Attempts to import a given symbol.
    /// If the symbol in the text edit needs to be qualified, we return the qualified symbol text.
    pub fn import_symbol(
        self,
        definition: u32,
        module_name: &str,
        symbol_name: &str,
        label_text: &str,
    ) -> (asked: (Option<String>, Self))
        ensures
            asked.1.variable == self.variable,
            (Asked { spelling: text_in(asked.0), after: asked.1.model() }) == asked_for(
                *self.variable,
                definition,
                (module_name@, symbol_name@),
                label_text@,
                self.model(),
            ),
    {
        let mut qualified = has_dot(label_text);
        if let Some(member) = find_member(&self.variable.members, symbol_name) {
            if let Some(other) = member.definition {
                if other == definition {
                    return (None, self);
                }
            }
            qualified = true;
        }
        if let Some(action) = self.dynamic_imports.get(module_name, symbol_name) {
            let spelling = match qualified_symbol_text(action) {
                Some(text) => Some(owned(text)),
                None => None,
            };
            return (spelling, self);
        }
        let action = match find_answer(
            &self.variable.imports,
            module_name,
            symbol_name,
            qualified,
        ) {
            Some(action) => action,
            None => {
                return (None, self);
            },
        };
        let spelling = match qualified_symbol_text(action) {
            Some(text) => Some(owned(text)),
            None => None,
        };
        let ghost before = self.model();
        let mut imported_members = self.imported_members;
        let key = (owned(module_name), owned(symbol_name));
        let ghost held = imported_members@;
        imported_members.push(key);
        assert(symbols(imported_members@) =~= symbols(held).push((module_name@, symbol_name@)));
        let dynamic_imports = self.dynamic_imports.with(module_name, symbol_name, action.copy());
        (
            spelling,
            DynamicImporter { variable: self.variable, dynamic_imports, imported_members },
        )
    }

    /// Imports `named`, which is rendered as `label`, when an edit of `file` needs it.
    fn qualified_name(self, file: File, named: &NamedType, label: &str) -> (asked: (
        Option<String>,
        Self,
    ))
        ensures
            asked.1.variable == self.variable,
            (Asked { spelling: text_in(asked.0), after: asked.1.model() }) == spelled(
                file,
                *self.variable,
                *named,
                label@,
                self.model(),
            ),
    {
        let definition = match &named.definition {
            Some(definition) => definition,
            None => {
                return (None, self);
            },
        };
        if !definition.is_global || definition.file == file {
            return (None, self);
        }
        let module = match &definition.module {
            Some(module) => module,
            None => {
                return (None, self);
            },
        };
        if module.is_builtins || named.is_none {
            return (None, self);
        }
        match &definition.name {
            Some(name) => self.import_symbol(
                definition.id,
                module.name.as_str(),
                name.as_str(),
                label,
            ),
            None => self.import_symbol(definition.id, module.name.as_str(), label, label),
        }
    }

    /// Builds the text edits from all collected imports.
    pub fn text_edits(&self) -> (edits: Vec<InlayHintTextEdit>)
        ensures
            text_edit_models(edits@) == import_edits(
                self.model().imports,
                self.model().imported,
            ),
    {
        let ghost imports = self.dynamic_imports@;
        let ghost all = symbols(self.imported_members@);
        let mut edits: Vec<InlayHintTextEdit> = Vec::new();
        let mut i: usize = 0;
        assert(text_edit_models(edits@) =~= import_edits(imports, all.take(0)));
        while i < self.imported_members.len()
            invariant
                i <= self.imported_members.len(),
                imports == self.dynamic_imports@,
                all == symbols(self.imported_members@),
                text_edit_models(edits@) == import_edits(imports, all.take(i as int)),
            decreases self.imported_members.len() - i,
        {
            assert(all.take(i + 1).drop_last() =~= all.take(i as int));
            let member = &self.imported_members[i];
            assert(all.take(i + 1).last() == (member.0@, member.1@));
            if let Some(action) = self.dynamic_imports.get(member.0.as_str(), member.1.as_str()) {
                if let Some(edit) = &action.import {
                    if let Some(content) = &edit.content {
                        let ghost before = edits@;
                        let edit = InlayHintTextEdit {
                            range: edit.range,
                            new_text: owned(content.as_str()),
                        };
                        edits.push(edit);
                        assert(text_edit_models(edits@) =~= text_edit_models(before).push(edit@));
                    }
                }
            }
            i += 1;
        }
        assert(all.take(i as int) =~= all);
        edits
    }
}

/// A hint, when there is one, and the imports after it.
pub struct HintedVariable {
    pub hint: Option<InlayHint>,
    pub imports: DynamicImports,
}

impl View for HintedVariable {
    type V = Hinted;

    open spec fn view(&self) -> Hinted {
        Hinted {
            hint: match self.hint {
                Some(hint) => Some(hint@),
                None => None,
            },
            imports: self.imports@,
        }
    }
}

impl InlayHint {
    /// The type of `expr`, to which `rhs` is assigned.
    pub fn variable_type(
        file: File,
        expr: &Node,
        rhs: &Node,
        variable: &VariableType,
        rendered: &TypeLabel,
        allow_edits: bool,
        imports: DynamicImports,
    ) -> (hinted: HintedVariable)
        ensures
            hinted@ == variable_hint(
                file,
                *expr,
                *rhs,
                *variable,
                *rendered,
                allow_edits,
                imports@,
            ),
    {
        let label = rendered.label.as_str();
        if call_matches_name(rhs, label) {
            return HintedVariable { hint: None, imports };
        }
        let ghost before = imports@;
        let position = expr.range.end;
        let mut importer = DynamicImporter::new(variable, imports);
        // there is potentially a random soup of spans here, and each byte of the string can have
        // at most one target associated with it. they were generally pushed in print order, with
        // the inner smaller types appearing before the outer bigger ones
        //
        // so it is recorded where we are in the string, and every time a type is found that is
        // further along in it, that gets the span for its range, and we advance
        let mut offset: u32 = 0;
        let mut written = String::new();
        let mut allow_edits = allow_edits;
        let ghost allowed = allow_edits;
        let mut parts: Vec<InlayHintLabelPart> = Vec::new();
        push_text(&mut parts, ": ");
        let spans = &rendered.spans;
        let ghost start = Labelling {
            offset: 0,
            parts: seq![plain_part(": "@)],
            written: Seq::empty(),
            allow_edits: allowed,
            importing: Importing { imports: before, imported: Seq::empty() },
        };
        let mut i: usize = 0;
        proof {
            assert(part_models(parts@) =~= start.parts);
            assert(written@ =~= start.written);
            vstd::utf8::encode_utf8_valid_utf8(label@);
            vstd::utf8::is_char_boundary_start_end_of_seq(bytes_of(label@));
        }
        while i < spans.len()
            invariant
                i <= spans.len(),
                spans == rendered.spans,
                label@ == rendered.label@,
                importer.variable == variable,
                is_offset(label@, offset as int),
                with_spans(file, *variable, label@, spans@.take(i as int), start) == (Labelling {
                    offset: offset as int,
                    parts: part_models(parts@),
                    written: written@,
                    allow_edits,
                    importing: importer.model(),
                }),
            decreases spans.len() - i,
        {
            assert(spans@.take(i + 1).drop_last() =~= spans@.take(i as int));
            assert(spans@.take(i + 1).last() == spans@[i as int]);
            let span = &spans[i];
            if let TypeDetail::Type(named) = &span.detail {
                if let Some(text) = get(label, span.range) {
                    if span.range.start >= offset {
                        let gap = slice(label, TextRange { start: offset, end: span.range.start });
                        // if we skipped over some bytes, push them with no target
                        if span.range.start > offset {
                            push_text(&mut parts, gap);
                        }
                        if let Some(definition) = &named.definition {
                            if !definition.is_global {
                                allow_edits = false;
                            }
                        }
                        let (spelling, after) = importer.qualified_name(file, named, text);
                        importer = after;
                        written.append(gap);
                        match spelling {
                            Some(spelling) => {
                                written.append(spelling.as_str());
                            },
                            None => {
                                written.append(text);
                            },
                        }
                        // always use original text for the label part
                        push_part(
                            &mut parts,
                            InlayHintLabelPart::new(text).with_target(named.target),
                        );
                        offset = span.range.end;
                    }
                }
            }
            i += 1;
        }
        assert(spans@.take(i as int) =~= spans@);
        // "flush" the rest of the label without any target
        let rest = match get_from(label, offset) {
            Some(rest) => rest,
            None => "",
        };
        if (offset as usize) < label.as_bytes().len() {
            push_text(&mut parts, rest);
        }
        let mut text_edits: Vec<InlayHintTextEdit> = Vec::new();
        let ghost model = variable_hint(
            file,
            *expr,
            *rhs,
            *variable,
            *rendered,
            allowed,
            before,
        );
        if rendered.is_valid_syntax && allow_edits {
            written.append(rest);
            let edit = InlayHintTextEdit {
                range: TextRange::empty(position),
                new_text: join2(": ", written.as_str()),
            };
            text_edits.push(edit);
            assert(text_edit_models(text_edits@) =~= seq![edit@]);
            let ghost first = text_edits@;
            let mut imported = importer.text_edits();
            let ghost more = imported@;
            text_edits.append(&mut imported);
            assert(text_edit_models(text_edits@) =~= text_edit_models(first) + text_edit_models(
                more,
            ));
        }
        assert(text_edit_models(text_edits@) =~= model.hint->0.text_edits);
        let hint = InlayHint {
            position,
            kind: InlayHintKind::Type,
            label: InlayHintLabel::of(parts),
            padding_left: false,
            padding_right: false,
            text_edits,
        };
        HintedVariable { hint: Some(hint), imports: importer.dynamic_imports }
    }
}

/// What is before `offset` in `label`.
spec fn text_upto(label: Seq<char>, offset: int) -> Seq<char> {
    text_of(label, TextRange { start: 0, end: offset as u32 })
}

proof fn lemma_text_joined(label: Seq<char>, middle: int, end: int)
    requires
        0 <= middle <= end <= u32::MAX,
        is_offset(label, middle),
        is_offset(label, end),
    ensures
        text_upto(label, middle) + text_of(
            label,
            TextRange { start: middle as u32, end: end as u32 },
        ) == text_upto(label, end),
{
    let bytes = bytes_of(label);
    encode_utf8_valid_utf8(label);
    is_char_boundary_start_end_of_seq(bytes);
    let before = TextRange { start: 0, end: middle as u32 };
    let after = TextRange { start: middle as u32, end: end as u32 };
    let whole = TextRange { start: 0, end: end as u32 };
    lemma_text_of(label, before);
    lemma_text_of(label, after);
    lemma_text_of(label, whole);
    let joined = text_of(label, before) + text_of(label, after);
    lemma_bytes_concat(text_of(label, before), text_of(label, after));
    assert(bytes_of(joined) =~= bytes.subrange(0, end));
    encode_utf8_decode_utf8(joined);
    encode_utf8_decode_utf8(text_of(label, whole));
}

/// What a label is made up of so far reads as the type does up to there.
spec fn reads_so_far(label: Seq<char>, sofar: Labelling) -> bool {
    &&& 0 <= sofar.offset <= u32::MAX
    &&& is_offset(label, sofar.offset)
    &&& parts_text(sofar.parts) == ": "@ + text_upto(label, sofar.offset)
}

proof fn lemma_parts_push(parts: Seq<PartModel>, part: PartModel)
    ensures
        parts_text(parts.push(part)) == parts_text(parts) + part.text,
{
    assert(parts.push(part).drop_last() =~= parts);
}

proof fn lemma_span_reads(
    file: File,
    variable: VariableType,
    label: Seq<char>,
    span: LabelSpan,
    sofar: Labelling,
)
    requires
        reads_so_far(label, sofar),
    ensures
        reads_so_far(label, with_span(file, variable, label, span, sofar)),
{
    if let TypeDetail::Type(named) = span.detail {
        if is_cut(label, span.range) && span.range.start >= sofar.offset {
            let start = span.range.start as int;
            let end = span.range.end as int;
            let gap = text_of(
                label,
                TextRange { start: sofar.offset as u32, end: span.range.start },
            );
            let text = text_of(label, span.range);
            let part = PartModel { text, target: named.target };
            lemma_text_joined(label, sofar.offset, start);
            lemma_text_joined(label, start, end);
            let upto = text_upto(label, sofar.offset);
            assert(": "@ + upto + gap =~= ": "@ + (upto + gap));
            assert(": "@ + text_upto(label, start) + text =~= ": "@ + (text_upto(label, start)
                + text));
            if start > sofar.offset {
                lemma_parts_push(sofar.parts, plain_part(gap));
                lemma_parts_push(sofar.parts.push(plain_part(gap)), part);
            } else {
                lemma_parts_push(sofar.parts, part);
            }
        }
    }
}

proof fn lemma_spans_read(
    file: File,
    variable: VariableType,
    label: Seq<char>,
    spans: Seq<LabelSpan>,
    sofar: Labelling,
)
    requires
        reads_so_far(label, sofar),
    ensures
        reads_so_far(label, with_spans(file, variable, label, spans, sofar)),
    decreases spans.len(),
{
    if spans.len() > 0 {
        lemma_spans_read(file, variable, label, spans.drop_last(), sofar);
        lemma_span_reads(
            file,
            variable,
            label,
            spans.last(),
            with_spans(file, variable, label, spans.drop_last(), sofar),
        );
    }
}

/// The hint of a variable reads as its type, whatever soup of spans its rendering comes with: a
/// colon, a space, and the whole label.
pub proof fn law_label_reads_as_the_type(
    file: File,
    expr: Node,
    rhs: Node,
    variable: VariableType,
    rendered: TypeLabel,
    allow_edits: bool,
    imports: Map<Symbol, ImportActionModel>,
)
    ensures
        variable_hint(
            file,
            expr,
            rhs,
            variable,
            rendered,
            allow_edits,
            imports,
        ).hint matches Some(hint) ==> parts_text(hint.label) == ": "@ + rendered.label@,
{
    let label = rendered.label@;
    let bytes = bytes_of(label);
    encode_utf8_valid_utf8(label);
    is_char_boundary_start_end_of_seq(bytes);
    let start = Labelling {
        offset: 0,
        parts: seq![plain_part(": "@)],
        written: Seq::empty(),
        allow_edits,
        importing: Importing { imports, imported: Seq::empty() },
    };
    let none = TextRange { start: 0, end: 0 };
    lemma_text_of(label, none);
    assert(bytes_of(text_of(label, none)) =~= bytes_of(Seq::<char>::empty()));
    encode_utf8_decode_utf8(text_of(label, none));
    encode_utf8_decode_utf8(Seq::<char>::empty());
    assert(start.parts =~= Seq::<PartModel>::empty().push(plain_part(": "@)));
    lemma_parts_push(Seq::empty(), plain_part(": "@));
    assert(parts_text(Seq::<PartModel>::empty()) =~= Seq::<char>::empty());
    assert(Seq::<char>::empty() + ": "@ =~= ": "@ + Seq::<char>::empty());
    lemma_spans_read(file, variable, label, rendered.spans@, start);
    let labelling = labelled(file, variable, rendered, allow_edits, imports);
    let rest = text_from(label, labelling.offset);
    let upto = text_upto(label, labelling.offset);
    let before = TextRange { start: 0, end: labelling.offset as u32 };
    lemma_text_of(label, before);
    lemma_rest_of(label, labelling.offset);
    lemma_bytes_concat(upto, rest);
    assert(bytes_of(upto + rest) =~= bytes);
    encode_utf8_decode_utf8(upto + rest);
    encode_utf8_decode_utf8(label);
    assert(upto + rest == label);
    if labelling.offset < bytes.len() {
        lemma_parts_push(labelling.parts, plain_part(rest));
        assert(": "@ + upto + rest =~= ": "@ + (upto + rest));
    } else {
        assert(bytes_of(rest) =~= bytes_of(Seq::<char>::empty()));
        encode_utf8_decode_utf8(rest);
        assert(upto + rest =~= upto);
    }
}

/// What follows an offset is encoded as the bytes from there.
proof fn lemma_rest_of(label: Seq<char>, offset: int)
    requires
        is_offset(label, offset),
    ensures
        bytes_of(text_from(label, offset)) == bytes_of(label).skip(offset),
{
    let bytes = bytes_of(label);
    encode_utf8_valid_utf8(label);
    valid_utf8_split(bytes, offset);
    assert(bytes.skip(offset) =~= bytes.subrange(offset, bytes.len() as int));
    decode_utf8_encode_utf8(bytes.skip(offset));
}

/// The symbols imported for one hint: none twice, none that was imported before, each kept.
pub open spec fn imports_are_new(
    before: Map<Symbol, ImportActionModel>,
    importing: Importing,
) -> bool {
    &&& importing.imported.no_duplicates()
    &&& forall|i: int|
        0 <= i < importing.imported.len() ==> !before.dom().contains(
            #[trigger] importing.imported[i],
        ) && importing.imports.dom().contains(importing.imported[i])
    &&& forall|symbol: Symbol| #[trigger]
        before.dom().contains(symbol) ==> importing.imports.dom().contains(symbol)
            && importing.imports[symbol] == before[symbol]
}

proof fn lemma_asked_new(
    variable: VariableType,
    definition: u32,
    symbol: Symbol,
    label: Seq<char>,
    before: Map<Symbol, ImportActionModel>,
    sofar: Importing,
)
    requires
        imports_are_new(before, sofar),
    ensures
        imports_are_new(before, asked_for(variable, definition, symbol, label, sofar).after),
{
    let after = asked_for(variable, definition, symbol, label, sofar).after;
    if after.imported.len() > sofar.imported.len() {
        assert(!sofar.imports.dom().contains(symbol));
        assert(!sofar.imported.contains(symbol)) by {
            if sofar.imported.contains(symbol) {
                let i = sofar.imported.index_of(symbol);
                assert(sofar.imports.dom().contains(sofar.imported[i]));
            }
        }
        assert(!before.dom().contains(symbol));
        assert forall|i: int| 0 <= i < after.imported.len() implies !before.dom().contains(
            #[trigger] after.imported[i],
        ) && after.imports.dom().contains(after.imported[i]) by {
            if i < sofar.imported.len() {
                assert(after.imported[i] == sofar.imported[i]);
            }
        }
        assert(after.imported.no_duplicates()) by {
            assert forall|i: int, j: int|
                0 <= i < after.imported.len() && 0 <= j < after.imported.len() && i
                    != j implies after.imported[i] != after.imported[j] by {
                if i < sofar.imported.len() {
                    assert(after.imported[i] == sofar.imported[i]);
                    assert(sofar.imported.contains(sofar.imported[i]));
                }
                if j < sofar.imported.len() {
                    assert(after.imported[j] == sofar.imported[j]);
                    assert(sofar.imported.contains(sofar.imported[j]));
                }
            }
        }
    }
}

proof fn lemma_spans_import_new(
    file: File,
    variable: VariableType,
    label: Seq<char>,
    spans: Seq<LabelSpan>,
    before: Map<Symbol, ImportActionModel>,
    sofar: Labelling,
)
    requires
        imports_are_new(before, sofar.importing),
    ensures
        imports_are_new(
            before,
            with_spans(file, variable, label, spans, sofar).importing,
        ),
    decreases spans.len(),
{
    if spans.len() > 0 {
        lemma_spans_import_new(file, variable, label, spans.drop_last(), before, sofar);
        let held = with_spans(file, variable, label, spans.drop_last(), sofar);
        if let TypeDetail::Type(named) = spans.last().detail {
            let text = text_of(label, spans.last().range);
            if let Some(definition) = named.definition {
                if let Some(module) = definition.module {
                    lemma_asked_new(
                        variable,
                        definition.id,
                        (
                            module.name@,
                            match definition.name {
                                Some(name) => name@,
                                None => text,
                            },
                        ),
                        text,
                        before,
                        held.importing,
                    );
                }
            }
        }
    }
}

/// No import is created twice: what one hint imports was imported neither by that hint nor by
/// one before it, and what was imported before stays as it was.
pub proof fn law_imported_once(
    file: File,
    variable: VariableType,
    rendered: TypeLabel,
    allow_edits: bool,
    imports: Map<Symbol, ImportActionModel>,
)
    ensures
        imports_are_new(
            imports,
            labelled(file, variable, rendered, allow_edits, imports).importing,
        ),
{
    lemma_spans_import_new(
        file,
        variable,
        rendered.label@,
        rendered.spans@,
        imports,
        Labelling {
            offset: 0,
            parts: seq![plain_part(": "@)],
            written: Seq::empty(),
            allow_edits,
            importing: Importing { imports, imported: Seq::empty() },
        },
    );
}

/// Whether `named` can be written in `file` as it is rendered: nothing defines it, or its own
/// module does, at its top level, or it is built in.
pub open spec fn is_in_reach(file: File, named: NamedType) -> bool {
    named.definition matches Some(definition) ==> {
        &&& definition.is_global
        &&& definition.file == file || definition.module is None || named.is_none || (
        definition.module matches Some(module) && module.is_builtins)
    }
}

pub open spec fn is_span_in_reach(file: File, span: LabelSpan) -> bool {
    span.detail matches TypeDetail::Type(named) ==> is_in_reach(file, named)
}

proof fn lemma_spans_written(
    file: File,
    variable: VariableType,
    label: Seq<char>,
    spans: Seq<LabelSpan>,
    sofar: Labelling,
)
    requires
        parts_text(sofar.parts) == ": "@ + sofar.written,
        forall|i: int| 0 <= i < spans.len() ==> is_span_in_reach(file, #[trigger] spans[i]),
    ensures
        ({
            let after = with_spans(file, variable, label, spans, sofar);
            &&& parts_text(after.parts) == ": "@ + after.written
            &&& after.allow_edits == sofar.allow_edits
            &&& after.importing == sofar.importing
        }),
    decreases spans.len(),
{
    if spans.len() > 0 {
        assert forall|i: int| 0 <= i < spans.drop_last().len() implies is_span_in_reach(
            file,
            #[trigger] spans.drop_last()[i],
        ) by {
            assert(spans.drop_last()[i] == spans[i]);
        }
        lemma_spans_written(file, variable, label, spans.drop_last(), sofar);
        let before = with_spans(file, variable, label, spans.drop_last(), sofar);
        let span = spans.last();
        assert(spans[spans.len() - 1] == span);
        assert(is_span_in_reach(file, span));
        if let TypeDetail::Type(named) = span.detail {
            if is_cut(label, span.range) && span.range.start >= before.offset {
                let range = TextRange { start: before.offset as u32, end: span.range.start };
                let gap = text_of(label, range);
                let text = text_of(label, span.range);
                let part = PartModel { text, target: named.target };
                let after = with_span(file, variable, label, span, before);
                assert(spelled(file, variable, named, text, before.importing).spelling is None);
                assert(after.written == before.written + gap + text);
                if span.range.start > before.offset {
                    lemma_parts_push(before.parts, plain_part(gap));
                    lemma_parts_push(before.parts.push(plain_part(gap)), part);
                    assert(": "@ + before.written + gap + text =~= ": "@ + after.written);
                } else {
                    lemma_text_nowhere(label, range);
                    lemma_parts_push(before.parts, part);
                    assert(": "@ + before.written + text =~= ": "@ + after.written);
                }
            }
        }
    }
}

proof fn lemma_text_nowhere(label: Seq<char>, range: TextRange)
    requires
        range.end == range.start,
        range.end <= bytes_of(label).len(),
    ensures
        text_of(label, range).len() == 0,
{
    assert(bytes_of(label).subrange(range.start as int, range.end as int) =~= Seq::<u8>::empty());
    encode_utf8_decode_utf8(Seq::<char>::empty());
    assert(bytes_of(Seq::<char>::empty()) =~= Seq::<u8>::empty());
}

/// Accepting the hint of a variable annotates it with its type, when everything in the type can be
/// written where the variable is: it adds a colon, a space and the type after the variable, and
/// nothing else anywhere.
pub proof fn law_accepted_hints_annotate_the_variable(
    file: File,
    expr: Node,
    rhs: Node,
    variable: VariableType,
    rendered: TypeLabel,
    imports: Map<Symbol, ImportActionModel>,
)
    requires
        rendered.is_valid_syntax,
        forall|i: int|
            0 <= i < rendered.spans@.len() ==> is_span_in_reach(
                file,
                #[trigger] rendered.spans@[i],
            ),
    ensures
        variable_hint(file, expr, rhs, variable, rendered, true, imports).hint matches Some(hint)
            ==> hint.text_edits == seq![
            TextEditModel {
                range: TextRange { start: expr.range.end, end: expr.range.end },
                new_text: ": "@ + rendered.label@,
            },
        ],
{
    let label = rendered.label@;
    let start = Labelling {
        offset: 0,
        parts: seq![plain_part(": "@)],
        written: Seq::empty(),
        allow_edits: true,
        importing: Importing { imports, imported: Seq::empty() },
    };
    assert(start.parts =~= Seq::<PartModel>::empty().push(plain_part(": "@)));
    lemma_parts_push(Seq::empty(), plain_part(": "@));
    assert(parts_text(start.parts) =~= ": "@ + start.written);
    lemma_spans_written(file, variable, label, rendered.spans@, start);
    law_label_reads_as_the_type(file, expr, rhs, variable, rendered, true, imports);
    let labelling = labelled(file, variable, rendered, true, imports);
    let rest = text_from(label, labelling.offset);
    if let Some(hint) = variable_hint(file, expr, rhs, variable, rendered, true, imports).hint {
        if labelling.offset < bytes_of(label).len() {
            lemma_parts_push(labelling.parts, plain_part(rest));
            assert(": "@ + labelling.written + rest =~= ": "@ + (labelling.written + rest));
        } else {
            assert(bytes_of(label).skip(labelling.offset).len() == 0 || labelling.offset
                > bytes_of(label).len());
            lemma_text_past(file, variable, rendered, imports);
            assert(labelling.written + rest =~= labelling.written);
        }
        assert(import_edits(imports, Seq::empty()) =~= Seq::empty());
        assert(hint.text_edits =~= seq![
            TextEditModel {
                range: TextRange { start: expr.range.end, end: expr.range.end },
                new_text: ": "@ + label,
            },
        ]);
    }
}

/// Nothing is left of a label where it ends.
proof fn lemma_text_past(
    file: File,
    variable: VariableType,
    rendered: TypeLabel,
    imports: Map<Symbol, ImportActionModel>,
)
    requires
        labelled(file, variable, rendered, true, imports).offset >= bytes_of(
            rendered.label@,
        ).len(),
    ensures
        text_from(
            rendered.label@,
            labelled(file, variable, rendered, true, imports).offset,
        ).len() == 0,
{
    let label = rendered.label@;
    let start = Labelling {
        offset: 0,
        parts: seq![plain_part(": "@)],
        written: Seq::empty(),
        allow_edits: true,
        importing: Importing { imports, imported: Seq::empty() },
    };
    encode_utf8_valid_utf8(label);
    is_char_boundary_start_end_of_seq(bytes_of(label));
    let none = TextRange { start: 0, end: 0 };
    lemma_text_of(label, none);
    assert(bytes_of(text_of(label, none)) =~= bytes_of(Seq::<char>::empty()));
    encode_utf8_decode_utf8(text_of(label, none));
    encode_utf8_decode_utf8(Seq::<char>::empty());
    assert(start.parts =~= Seq::<PartModel>::empty().push(plain_part(": "@)));
    lemma_parts_push(Seq::empty(), plain_part(": "@));
    assert(parts_text(Seq::<PartModel>::empty()) =~= Seq::<char>::empty());
    assert(Seq::<char>::empty() + ": "@ =~= ": "@ + Seq::<char>::empty());
    lemma_spans_read(file, variable, label, rendered.spans@, start);
    let offset = labelled(file, variable, rendered, true, imports).offset;
    lemma_rest_of(label, offset);
    assert(bytes_of(text_from(label, offset)) =~= bytes_of(Seq::<char>::empty()));
    encode_utf8_decode_utf8(text_from(label, offset));
}

/// Whether `span` is of a type that no other module can name: one that is defined in a class or a
/// function.
pub open spec fn is_out_of_reach(span: LabelSpan) -> bool {
    span.detail matches TypeDetail::Type(named) && (named.definition matches Some(definition)
        && !definition.is_global)
}

proof fn lemma_spans_refuse(
    file: File,
    variable: VariableType,
    label: Seq<char>,
    spans: Seq<LabelSpan>,
    sofar: Labelling,
    k: int,
)
    requires
        0 <= k < spans.len(),
        is_out_of_reach(spans[k]),
        is_cut(label, spans[k].range),
        sofar.offset <= spans[k].range.start,
        forall|i: int|
            0 <= i < k ==> (#[trigger] spans[i]).range.end <= spans[k].range.start,
    ensures
        !with_spans(file, variable, label, spans, sofar).allow_edits,
    decreases spans.len(),
{
    if k < spans.len() - 1 {
        assert(spans.drop_last()[k] == spans[k]);
        assert forall|i: int| 0 <= i < k implies (#[trigger] spans.drop_last()[i]).range.end
            <= spans[k].range.start by {
            assert(spans.drop_last()[i] == spans[i]);
        }
        lemma_spans_refuse(file, variable, label, spans.drop_last(), sofar, k);
    } else {
        lemma_spans_offset(
            file,
            variable,
            label,
            spans.drop_last(),
            sofar,
            spans[k].range.start as int,
        );
    }
}

proof fn lemma_spans_offset(
    file: File,
    variable: VariableType,
    label: Seq<char>,
    spans: Seq<LabelSpan>,
    sofar: Labelling,
    bound: int,
)
    requires
        sofar.offset <= bound,
        forall|i: int| 0 <= i < spans.len() ==> (#[trigger] spans[i]).range.end <= bound,
    ensures
        with_spans(file, variable, label, spans, sofar).offset <= bound,
    decreases spans.len(),
{
    if spans.len() > 0 {
        assert(spans[spans.len() - 1] == spans.last());
        assert forall|i: int| 0 <= i < spans.drop_last().len() implies (
        #[trigger] spans.drop_last()[i]).range.end <= bound by {
            assert(spans.drop_last()[i] == spans[i]);
        }
        lemma_spans_offset(file, variable, label, spans.drop_last(), sofar, bound);
    }
}

/// A hint changes nothing when its type holds one that is defined in a class or a function, or
/// cannot be written in a source, or where no annotation can be written.
pub proof fn law_hints_that_cannot_be_written_change_nothing(
    file: File,
    expr: Node,
    rhs: Node,
    variable: VariableType,
    rendered: TypeLabel,
    allow_edits: bool,
    imports: Map<Symbol, ImportActionModel>,
    k: int,
)
    requires
        ({
            let spans = rendered.spans@;
            ||| !allow_edits
            ||| !rendered.is_valid_syntax
            ||| 0 <= k < spans.len() && is_out_of_reach(spans[k]) && is_cut(
                rendered.label@,
                spans[k].range,
            ) && forall|i: int|
                0 <= i < k ==> (#[trigger] spans[i]).range.end <= spans[k].range.start
        }),
    ensures
        variable_hint(
            file,
            expr,
            rhs,
            variable,
            rendered,
            allow_edits,
            imports,
        ).hint matches Some(hint) ==> hint.text_edits.len() == 0,
{
    let start = Labelling {
        offset: 0,
        parts: seq![plain_part(": "@)],
        written: Seq::empty(),
        allow_edits,
        importing: Importing { imports, imported: Seq::empty() },
    };
    if !allow_edits {
        lemma_spans_refused(file, variable, rendered.label@, rendered.spans@, start);
    } else if rendered.is_valid_syntax {
        lemma_spans_refuse(file, variable, rendered.label@, rendered.spans@, start, k);
    }
}

proof fn lemma_spans_refused(
    file: File,
    variable: VariableType,
    label: Seq<char>,
    spans: Seq<LabelSpan>,
    sofar: Labelling,
)
    requires
        !sofar.allow_edits,
    ensures
        !with_spans(file, variable, label, spans, sofar).allow_edits,
    decreases spans.len(),
{
    if spans.len() > 0 {
        lemma_spans_refused(file, variable, label, spans.drop_last(), sofar);
    }
}

/// Whether the first of `members` named `name` is number `i`.
pub open spec fn is_first_member(members: Seq<ScopeMember>, i: int, name: Seq<char>) -> bool {
    &&& 0 <= i < members.len()
    &&& members[i].name@ == name
    &&& forall|j: int| 0 <= j < i ==> (#[trigger] members[j]).name@ != name
}

proof fn lemma_first_member(members: Seq<ScopeMember>, i: int, name: Seq<char>)
    requires
        is_first_member(members, i, name),
    ensures
        member_named(members, name) == Some(members[i]),
    decreases i,
{
    if i > 0 {
        assert(members[0].name@ != name);
        assert forall|j: int| 0 <= j < i - 1 implies (#[trigger] members.skip(1)[j]).name@ != name by {
            assert(members.skip(1)[j] == members[j + 1]);
        }
        lemma_first_member(members.skip(1), i - 1, name);
    }
}

proof fn lemma_no_member(members: Seq<ScopeMember>, name: Seq<char>)
    requires
        forall|j: int| 0 <= j < members.len() ==> (#[trigger] members[j]).name@ != name,
    ensures
        member_named(members, name) is None,
    decreases members.len(),
{
    if members.len() > 0 {
        assert(members[0].name@ != name);
        assert forall|j: int| 0 <= j < members.skip(1).len() implies (
        #[trigger] members.skip(1)[j]).name@ != name by {
            assert(members.skip(1)[j] == members[j + 1]);
        }
        lemma_no_member(members.skip(1), name);
    }
}

/// Whether the first of `answers` to a request for `symbol` is number `i`.
pub open spec fn is_first_answer(
    answers: Seq<ImportAnswer>,
    i: int,
    symbol: Symbol,
    qualified: bool,
) -> bool {
    &&& 0 <= i < answers.len()
    &&& is_answer(answers[i], symbol, qualified)
    &&& forall|j: int| 0 <= j < i ==> !is_answer(#[trigger] answers[j], symbol, qualified)
}

pub open spec fn is_answer(answer: ImportAnswer, symbol: Symbol, qualified: bool) -> bool {
    answer.module@ == symbol.0 && answer.symbol@ == symbol.1 && answer.qualified == qualified
}

proof fn lemma_first_answer(
    answers: Seq<ImportAnswer>,
    i: int,
    symbol: Symbol,
    qualified: bool,
)
    requires
        is_first_answer(answers, i, symbol, qualified),
    ensures
        answer_to(answers, symbol, qualified) == Some(answers[i].action@),
    decreases i,
{
    if i > 0 {
        assert(!is_answer(answers[0], symbol, qualified));
        assert forall|j: int| 0 <= j < i - 1 implies !is_answer(
            #[trigger] answers.skip(1)[j],
            symbol,
            qualified,
        ) by {
            assert(answers.skip(1)[j] == answers[j + 1]);
        }
        lemma_first_answer(answers.skip(1), i - 1, symbol, qualified);
    }
}

/// A symbol is used by its name where it is in scope by that, and nothing is imported for it.
pub proof fn law_what_is_in_scope_is_not_imported(
    variable: VariableType,
    definition: u32,
    symbol: Symbol,
    label: Seq<char>,
    sofar: Importing,
    i: int,
)
    requires
        is_first_member(variable.members@, i, symbol.1),
        variable.members@[i].definition == Some(definition),
    ensures
        asked_for(variable, definition, symbol, label, sofar).spelling is None,
        asked_for(variable, definition, symbol, label, sofar).after == sofar,
{
    lemma_first_member(variable.members@, i, symbol.1);
}

/// A symbol that is not in scope is imported once, and used by the name that brings: by its own
/// when that means nothing else there and its label has no dot, and else qualified by its module.
pub proof fn law_what_is_not_in_scope_is_imported(
    variable: VariableType,
    definition: u32,
    symbol: Symbol,
    label: Seq<char>,
    sofar: Importing,
    is_taken: bool,
    i: int,
)
    requires
        is_taken <==> exists|m: int|
            is_first_member(variable.members@, m, symbol.1) && (
            #[trigger] variable.members@[m]).definition != Some(definition),
        !is_taken ==> forall|m: int|
            0 <= m < variable.members@.len() ==> (#[trigger] variable.members@[m]).name@ != symbol.1,
        !sofar.imports.contains_key(symbol),
        is_first_answer(variable.imports@, i, symbol, is_taken || label.contains('.')),
    ensures
        ({
            let asked = asked_for(variable, definition, symbol, label, sofar);
            let action = variable.imports@[i].action@;
            &&& asked.after.imports == sofar.imports.insert(symbol, action)
            &&& asked.after.imported == sofar.imported.push(symbol)
            &&& asked.spelling == (if action.import is Some && !action.symbol_text.contains('.') {
                None
            } else {
                Some(action.symbol_text)
            })
            &&& asked_for(variable, definition, symbol, label, asked.after) == (Asked {
                spelling: asked.spelling,
                after: asked.after,
            })
        }),
{
    if is_taken {
        let m = choose|m: int|
            is_first_member(variable.members@, m, symbol.1) && (
            #[trigger] variable.members@[m]).definition != Some(definition);
        lemma_first_member(variable.members@, m, symbol.1);
    } else {
        lemma_no_member(variable.members@, symbol.1);
    }
    lemma_first_answer(variable.imports@, i, symbol, is_taken || label.contains('.'));
}

} // verus!
