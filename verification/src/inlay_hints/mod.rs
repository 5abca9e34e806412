//! The hints an editor draws between what is written: the type of a variable, the parameter an
//! argument fills, and what basedpython lets a source leave out.
//!
//! A hint is read as source, so it spells types the way the file is written — `1`, not
//! `Literal[1]`, in a basedpython file.

pub mod completeness;
pub mod facts;
pub mod imports;
pub mod matching;
pub mod variable;
pub mod visitor;

use crate::navigation::NavigationTarget;
use crate::strings::{join2, join3, owned};
use crate::text_size::{TextRange, TextSize};
use facts::{ContextArgument, ImplicitParameter, TypeArgument};
use vstd::prelude::*;
use vstd::string::StringExecFns;

verus! {

/// What a hint shows.
#[derive(Debug, Clone, Copy, PartialEq, Eq, Structural)]
pub enum InlayHintKind {
    Type,
    CallArgumentName,
    /// basedpython: a function's inferred exception set
    Raises,
    /// basedpython: the variance inferred for a class type parameter
    Variance,
    /// basedpython: a type parameter reified without saying so
    Reification,
    /// The type arguments inferred for a generic call, or the name of the type
    /// parameter a positional type argument fills
    TypeArgument,
    /// basedpython: a method that overrides a superclass member without saying so
    Override,
    /// The arms the typing spec's numeric promotion adds to `float` / `complex`
    NumericPromotion,
    /// The type a `reveal_type` call reveals
    RevealedType,
    /// The value an enum member takes without the source writing one
    EnumValue,
    /// basedpython: a parameter the source never spells (`it`, `self`)
    ImplicitParameter,
    /// basedpython: an argument a call site fills from a `context` declaration
    ImplicitArgument,
}

/// A variance a type parameter can have.
#[derive(Debug, Clone, Copy, PartialEq, Eq, Structural)]
pub enum Variance {
    Covariant,
    Contravariant,
    Invariant,
}

#[derive(Debug, Clone)]
pub struct InlayHintLabelPart {
    text: String,
    target: Option<NavigationTarget>,
}

/// An [`InlayHintLabelPart`] as a mathematical value.
pub ghost struct PartModel {
    pub text: Seq<char>,
    pub target: Option<NavigationTarget>,
}

impl View for InlayHintLabelPart {
    type V = PartModel;

    closed spec fn view(&self) -> PartModel {
        PartModel { text: self.text@, target: self.target }
    }
}

/// A part that leads nowhere.
pub open spec fn plain_part(text: Seq<char>) -> PartModel {
    PartModel { text, target: None }
}

pub open spec fn part_models(parts: Seq<InlayHintLabelPart>) -> Seq<PartModel> {
    parts.map_values(|part: InlayHintLabelPart| part@)
}

impl InlayHintLabelPart {
    pub fn new(text: &str) -> (part: Self)
        ensures
            part@ == plain_part(text@),
    {
        InlayHintLabelPart { text: owned(text), target: None }
    }

    pub fn text(&self) -> (text: &str)
        ensures
            text@ == self@.text,
    {
        self.text.as_str()
    }

    pub fn into_text(self) -> (text: String)
        ensures
            text@ == self@.text,
    {
        self.text
    }

    pub fn target(&self) -> (target: Option<&NavigationTarget>)
        ensures
            match target {
                Some(target) => self@.target == Some(*target),
                None => self@.target is None,
            },
    {
        self.target.as_ref()
    }

    pub fn with_target(self, target: Option<NavigationTarget>) -> (part: Self)
        ensures
            part@ == (PartModel { text: self@.text, target }),
    {
        InlayHintLabelPart { text: self.text, target }
    }
}

impl Default for InlayHintLabelPart {
    fn default() -> (part: Self)
        ensures
            part@ == plain_part(Seq::empty()),
    {
        let part = InlayHintLabelPart { text: String::new(), target: None };
        assert(part.text@ =~= Seq::empty());
        part
    }
}

impl From<String> for InlayHintLabelPart {
    fn from(text: String) -> (part: Self)
        ensures
            part@ == plain_part(text@),
    {
        InlayHintLabelPart { text, target: None }
    }
}

impl vstd::std_specs::convert::FromSpecImpl<String> for InlayHintLabelPart {
    open spec fn obeys_from_spec() -> bool {
        true
    }

    closed spec fn from_spec(text: String) -> Self {
        InlayHintLabelPart { text, target: None }
    }
}

impl<'a> From<&'a str> for InlayHintLabelPart {
    fn from(text: &'a str) -> (part: Self)
        ensures
            part@ == plain_part(text@),
    {
        InlayHintLabelPart::new(text)
    }
}

impl<'a> vstd::std_specs::convert::FromSpecImpl<&'a str> for InlayHintLabelPart {
    /// A text is not made into a new one in specifications: what `from` gives is said by its
    /// view.
    open spec fn obeys_from_spec() -> bool {
        false
    }

    closed spec fn from_spec(text: &'a str) -> Self {
        arbitrary()
    }
}

#[derive(Debug, Clone)]
pub struct InlayHintLabel {
    parts: Vec<InlayHintLabelPart>,
}

impl View for InlayHintLabel {
    type V = Seq<PartModel>;

    closed spec fn view(&self) -> Seq<PartModel> {
        part_models(self.parts@)
    }
}

impl InlayHintLabel {
    pub(crate) fn of(parts: Vec<InlayHintLabelPart>) -> (label: InlayHintLabel)
        ensures
            label@ == part_models(parts@),
    {
        InlayHintLabel { parts }
    }

    pub fn parts(&self) -> (parts: &[InlayHintLabelPart])
        ensures
            part_models(parts@) == self@,
    {
        self.parts.as_slice()
    }

    pub fn into_parts(self) -> (parts: Vec<InlayHintLabelPart>)
        ensures
            part_models(parts@) == self@,
    {
        self.parts
    }
}

#[derive(Debug, Clone)]
pub struct InlayHintTextEdit {
    pub range: TextRange,
    pub new_text: String,
}

/// An [`InlayHintTextEdit`] as a mathematical value.
pub ghost struct TextEditModel {
    pub range: TextRange,
    pub new_text: Seq<char>,
}

impl View for InlayHintTextEdit {
    type V = TextEditModel;

    open spec fn view(&self) -> TextEditModel {
        TextEditModel { range: self.range, new_text: self.new_text@ }
    }
}

pub open spec fn text_edit_models(edits: Seq<InlayHintTextEdit>) -> Seq<TextEditModel> {
    edits.map_values(|edit: InlayHintTextEdit| edit@)
}

#[derive(Debug, Clone)]
pub struct InlayHint {
    pub position: TextSize,
    pub kind: InlayHintKind,
    pub label: InlayHintLabel,
    /// Whether the client separates the hint from the source before it.
    ///
    /// A hint that needs a space there asks for one with this rather than
    /// writing it into the label, so that the space is the client's own
    /// rendering — outside any part that links somewhere, and stylable as the
    /// gap it is rather than as label text.
    pub padding_left: bool,
    /// Whether the client separates the hint from the source after it.
    pub padding_right: bool,
    pub text_edits: Vec<InlayHintTextEdit>,
}

/// An [`InlayHint`] as a mathematical value.
pub ghost struct InlayHintModel {
    pub position: TextSize,
    pub kind: InlayHintKind,
    pub label: Seq<PartModel>,
    pub padding_left: bool,
    pub padding_right: bool,
    pub text_edits: Seq<TextEditModel>,
}

impl View for InlayHint {
    type V = InlayHintModel;

    open spec fn view(&self) -> InlayHintModel {
        InlayHintModel {
            position: self.position,
            kind: self.kind,
            label: self.label@,
            padding_left: self.padding_left,
            padding_right: self.padding_right,
            text_edits: text_edit_models(self.text_edits@),
        }
    }
}

pub open spec fn hint_models(hints: Seq<InlayHint>) -> Seq<InlayHintModel> {
    hints.map_values(|hint: InlayHint| hint@)
}

/// A hint that edits nothing.
pub open spec fn hint_of(
    position: TextSize,
    kind: InlayHintKind,
    label: Seq<PartModel>,
    padding_left: bool,
    padding_right: bool,
) -> InlayHintModel {
    InlayHintModel {
        position,
        kind,
        label,
        padding_left,
        padding_right,
        text_edits: Seq::empty(),
    }
}

/// The name of the parameter an argument fills, as an argument at `position` shows it.
pub open spec fn argument_name_hint(
    position: TextSize,
    name: Seq<char>,
    target: Option<NavigationTarget>,
    editable: bool,
) -> InlayHintModel {
    InlayHintModel {
        position,
        kind: InlayHintKind::CallArgumentName,
        label: seq![PartModel { text: name, target }, plain_part("="@)],
        padding_left: false,
        padding_right: false,
        text_edits: if editable {
            seq![
                TextEditModel {
                    range: TextRange { start: position, end: position },
                    new_text: name + "="@,
                },
            ]
        } else {
            Seq::empty()
        },
    }
}

/// basedpython: the exception set inferred for a function with no `raises`
/// clause, shown where the clause would be written.
pub open spec fn raises_hint(position: TextSize, raised: Seq<char>) -> InlayHintModel {
    hint_of(
        position,
        InlayHintKind::Raises,
        seq![plain_part("raises "@ + raised)],
        true,
        false,
    )
}

pub open spec fn variance_keyword(variance: Variance) -> Seq<char> {
    match variance {
        Variance::Covariant => "out"@,
        Variance::Contravariant => "in"@,
        Variance::Invariant => "in out"@,
    }
}

/// basedpython: the variance inferred for a type parameter that declares
/// none, shown where the keyword would be written.
pub open spec fn variance_hint(position: TextSize, variance: Variance) -> InlayHintModel {
    hint_of(
        position,
        InlayHintKind::Variance,
        seq![plain_part(variance_keyword(variance))],
        false,
        true,
    )
}

/// basedpython: a type parameter reified by a value-position use in the
/// body rather than by the keyword, shown where the keyword would go.
pub open spec fn reification_hint(position: TextSize) -> InlayHintModel {
    hint_of(position, InlayHintKind::Reification, seq![plain_part("reified"@)], false, true)
}

/// basedpython: a method that overrides a superclass member without saying
/// so, shown where the `override` modifier would be written.
pub open spec fn override_hint(position: TextSize, superclass: Option<NavigationTarget>) ->
    InlayHintModel {
    hint_of(
        position,
        InlayHintKind::Override,
        seq![PartModel { text: "override"@, target: superclass }],
        false,
        true,
    )
}

/// The first of `arguments` as a label lists them, each named when `named`.
pub open spec fn type_argument_parts(arguments: Seq<TypeArgument>, named: bool) -> Seq<PartModel>
    decreases arguments.len(),
{
    if arguments.len() == 0 {
        Seq::empty()
    } else {
        let before = type_argument_parts(arguments.drop_last(), named);
        let argument = arguments.last();
        let separated = if arguments.len() > 1 {
            before.push(plain_part(", "@))
        } else {
            before
        };
        let introduced = if named {
            separated.push(plain_part(argument.parameter@ + "="@))
        } else {
            separated
        };
        introduced.push(PartModel { text: argument.text@, target: argument.target })
    }
}

/// The type arguments inferred for a generic call, shown between the callee
/// and its argument list — where an explicit specialization would be written.
pub open spec fn type_arguments_hint(
    position: TextSize,
    arguments: Seq<TypeArgument>,
    named: bool,
) -> InlayHintModel {
    hint_of(
        position,
        InlayHintKind::TypeArgument,
        // a lone type parameter has nothing to disambiguate, so naming it would
        // be noise rather than orientation
        (seq![plain_part("["@)] + type_argument_parts(
            arguments,
            named && arguments.len() > 1,
        )).push(plain_part("]"@)),
        false,
        false,
    )
}

/// The first of `arguments` as a call would write them, after other arguments when
/// `leading_comma`.
pub open spec fn context_argument_parts(
    arguments: Seq<ContextArgument>,
    leading_comma: bool,
) -> Seq<PartModel>
    decreases arguments.len(),
{
    if arguments.len() == 0 {
        Seq::empty()
    } else {
        let before = context_argument_parts(arguments.drop_last(), leading_comma);
        let argument = arguments.last();
        let separated = if leading_comma || arguments.len() > 1 {
            before.push(plain_part(", "@))
        } else {
            before
        };
        separated.push(plain_part(argument.parameter@ + "="@)).push(
            PartModel { text: argument.variable@, target: argument.declaration },
        )
    }
}

/// basedpython: the arguments a call site fills implicitly from the
/// `context` declarations in scope, shown where the lowering writes them.
pub open spec fn context_arguments_hint(
    position: TextSize,
    leading_comma: bool,
    arguments: Seq<ContextArgument>,
) -> InlayHintModel {
    hint_of(
        position,
        InlayHintKind::ImplicitArgument,
        context_argument_parts(arguments, leading_comma),
        false,
        false,
    )
}

/// The name of the type parameter a positional type argument fills.
pub open spec fn type_argument_name_hint(position: TextSize, name: Seq<char>) -> InlayHintModel {
    hint_of(
        position,
        InlayHintKind::TypeArgument,
        seq![plain_part(name), plain_part("="@)],
        false,
        false,
    )
}

/// The arms the typing spec's numeric promotion adds to a `float` /
/// `complex` type expression.
///
/// `arms` is rendered without the space that separates the first `|` from
/// the operand written before it, because that space is the client's.
pub open spec fn promotion_hint(position: TextSize, arms: Seq<char>) -> InlayHintModel {
    hint_of(position, InlayHintKind::NumericPromotion, seq![plain_part(arms)], true, false)
}

/// The value an enum member takes without the source writing one, shown
/// after the declaration that leaves it out.
pub open spec fn enum_value_hint(position: TextSize, value: Seq<char>) -> InlayHintModel {
    hint_of(position, InlayHintKind::EnumValue, seq![plain_part(value)], true, false)
}

/// The type a `reveal_type` call reveals, shown at the end of its line.
///
/// `declared` is the wider type the revealed place was declared with, when the call read
/// something narrower than the declaration allows. Showing both makes the narrowing itself
/// visible, rather than only its result.
pub open spec fn revealed_hint(
    position: TextSize,
    revealed: Seq<char>,
    declared: Option<Seq<char>>,
) -> InlayHintModel {
    let label = match declared {
        Some(declared) => revealed + ", narrowed from "@ + declared,
        None => revealed,
    };
    hint_of(position, InlayHintKind::RevealedType, seq![plain_part(label)], true, false)
}

/// The first of `parameters` as a parameter list writes them.
pub open spec fn parameter_parts(parameters: Seq<ImplicitParameter>) -> Seq<PartModel>
    decreases parameters.len(),
{
    if parameters.len() == 0 {
        Seq::empty()
    } else {
        let before = parameter_parts(parameters.drop_last());
        let parameter = parameters.last();
        let separated = if parameters.len() > 1 {
            before.push(plain_part(", "@))
        } else {
            before
        };
        let named = separated.push(plain_part(parameter.name@));
        match parameter.ty {
            Some(ty) => named.push(plain_part(": "@ + ty@)),
            None => named,
        }
    }
}

/// The parameters a source never spells, shown where they would be written.
///
/// `leading_space` separates the hint from the character it sits after: one
/// written inside a parameter list abuts a `(` or a `,` that already spaces
/// it, but a trailing lambda's sits directly after the block's `:`.
///
/// `parameter_follows` says a written parameter comes next, so the hint ends
/// on the separator that keeps the list reading as source.
pub open spec fn implicit_parameters_hint(
    position: TextSize,
    parameters: Seq<ImplicitParameter>,
    leading_space: bool,
    parameter_follows: bool,
) -> InlayHintModel {
    hint_of(
        position,
        InlayHintKind::ImplicitParameter,
        if parameter_follows {
            parameter_parts(parameters).push(plain_part(","@))
        } else {
            parameter_parts(parameters)
        },
        leading_space,
        parameter_follows,
    )
}

/// basedpython: the return type recovered for a `def` that leaves its
/// annotation out, shown where the annotation would be written.
pub open spec fn return_hint(position: TextSize, returned: Seq<char>) -> InlayHintModel {
    hint_of(position, InlayHintKind::Type, seq![plain_part("-> "@ + returned)], true, false)
}

/// The type of a parameter the source leaves unannotated, shown where the
/// annotation would be written.
pub open spec fn parameter_type_hint(position: TextSize, ty: Seq<char>) -> InlayHintModel {
    hint_of(position, InlayHintKind::Type, seq![plain_part(": "@ + ty)], false, false)
}

/// What the parts of a label read as.
pub open spec fn parts_text(parts: Seq<PartModel>) -> Seq<char>
    decreases parts.len(),
{
    if parts.len() == 0 {
        Seq::empty()
    } else {
        parts_text(parts.drop_last()) + parts.last().text
    }
}

/// A hint as the client draws it, padding included.
pub open spec fn drawn(hint: InlayHintModel) -> Seq<char> {
    let left = if hint.padding_left {
        " "@
    } else {
        Seq::empty()
    };
    let right = if hint.padding_right {
        " "@
    } else {
        Seq::empty()
    };
    left + parts_text(hint.label) + right
}

/// Whether `text` is written, and neither starts nor ends with a space.
pub open spec fn is_tight(text: Seq<char>) -> bool {
    text.len() > 0 && text[0] != ' ' && text.last() != ' '
}

/// Whether what `hint` reads as neither starts nor ends with a space, so that every space beside
/// it is the client's padding.
pub open spec fn has_tight_label(hint: InlayHintModel) -> bool {
    is_tight(parts_text(hint.label))
}

proof fn lemma_parts_start(parts: Seq<PartModel>)
    requires
        parts.len() > 0,
        parts[0].text.len() > 0,
    ensures
        parts_text(parts).len() > 0,
        parts_text(parts)[0] == parts[0].text[0],
    decreases parts.len(),
{
    if parts.len() > 1 {
        assert(parts.drop_last()[0] == parts[0]);
        lemma_parts_start(parts.drop_last());
    } else {
        assert(parts_text(parts.drop_last()) =~= Seq::empty());
        assert(parts_text(parts) =~= parts[0].text);
    }
}

/// A label is tight whose first part starts and whose last part ends with something but a space.
pub(crate) proof fn lemma_tight_parts(parts: Seq<PartModel>)
    requires
        parts.len() > 0,
        parts[0].text.len() > 0,
        parts[0].text[0] != ' ',
        parts.last().text.len() > 0,
        parts.last().text.last() != ' ',
    ensures
        is_tight(parts_text(parts)),
{
    lemma_parts_start(parts);
    let text = parts.last().text;
    assert(parts_text(parts).last() == text.last());
}

pub(crate) proof fn lemma_tight_argument_name(
    position: TextSize,
    name: Seq<char>,
    target: Option<NavigationTarget>,
    editable: bool,
)
    requires
        is_tight(name),
    ensures
        has_tight_label(argument_name_hint(position, name, target, editable)),
{
    reveal_strlit("=");
    lemma_tight_parts(argument_name_hint(position, name, target, editable).label);
}

pub(crate) proof fn lemma_tight_raises(position: TextSize, raised: Seq<char>)
    requires
        is_tight(raised),
    ensures
        has_tight_label(raises_hint(position, raised)),
{
    reveal_strlit("raises ");
    lemma_tight_parts(raises_hint(position, raised).label);
}

pub(crate) proof fn lemma_tight_variance(position: TextSize, variance: Variance)
    ensures
        has_tight_label(variance_hint(position, variance)),
{
    reveal_strlit("out");
    reveal_strlit("in");
    reveal_strlit("in out");
    lemma_tight_parts(variance_hint(position, variance).label);
}

pub(crate) proof fn lemma_tight_reification(position: TextSize)
    ensures
        has_tight_label(reification_hint(position)),
{
    reveal_strlit("reified");
    lemma_tight_parts(reification_hint(position).label);
}

pub(crate) proof fn lemma_tight_override(
    position: TextSize,
    superclass: Option<NavigationTarget>,
)
    ensures
        has_tight_label(override_hint(position, superclass)),
{
    reveal_strlit("override");
    lemma_tight_parts(override_hint(position, superclass).label);
}

pub(crate) proof fn lemma_tight_type_arguments(
    position: TextSize,
    arguments: Seq<TypeArgument>,
    named: bool,
)
    ensures
        has_tight_label(type_arguments_hint(position, arguments, named)),
{
    reveal_strlit("[");
    reveal_strlit("]");
    lemma_tight_parts(type_arguments_hint(position, arguments, named).label);
}

proof fn lemma_context_parts_start(arguments: Seq<ContextArgument>, leading_comma: bool)
    requires
        arguments.len() > 0,
        is_tight(arguments[0].parameter@),
    ensures
        context_argument_parts(arguments, leading_comma).len() > 0,
        context_argument_parts(arguments, leading_comma)[0].text.len() > 0,
        context_argument_parts(arguments, leading_comma)[0].text[0] != ' ',
    decreases arguments.len(),
{
    reveal_strlit(", ");
    if arguments.len() > 1 {
        assert(arguments.drop_last()[0] == arguments[0]);
        lemma_context_parts_start(arguments.drop_last(), leading_comma);
    } else {
        assert(context_argument_parts(arguments.drop_last(), leading_comma).len() == 0);
    }
}

pub(crate) proof fn lemma_tight_context_arguments(
    position: TextSize,
    leading_comma: bool,
    arguments: Seq<ContextArgument>,
)
    requires
        arguments.len() > 0,
        forall|i: int|
            0 <= i < arguments.len() ==> is_tight((#[trigger] arguments[i]).parameter@)
                && is_tight(arguments[i].variable@),
    ensures
        has_tight_label(context_arguments_hint(position, leading_comma, arguments)),
{
    lemma_context_parts_start(arguments, leading_comma);
    assert(arguments[arguments.len() - 1] == arguments.last());
    lemma_tight_parts(context_arguments_hint(position, leading_comma, arguments).label);
}

pub(crate) proof fn lemma_tight_type_argument_name(position: TextSize, name: Seq<char>)
    requires
        is_tight(name),
    ensures
        has_tight_label(type_argument_name_hint(position, name)),
{
    reveal_strlit("=");
    lemma_tight_parts(type_argument_name_hint(position, name).label);
}

pub(crate) proof fn lemma_tight_text(position: TextSize, text: Seq<char>)
    requires
        is_tight(text),
    ensures
        has_tight_label(promotion_hint(position, text)),
        has_tight_label(enum_value_hint(position, text)),
{
    lemma_tight_parts(promotion_hint(position, text).label);
    lemma_tight_parts(enum_value_hint(position, text).label);
}

pub(crate) proof fn lemma_tight_revealed(
    position: TextSize,
    revealed: Seq<char>,
    declared: Option<Seq<char>>,
)
    requires
        is_tight(revealed),
        declared matches Some(declared) ==> is_tight(declared),
    ensures
        has_tight_label(revealed_hint(position, revealed, declared)),
{
    lemma_tight_parts(revealed_hint(position, revealed, declared).label);
}

/// Whether what is said of `parameter` is tight.
pub open spec fn is_tight_parameter(parameter: ImplicitParameter) -> bool {
    is_tight(parameter.name@) && (parameter.ty matches Some(ty) ==> is_tight(ty@))
}

proof fn lemma_parameter_parts_start(parameters: Seq<ImplicitParameter>)
    requires
        parameters.len() > 0,
        is_tight_parameter(parameters[0]),
    ensures
        parameter_parts(parameters).len() > 0,
        parameter_parts(parameters)[0].text == parameters[0].name@,
    decreases parameters.len(),
{
    if parameters.len() > 1 {
        assert(parameters.drop_last()[0] == parameters[0]);
        lemma_parameter_parts_start(parameters.drop_last());
    } else {
        assert(parameter_parts(parameters.drop_last()).len() == 0);
    }
}

pub(crate) proof fn lemma_tight_implicit_parameters(
    position: TextSize,
    parameters: Seq<ImplicitParameter>,
    leading_space: bool,
    parameter_follows: bool,
)
    requires
        parameters.len() > 0,
        forall|i: int| 0 <= i < parameters.len() ==> is_tight_parameter(#[trigger] parameters[i]),
    ensures
        has_tight_label(
            implicit_parameters_hint(position, parameters, leading_space, parameter_follows),
        ),
{
    reveal_strlit(",");
    lemma_parameter_parts_start(parameters);
    assert(is_tight_parameter(parameters[parameters.len() - 1]));
    lemma_tight_parts(
        implicit_parameters_hint(position, parameters, leading_space, parameter_follows).label,
    );
}

pub(crate) proof fn lemma_tight_return(position: TextSize, returned: Seq<char>)
    requires
        is_tight(returned),
    ensures
        has_tight_label(return_hint(position, returned)),
{
    reveal_strlit("-> ");
    lemma_tight_parts(return_hint(position, returned).label);
}

pub(crate) proof fn lemma_tight_parameter_type(position: TextSize, ty: Seq<char>)
    requires
        is_tight(ty),
    ensures
        has_tight_label(parameter_type_hint(position, ty)),
{
    reveal_strlit(": ");
    lemma_tight_parts(parameter_type_hint(position, ty).label);
}

fn push_part(parts: &mut Vec<InlayHintLabelPart>, part: InlayHintLabelPart)
    ensures
        part_models(final(parts)@) == part_models(old(parts)@).push(part@),
{
    parts.push(part);
    assert(part_models(parts@) =~= part_models(old(parts)@).push(part@));
}

fn push_text(parts: &mut Vec<InlayHintLabelPart>, text: &str)
    ensures
        part_models(final(parts)@) == part_models(old(parts)@).push(plain_part(text@)),
{
    push_part(parts, InlayHintLabelPart::new(text));
}

fn no_parts() -> (parts: Vec<InlayHintLabelPart>)
    ensures
        part_models(parts@) == Seq::<PartModel>::empty(),
{
    let parts: Vec<InlayHintLabelPart> = Vec::new();
    assert(part_models(parts@) =~= Seq::<PartModel>::empty());
    parts
}

/// A label of one part, which is `text`.
fn label_of(text: &str) -> (parts: Vec<InlayHintLabelPart>)
    ensures
        part_models(parts@) == seq![plain_part(text@)],
{
    let mut parts = no_parts();
    push_text(&mut parts, text);
    assert(part_models(parts@) =~= seq![plain_part(text@)]);
    parts
}

impl InlayHint {
    fn plain(
        position: TextSize,
        kind: InlayHintKind,
        parts: Vec<InlayHintLabelPart>,
        padding_left: bool,
        padding_right: bool,
    ) -> (hint: InlayHint)
        ensures
            hint@ == hint_of(
                position,
                kind,
                part_models(parts@),
                padding_left,
                padding_right,
            ),
    {
        let hint = InlayHint {
            position,
            kind,
            label: InlayHintLabel::of(parts),
            padding_left,
            padding_right,
            text_edits: Vec::new(),
        };
        assert(hint@.text_edits =~= Seq::empty());
        hint
    }

    /// The name of the parameter an argument fills, and, when `editable`, the edit that writes
    /// it.
    pub fn call_argument_name(
        position: TextSize,
        name: &str,
        navigation_target: Option<NavigationTarget>,
        editable: bool,
    ) -> (hint: InlayHint)
        ensures
            hint@ == argument_name_hint(position, name@, navigation_target, editable),
    {
        let mut parts = no_parts();
        push_part(&mut parts, InlayHintLabelPart::new(name).with_target(navigation_target));
        push_text(&mut parts, "=");
        let mut text_edits: Vec<InlayHintTextEdit> = Vec::new();
        if editable {
            let edit = InlayHintTextEdit {
                range: TextRange::empty(position),
                new_text: join2(name, "="),
            };
            text_edits.push(edit);
        }
        let hint = InlayHint {
            position,
            kind: InlayHintKind::CallArgumentName,
            label: InlayHintLabel::of(parts),
            padding_left: false,
            padding_right: false,
            text_edits,
        };
        proof {
            let model = argument_name_hint(position, name@, navigation_target, editable);
            assert(hint@.label =~= model.label);
            assert(hint@.text_edits =~= model.text_edits);
        }
        hint
    }

    pub fn inferred_raises(position: TextSize, raised: &str) -> (hint: InlayHint)
        ensures
            hint@ == raises_hint(position, raised@),
    {
        let label = join2("raises ", raised);
        InlayHint::plain(
            position,
            InlayHintKind::Raises,
            label_of(label.as_str()),
            true,
            false,
        )
    }

    pub fn inferred_variance(position: TextSize, variance: Variance) -> (hint: InlayHint)
        ensures
            hint@ == variance_hint(position, variance),
    {
        let keyword = match variance {
            Variance::Covariant => "out",
            Variance::Contravariant => "in",
            Variance::Invariant => "in out",
        };
        InlayHint::plain(position, InlayHintKind::Variance, label_of(keyword), false, true)
    }

    pub fn inferred_reification(position: TextSize) -> (hint: InlayHint)
        ensures
            hint@ == reification_hint(position),
    {
        InlayHint::plain(position, InlayHintKind::Reification, label_of("reified"), false, true)
    }

    pub fn inferred_override(position: TextSize, superclass: Option<NavigationTarget>) -> (hint:
        InlayHint)
        ensures
            hint@ == override_hint(position, superclass),
    {
        let mut parts = no_parts();
        push_part(&mut parts, InlayHintLabelPart::new("override").with_target(superclass));
        assert(part_models(parts@) =~= override_hint(position, superclass).label);
        InlayHint::plain(position, InlayHintKind::Override, parts, false, true)
    }

    pub fn call_type_arguments(
        position: TextSize,
        arguments: &Vec<TypeArgument>,
        named: bool,
    ) -> (hint: InlayHint)
        ensures
            hint@ == type_arguments_hint(position, arguments@, named),
    {
        let mut parts = no_parts();
        push_text(&mut parts, "[");
        let ghost start = part_models(parts@);
        let named = named && arguments.len() > 1;
        let mut i: usize = 0;
        assert(part_models(parts@) =~= start + type_argument_parts(arguments@.take(0), named));
        while i < arguments.len()
            invariant
                i <= arguments.len(),
                part_models(parts@) == start + type_argument_parts(
                    arguments@.take(i as int),
                    named,
                ),
            decreases arguments.len() - i,
        {
            assert(arguments@.take(i + 1).drop_last() =~= arguments@.take(i as int));
            assert(arguments@.take(i + 1).last() == arguments@[i as int]);
            let argument = &arguments[i];
            if i > 0 {
                push_text(&mut parts, ", ");
            }
            if named {
                let introduced = join2(argument.parameter.as_str(), "=");
                push_text(&mut parts, introduced.as_str());
            }
            push_part(
                &mut parts,
                InlayHintLabelPart::new(argument.text.as_str()).with_target(argument.target),
            );
            assert(part_models(parts@) =~= start + type_argument_parts(
                arguments@.take(i + 1),
                named,
            ));
            i += 1;
        }
        assert(arguments@.take(i as int) =~= arguments@);
        assert(start =~= seq![plain_part("["@)]);
        push_text(&mut parts, "]");
        InlayHint::plain(position, InlayHintKind::TypeArgument, parts, false, false)
    }

    pub fn implicit_context_arguments(
        position: TextSize,
        leading_comma: bool,
        arguments: &Vec<ContextArgument>,
    ) -> (hint: InlayHint)
        ensures
            hint@ == context_arguments_hint(position, leading_comma, arguments@),
    {
        let mut parts = no_parts();
        let mut i: usize = 0;
        assert(part_models(parts@) =~= context_argument_parts(arguments@.take(0), leading_comma));
        while i < arguments.len()
            invariant
                i <= arguments.len(),
                part_models(parts@) == context_argument_parts(
                    arguments@.take(i as int),
                    leading_comma,
                ),
            decreases arguments.len() - i,
        {
            assert(arguments@.take(i + 1).drop_last() =~= arguments@.take(i as int));
            assert(arguments@.take(i + 1).last() == arguments@[i as int]);
            let argument = &arguments[i];
            if leading_comma || i > 0 {
                push_text(&mut parts, ", ");
            }
            let introduced = join2(argument.parameter.as_str(), "=");
            push_text(&mut parts, introduced.as_str());
            push_part(
                &mut parts,
                InlayHintLabelPart::new(argument.variable.as_str()).with_target(
                    argument.declaration,
                ),
            );
            i += 1;
        }
        assert(arguments@.take(i as int) =~= arguments@);
        InlayHint::plain(position, InlayHintKind::ImplicitArgument, parts, false, false)
    }

    pub fn type_argument_name(position: TextSize, name: &str) -> (hint: InlayHint)
        ensures
            hint@ == type_argument_name_hint(position, name@),
    {
        let mut parts = no_parts();
        push_text(&mut parts, name);
        push_text(&mut parts, "=");
        assert(part_models(parts@) =~= type_argument_name_hint(position, name@).label);
        InlayHint::plain(position, InlayHintKind::TypeArgument, parts, false, false)
    }

    pub fn numeric_promotion(position: TextSize, arms: &str) -> (hint: InlayHint)
        ensures
            hint@ == promotion_hint(position, arms@),
    {
        InlayHint::plain(position, InlayHintKind::NumericPromotion, label_of(arms), true, false)
    }

    pub fn enum_member_value(position: TextSize, value: &str) -> (hint: InlayHint)
        ensures
            hint@ == enum_value_hint(position, value@),
    {
        InlayHint::plain(position, InlayHintKind::EnumValue, label_of(value), true, false)
    }

    pub fn revealed_type(
        position: TextSize,
        revealed: &str,
        declared: &Option<String>,
    ) -> (hint: InlayHint)
        ensures
            hint@ == revealed_hint(position, revealed@, crate::edit::text_in(*declared)),
    {
        let label = match declared {
            Some(declared) => join3(revealed, ", narrowed from ", declared.as_str()),
            None => owned(revealed),
        };
        InlayHint::plain(
            position,
            InlayHintKind::RevealedType,
            label_of(label.as_str()),
            true,
            false,
        )
    }

    pub fn implicit_parameters(
        position: TextSize,
        parameters: &Vec<ImplicitParameter>,
        leading_space: bool,
        parameter_follows: bool,
    ) -> (hint: InlayHint)
        ensures
            hint@ == implicit_parameters_hint(
                position,
                parameters@,
                leading_space,
                parameter_follows,
            ),
    {
        let mut parts = no_parts();
        let mut i: usize = 0;
        assert(part_models(parts@) =~= parameter_parts(parameters@.take(0)));
        while i < parameters.len()
            invariant
                i <= parameters.len(),
                part_models(parts@) == parameter_parts(parameters@.take(i as int)),
            decreases parameters.len() - i,
        {
            assert(parameters@.take(i + 1).drop_last() =~= parameters@.take(i as int));
            assert(parameters@.take(i + 1).last() == parameters@[i as int]);
            if i > 0 {
                push_text(&mut parts, ", ");
            }
            push_text(&mut parts, parameters[i].name.as_str());
            if let Some(ty) = &parameters[i].ty {
                let annotation = join2(": ", ty.as_str());
                push_text(&mut parts, annotation.as_str());
            }
            i += 1;
        }
        assert(parameters@.take(i as int) =~= parameters@);
        if parameter_follows {
            push_text(&mut parts, ",");
        }
        InlayHint::plain(
            position,
            InlayHintKind::ImplicitParameter,
            parts,
            leading_space,
            parameter_follows,
        )
    }

    pub fn inferred_return(position: TextSize, returned: &str) -> (hint: InlayHint)
        ensures
            hint@ == return_hint(position, returned@),
    {
        let label = join2("-> ", returned);
        InlayHint::plain(
            position,
            InlayHintKind::Type,
            label_of(label.as_str()),
            true,
            false,
        )
    }

    pub fn parameter_type(position: TextSize, ty: &str) -> (hint: InlayHint)
        ensures
            hint@ == parameter_type_hint(position, ty@),
    {
        let label = join2(": ", ty);
        InlayHint::plain(
            position,
            InlayHintKind::Type,
            label_of(label.as_str()),
            false,
            false,
        )
    }

    pub fn display(&self) -> (display: InlayHintDisplay<'_>)
        ensures
            display@ == self@,
    {
        InlayHintDisplay { inlay_hint: self }
    }
}

/// A hint, to be drawn.
#[derive(Debug)]
pub struct InlayHintDisplay<'a> {
    inlay_hint: &'a InlayHint,
}

impl<'a> View for InlayHintDisplay<'a> {
    type V = InlayHintModel;

    closed spec fn view(&self) -> InlayHintModel {
        self.inlay_hint@
    }
}

impl<'a> InlayHintDisplay<'a> {
    /// The hint as the client draws it, padding included, so that what is read here is
    /// what a reader of the file sees.
    pub fn text(&self) -> (text: String)
        ensures
            text@ == drawn(self@),
    {
        let parts = self.inlay_hint.label.parts();
        let ghost models = part_models(parts@);
        let mut text = if self.inlay_hint.padding_left {
            owned(" ")
        } else {
            String::new()
        };
        let ghost left = text@;
        assert(left =~= if self.inlay_hint.padding_left {
            " "@
        } else {
            Seq::empty()
        });
        let mut i: usize = 0;
        assert(text@ =~= left + parts_text(models.take(0)));
        while i < parts.len()
            invariant
                i <= parts.len(),
                models == part_models(parts@),
                text@ == left + parts_text(models.take(i as int)),
            decreases parts.len() - i,
        {
            assert(models.take(i + 1).drop_last() =~= models.take(i as int));
            assert(models.take(i + 1).last() == parts@[i as int]@);
            text.append(parts[i].text());
            assert(text@ =~= left + parts_text(models.take(i + 1)));
            i += 1;
        }
        assert(models.take(i as int) =~= models);
        if self.inlay_hint.padding_right {
            text.append(" ");
        }
        assert(text@ =~= drawn(self@));
        text
    }
}

/// Settings to control the behavior of inlay hints.
#[derive(Debug, Clone, Copy)]
pub struct InlayHintSettings {
    /// Whether to show variable type hints.
    ///
    /// For example, this would enable / disable hints like the ones quoted below:
    /// ```python
    /// x": Literal[1]" = 1
    /// ```
    pub variable_types: bool,
    /// Whether to show call argument names.
    ///
    /// For example, this would enable / disable hints like the ones quoted below:
    /// ```python
    /// def foo(x: int): pass
    /// foo("x="1)
    /// ```
    pub call_argument_names: bool,
    /// basedpython: whether to show the exception set inferred for a function
    /// that has no `raises` clause.
    ///
    /// For example, this would enable / disable hints like the one quoted below:
    /// ```by
    /// def f()" raises TypeError":
    ///     raise TypeError
    /// ```
    pub inferred_raises: bool,
    /// basedpython: whether to show the variance ty infers for a class type
    /// parameter that does not declare one.
    ///
    /// ```by
    /// class A["out "T]:
    ///     def get(self) -> T: ...
    /// ```
    pub inferred_variance: bool,
    /// basedpython: whether to show `reified` on a function type parameter that
    /// the body reifies without saying so.
    ///
    /// ```by
    /// def f["reified "T]():
    ///     print(T)
    /// ```
    pub inferred_reification: bool,
    /// Whether to show the type arguments inferred for a generic call.
    ///
    /// ```by
    /// def identity[T](x: T) -> T: ...
    /// identity"[int]"(1)
    /// ```
    pub call_type_arguments: bool,
    /// Whether to show the name of the type parameter a positional type
    /// argument fills.
    ///
    /// ```python
    /// x: dict["_KT="str, "_VT="int]
    /// ```
    pub type_argument_names: bool,
    /// basedpython: whether to show `override` on a method that overrides a
    /// superclass member without saying so.
    ///
    /// ```by
    /// class B(A):
    ///     "override "def f(self): ...
    /// ```
    pub inferred_override: bool,
    /// Whether to show the extra arms the typing spec's numeric promotion adds
    /// to `float` and `complex` in a type expression.
    ///
    /// ```python
    /// def f(x: float" | int"): ...
    /// ```
    pub numeric_promotions: bool,
    /// Whether to show the type a `reveal_type` call reveals, at the end of its
    /// line. A place declared wider than what the call read shows both types.
    ///
    /// ```python
    /// reveal_type(1)" Literal[1]"
    /// ```
    pub revealed_types: bool,
    /// basedpython: whether to show the parameters a trailing lambda binds but
    /// the source never spells — `it`, and the receiver spelled `self`.
    ///
    /// ```by
    /// f(2)"it: int":
    ///     print(it)
    /// ```
    pub implicit_parameters: bool,
    /// basedpython: whether to show the `self` an `init(...)` binds without
    /// spelling it.
    ///
    /// ```by
    /// class C:
    ///     init("self, "a: int)
    /// ```
    pub implicit_self: bool,
    /// Whether to show the inferred type of an unannotated lambda parameter.
    ///
    /// ```python
    /// map(lambda x": int": x + 1, [1])
    /// ```
    pub lambda_parameter_types: bool,
    /// basedpython: whether to show the type an unannotated parameter takes from
    /// the method it overrides or the overloads it implements.
    ///
    /// ```by
    /// class B(A):
    ///     def f(self, a": int"): ...
    /// ```
    pub inherited_parameter_types: bool,
    /// basedpython: whether to show the return type recovered for a `def` that
    /// leaves its annotation out.
    ///
    /// ```by
    /// def f()" -> 1":
    ///     return 1
    /// ```
    pub inferred_return_types: bool,
    /// basedpython: whether to show the arguments a call site fills implicitly
    /// from the `context` declarations in scope.
    ///
    /// ```by
    /// def f(context a: int): ...
    ///
    /// context b = 1
    /// f("a=b")
    /// ```
    pub implicit_arguments: bool,
    /// Whether to show the value an enum member takes without the source
    /// writing one.
    ///
    /// ```by
    /// enum class Color:
    ///     case Red" 1", Green" 2"
    /// ```
    pub enum_values: bool,
    /// django templates: whether to show the element type a `{% for %}` binding
    /// takes.
    ///
    /// ```django-html
    /// {% for book": Book" in shelf %}
    /// ```
    pub template_binding_types: bool,
    /// django templates: whether to show the file an `{% extends %}` or an
    /// `{% include %}` name resolves to.
    ///
    /// ```django-html
    /// {% include "card.html"" → blog/templates/blog/card.html" %}
    /// ```
    pub resolved_templates: bool,
    // add any new setting that enables additional inlays to `any_enabled`
}

impl InlayHintSettings {
    /// The settings where every hint is shown, or none is.
    pub open spec fn all_set(shown: bool) -> InlayHintSettings {
        InlayHintSettings {
            variable_types: shown,
            call_argument_names: shown,
            inferred_raises: shown,
            inferred_variance: shown,
            inferred_reification: shown,
            call_type_arguments: shown,
            type_argument_names: shown,
            inferred_override: shown,
            numeric_promotions: shown,
            revealed_types: shown,
            implicit_parameters: shown,
            implicit_self: shown,
            lambda_parameter_types: shown,
            inherited_parameter_types: shown,
            inferred_return_types: shown,
            implicit_arguments: shown,
            enum_values: shown,
            template_binding_types: shown,
            resolved_templates: shown,
        }
    }

    /// Every hint disabled — a base for enabling one kind at a time.
    pub fn none() -> (settings: Self)
        ensures
            settings == InlayHintSettings::all_set(false),
    {
        InlayHintSettings {
            variable_types: false,
            call_argument_names: false,
            inferred_raises: false,
            inferred_variance: false,
            inferred_reification: false,
            call_type_arguments: false,
            type_argument_names: false,
            inferred_override: false,
            numeric_promotions: false,
            revealed_types: false,
            implicit_parameters: false,
            implicit_self: false,
            lambda_parameter_types: false,
            inherited_parameter_types: false,
            inferred_return_types: false,
            implicit_arguments: false,
            enum_values: false,
            template_binding_types: false,
            resolved_templates: false,
        }
    }

    /// Whether any hint is shown.
    pub fn any_enabled(&self) -> (any: bool)
        ensures
            any == (*self != InlayHintSettings::all_set(false)),
    {
        self.variable_types || self.call_argument_names || self.inferred_raises
            || self.inferred_variance || self.inferred_reification || self.call_type_arguments
            || self.type_argument_names || self.inferred_override || self.numeric_promotions
            || self.revealed_types || self.implicit_parameters || self.implicit_self
            || self.lambda_parameter_types || self.inherited_parameter_types
            || self.inferred_return_types || self.implicit_arguments || self.enum_values
            || self.template_binding_types || self.resolved_templates
    }
}

impl Default for InlayHintSettings {
    fn default() -> (settings: Self)
        ensures
            settings == InlayHintSettings::all_set(true),
    {
        InlayHintSettings {
            variable_types: true,
            call_argument_names: true,
            inferred_raises: true,
            inferred_variance: true,
            inferred_reification: true,
            call_type_arguments: true,
            type_argument_names: true,
            inferred_override: true,
            numeric_promotions: true,
            revealed_types: true,
            implicit_parameters: true,
            implicit_self: true,
            lambda_parameter_types: true,
            inherited_parameter_types: true,
            inferred_return_types: true,
            implicit_arguments: true,
            enum_values: true,
            template_binding_types: true,
            resolved_templates: true,
        }
    }
}

} // verus!
