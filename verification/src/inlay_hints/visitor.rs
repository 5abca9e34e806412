//! Where a file gets hints.
//!
//! The tree is gone through in source order. What a node is hinted depends on where it stands,
//! which is handed down as a [`Mode`]; the hints of its parts are put one after the other. The
//! types of variables are only planned on the way, since what importing one takes depends on
//! what was imported for those before it.

use super::facts::{
    ArgumentName, CallFacts, EnumValue, FunctionFacts, HintFacts, ImplicitParameter,
    ImportActionModel, OverrideAnswer, Promotion, TypeArgument, TypeLabel, VariableType,
};
use super::imports::{DynamicImports, Symbol};
use super::matching::{
    annotations_are_valid_syntax, arg_matches_name, arguments_in, can_be_annotated, flatten_bit_or,
    flattened, has_synthesized_header, header_is_synthesized, is_excessive, is_ignored_target,
    is_ignored_variable_assignment_target, is_union, lemma_arguments_height,
    lemma_flattened_height, repeats_name, subscript_arguments, type_hint_is_excessive_for_expr,
    untyped_declaration_value, untyped_value,
};
use super::variable::{law_label_reads_as_the_type, variable_hint, Hinted};
use super::{
    argument_name_hint, context_arguments_hint, enum_value_hint, has_tight_label, hint_models,
    implicit_parameters_hint, is_tight, is_tight_parameter, lemma_tight_argument_name,
    lemma_tight_context_arguments, lemma_tight_implicit_parameters, lemma_tight_override,
    lemma_tight_parameter_type, lemma_tight_parts, lemma_tight_raises, lemma_tight_reification,
    lemma_tight_return, lemma_tight_revealed, lemma_tight_text, lemma_tight_type_argument_name,
    lemma_tight_type_arguments, lemma_tight_variance, override_hint, parameter_type_hint,
    promotion_hint, raises_hint, reification_hint, return_hint, revealed_hint,
    type_argument_name_hint, type_arguments_hint, variance_hint, InlayHint, InlayHintKind,
    InlayHintModel, InlayHintSettings,
};
use crate::edit::{text_in, File};
use crate::lookup::{find, found, holds, holds_text, lemma_found_in, texts, value_in};
use crate::node::{
    child_of, children_of, height, lemma_all_filling_in, lemma_first_filling_in,
    lemma_height_child, lemma_height_child_of, lemma_height_children_of, node_in, ExprContext,
    Field, Node, NodeKind,
};
use crate::source::{
    bytes_of, get_from, is_offset, is_source, line_end, line_end_of, text_from,
};
use crate::strings::{owned, same_text, trim_leading, without_leading};
use crate::text_size::{TextRange, TextSize};
use crate::tokens::{first_code, first_code_token, tokens_from, Token};
use vstd::prelude::*;
use vstd::string::StrSliceExecFns;

verus! {

broadcast use {lemma_height_child_of, lemma_height_children_of};

/// A file to be hinted, with what the type checker says of it.
#[derive(Debug)]
pub struct HintedFile {
    pub file: File,
    pub source: String,
    /// The module's statements.
    pub suite: Node,
    pub tokens: Vec<Token>,
    /// Several hints only exist in basedpython.
    pub is_basedpython: bool,
    pub facts: HintFacts,
}

/// What is hinted, and how.
#[derive(Clone, Copy)]
pub struct HintContext<'a> {
    pub file: &'a HintedFile,
    pub range: TextRange,
    pub settings: &'a InlayHintSettings,
}

/// The operand of a union in a type expression, and what the operands written beside it denote.
/// Read by numeric promotion, which adds nothing an operand already spells.
#[derive(Debug)]
pub struct Siblings {
    pub operand: TextRange,
    pub ids: Vec<u32>,
}

/// Where a node stands.
#[derive(Clone, Copy)]
pub struct Mode<'a, 'm> {
    /// What is assigned to the node.
    pub assignment_rhs: Option<&'a Node>,
    pub in_no_edits_allowed: bool,
    /// Whether we are inside a type expression, where `float` promotes and a
    /// subscript's arguments fill type parameters.
    pub in_type_expression: bool,
    /// Whether we are inside a `lambda`'s parameter list.
    pub in_lambda: bool,
    pub union_siblings: Option<&'m Siblings>,
    /// The class whose body we are directly inside, if any.
    pub enclosing_class: Option<u32>,
}

/// A [`Mode`] as a mathematical value.
pub ghost struct ModeModel {
    pub rhs: Option<Node>,
    pub no_edits: bool,
    pub in_type: bool,
    pub in_lambda: bool,
    pub siblings: Option<(TextRange, Seq<u32>)>,
    pub class: Option<u32>,
}

impl<'a, 'm> View for Mode<'a, 'm> {
    type V = ModeModel;

    open spec fn view(&self) -> ModeModel {
        ModeModel {
            rhs: node_in(self.assignment_rhs),
            no_edits: self.in_no_edits_allowed,
            in_type: self.in_type_expression,
            in_lambda: self.in_lambda,
            siblings: match self.union_siblings {
                Some(siblings) => Some((siblings.operand, siblings.ids@)),
                None => None,
            },
            class: self.enclosing_class,
        }
    }
}

/// Where a module's statements stand.
pub open spec fn top_mode() -> ModeModel {
    ModeModel {
        rhs: None,
        no_edits: false,
        in_type: false,
        in_lambda: false,
        siblings: None,
        class: None,
    }
}

/// A hint, or a variable to be hinted.
pub enum Planned<'a> {
    Hint(InlayHint),
    Variable { expr: &'a Node, rhs: &'a Node, allow_edits: bool },
}

/// A [`Planned`] as a mathematical value.
pub ghost enum PlannedModel {
    Hint(InlayHintModel),
    Variable { expr: Node, rhs: Node, allow_edits: bool },
}

impl<'a> View for Planned<'a> {
    type V = PlannedModel;

    open spec fn view(&self) -> PlannedModel {
        match self {
            Planned::Hint(hint) => PlannedModel::Hint(hint@),
            Planned::Variable { expr, rhs, allow_edits } => PlannedModel::Variable {
                expr: **expr,
                rhs: **rhs,
                allow_edits: *allow_edits,
            },
        }
    }
}

pub open spec fn planned_models(planned: Seq<Planned<'_>>) -> Seq<PlannedModel> {
    planned.map_values(|planned: Planned<'_>| planned@)
}

/// One hint.
pub open spec fn one(hint: InlayHintModel) -> Seq<PlannedModel> {
    seq![PlannedModel::Hint(hint)]
}

pub open spec fn none() -> Seq<PlannedModel> {
    Seq::empty()
}

/// Whether any of `node` is hinted: it meets the range that is.
pub open spec fn enters(cx: HintContext<'_>, node: TextRange) -> bool {
    let start = if cx.range.start >= node.start {
        cx.range.start
    } else {
        node.start
    };
    let end = if cx.range.end <= node.end {
        cx.range.end
    } else {
        node.end
    };
    start <= end
}

/// Where `child` of a node stands: an annotation is a type.
pub open spec fn mode_of_child(mode: ModeModel, child: Node) -> ModeModel {
    if child.field == Field::Annotation || child.field == Field::Returns || child.field
        == Field::Raises {
        ModeModel { in_type: true, ..mode }
    } else {
        mode
    }
}

/// Where what is inside a node stands that stands at `mode`, if that is a target: nothing in it
/// can be annotated.
pub open spec fn within(mode: ModeModel) -> ModeModel {
    ModeModel { no_edits: true, ..mode }
}

/// The hint of the type a name or attribute is bound to.
pub open spec fn variable_plan(cx: HintContext<'_>, expr: Node, mode: ModeModel) -> Seq<
    PlannedModel,
> {
    let stores = match expr.kind {
        NodeKind::ExprName { ctx, .. } => ctx == ExprContext::Store,
        NodeKind::ExprAttribute { ctx, .. } => ctx == ExprContext::Store,
        _ => false,
    };
    match mode.rhs {
        Some(rhs) => if stores && found(cx.file.facts.variables@, expr.id) is Some
            && cx.settings.variable_types && !is_ignored_target(expr) {
            seq![PlannedModel::Variable { expr, rhs, allow_edits: !mode.no_edits }]
        } else {
            none()
        },
        None => none(),
    }
}

/// The first of `promotions` of the expression `expr` beside `siblings`.
pub open spec fn promotion_of(promotions: Seq<Promotion>, expr: u32, siblings: Seq<u32>) -> Option<
    Seq<char>,
>
    decreases promotions.len(),
{
    if promotions.len() == 0 {
        None
    } else if promotions[0].expr == expr && promotions[0].siblings@ == siblings {
        Some(promotions[0].arms@)
    } else {
        promotion_of(promotions.skip(1), expr, siblings)
    }
}

/// The siblings of `expr`: they belong to one operand, so anything nested inside that operand —
/// the `float` of `list[float] | int` — sits in a union of its own and has none.
pub open spec fn siblings_of(mode: ModeModel, expr: Node) -> Seq<u32> {
    match mode.siblings {
        Some((operand, ids)) => if operand == expr.range {
            ids
        } else {
            Seq::empty()
        },
        None => Seq::empty(),
    }
}

/// The extra arms the typing spec's numeric promotion adds to a `float` / `complex` type
/// expression.
pub open spec fn promotion_plan(cx: HintContext<'_>, expr: Node, mode: ModeModel) -> Seq<
    PlannedModel,
> {
    if cx.settings.numeric_promotions && mode.in_type {
        match promotion_of(cx.file.facts.promotions@, expr.id, siblings_of(mode, expr)) {
            Some(arms) => one(promotion_hint(expr.range.end, arms)),
            None => none(),
        }
    } else {
        none()
    }
}

/// Those of the first `upto` of `operands` but `index` whose type is known.
pub open spec fn typed_beside(
    typed: Seq<u32>,
    operands: Seq<Node>,
    index: int,
    upto: int,
) -> Seq<u32>
    decreases upto,
{
    if upto <= 0 {
        Seq::empty()
    } else {
        let before = typed_beside(typed, operands, index, upto - 1);
        if upto - 1 != index && typed.contains(operands[upto - 1].id) {
            before.push(operands[upto - 1].id)
        } else {
            before
        }
    }
}

/// The names of the type parameters the arguments of `subscript` fill.
pub open spec fn type_argument_name_plan(cx: HintContext<'_>, subscript: Node) -> Seq<
    PlannedModel,
> {
    match (child_of(subscript, Field::Value), child_of(subscript, Field::Slice)) {
        (Some(value), Some(slice)) => match found(cx.file.facts.type_parameters@, value.id) {
            // a single type parameter has nothing to disambiguate, and a count
            // mismatch means a variadic generic with no fixed parameter per argument
            Some(names) => if cx.settings.type_argument_names && names.len() >= 2 && names.len()
                == arguments_in(slice).len() {
                names_of_arguments(names@, arguments_in(slice), names.len() as int)
            } else {
                none()
            },
            None => none(),
        },
        _ => none(),
    }
}

pub open spec fn names_of_arguments(
    names: Seq<String>,
    arguments: Seq<Node>,
    upto: int,
) -> Seq<PlannedModel>
    decreases upto,
{
    if upto <= 0 {
        none()
    } else {
        names_of_arguments(names, arguments, upto - 1).push(
            PlannedModel::Hint(
                type_argument_name_hint(arguments[upto - 1].range.start, names[upto - 1]@),
            ),
        )
    }
}

/// The values of `values` for the member `name` of `class`.
pub open spec fn enum_value_of(values: Seq<EnumValue>, class: u32, name: Seq<char>) -> Option<
    Seq<char>,
>
    decreases values.len(),
{
    if values.len() == 0 {
        None
    } else if values[0].class == class && values[0].name@ == name {
        text_in(values[0].value)
    } else {
        enum_value_of(values.skip(1), class, name)
    }
}

/// The value an enum member takes when its declaration does not write
/// one, at `position` — after `auto()`, or after a `case` variant's name.
pub open spec fn enum_value_plan(
    cx: HintContext<'_>,
    mode: ModeModel,
    name: Seq<char>,
    position: TextSize,
) -> Seq<PlannedModel> {
    match mode.class {
        Some(class) => match enum_value_of(cx.file.facts.enum_values@, class, name) {
            Some(value) => if cx.settings.enum_values {
                one(enum_value_hint(position, value))
            } else {
                none()
            },
            None => none(),
        },
        None => none(),
    }
}

/// Where the parameters of `function` end.
pub open spec fn parameters_end(function: Node) -> TextSize {
    match child_of(function, Field::Parameters) {
        Some(parameters) => parameters.range.end,
        None => function.range.start,
    }
}

/// basedpython: the return type recovered for a `def` that leaves its annotation out, where the
/// annotation would be written.
///
/// This comes before the `raises` hint, which sits in the same place when
/// there is no annotation, so the two read in the order they are written:
/// `def f() -> int raises TypeError`.
pub open spec fn return_plan(cx: HintContext<'_>, function: Node) -> Seq<PlannedModel> {
    let asserts = match function.kind {
        NodeKind::StmtFunctionDef { is_asserts_return, .. } => is_asserts_return,
        _ => false,
    };
    match found(cx.file.facts.functions@, function.id) {
        Some(facts) => match facts.returned {
            Some(returned) => if cx.settings.inferred_return_types && child_of(
                function,
                Field::Returns,
            ) is None && !asserts {
                one(return_hint(parameters_end(function), returned@))
            } else {
                none()
            },
            None => none(),
        },
        None => none(),
    }
}

/// basedpython: the exception set of a function with no `raises` clause.
///
/// The hint sits where the clause would be written — after the return
/// annotation, before the `:` — so accepting it reads as ordinary source.
pub open spec fn raises_plan(cx: HintContext<'_>, function: Node) -> Seq<PlannedModel> {
    match found(cx.file.facts.functions@, function.id) {
        Some(facts) => match facts.raises {
            Some(raised) => if cx.settings.inferred_raises && child_of(
                function,
                Field::Raises,
            ) is None {
                one(
                    raises_hint(
                        match child_of(function, Field::Returns) {
                            Some(returned) => returned.range.end,
                            None => parameters_end(function),
                        },
                        raised@,
                    ),
                )
            } else {
                none()
            },
            None => none(),
        },
        None => none(),
    }
}

/// The type parameters of `owner`.
pub open spec fn type_params_of(owner: Node) -> Seq<Node> {
    match child_of(owner, Field::TypeParams) {
        Some(type_params) => type_params.children@,
        None => Seq::empty(),
    }
}

/// basedpython: `reified` on each of `type_params` that a value-position use in the body reifies
/// without saying so. The hint goes where the keyword would be written, which is ahead of
/// everything the parameter's own declaration spells.
pub open spec fn reified_among(reified: Seq<Seq<char>>, type_params: Seq<Node>) -> Seq<
    PlannedModel,
>
    decreases type_params.len(),
{
    if type_params.len() == 0 {
        none()
    } else {
        let before = reified_among(reified, type_params.drop_last());
        match type_params.last().kind {
            NodeKind::TypeParam { name, .. } => if reified.contains(name@) {
                before.push(
                    PlannedModel::Hint(reification_hint(type_params.last().range.start)),
                )
            } else {
                before
            },
            _ => before,
        }
    }
}

pub open spec fn reification_plan(cx: HintContext<'_>, function: Node) -> Seq<PlannedModel> {
    match found(cx.file.facts.functions@, function.id) {
        Some(facts) => if cx.settings.inferred_reification && cx.file.is_basedpython {
            reified_among(texts(facts.reified@), type_params_of(function))
        } else {
            none()
        },
        None => none(),
    }
}

/// The variances inferred for those of `type_params` that do not declare one.
pub open spec fn variances_among(
    variances: Seq<(u32, super::Variance)>,
    type_params: Seq<Node>,
) -> Seq<PlannedModel>
    decreases type_params.len(),
{
    if type_params.len() == 0 {
        none()
    } else {
        let before = variances_among(variances, type_params.drop_last());
        let type_param = type_params.last();
        match type_param.kind {
            NodeKind::TypeParam { has_variance, .. } => match found(variances, type_param.id) {
                Some(variance) => if has_variance {
                    before
                } else {
                    before.push(
                        PlannedModel::Hint(variance_hint(type_param.range.start, variance)),
                    )
                },
                None => before,
            },
            _ => before,
        }
    }
}

/// basedpython: the variance ty infers for each type parameter of `owner` that does not declare
/// one.
pub open spec fn variance_plan(cx: HintContext<'_>, owner: Node) -> Seq<PlannedModel> {
    if cx.settings.inferred_variance && cx.file.is_basedpython {
        variances_among(cx.file.facts.variances@, type_params_of(owner))
    } else {
        none()
    }
}

/// The first of `answers` for `function` of `class`.
pub open spec fn override_of(answers: Seq<OverrideAnswer>, function: u32, class: u32) -> Option<
    OverrideAnswer,
>
    decreases answers.len(),
{
    if answers.len() == 0 {
        None
    } else if answers[0].function == function && answers[0].class == class {
        Some(answers[0])
    } else {
        override_of(answers.skip(1), function, class)
    }
}

/// Whether `decorator` is written as one, with an `@`. A modifier's keyword makes one that is not.
pub open spec fn is_written_decorator(source: Seq<char>, decorator: Node) -> bool {
    let start = decorator.range.start as int;
    start < bytes_of(source).len() && bytes_of(source)[start] == 0x40
}

/// The last of `decorators` that is written as one.
pub open spec fn last_written(source: Seq<char>, decorators: Seq<Node>) -> Option<Node>
    decreases decorators.len(),
{
    if decorators.len() == 0 {
        None
    } else if is_written_decorator(source, decorators.last()) {
        Some(decorators.last())
    } else {
        last_written(source, decorators.drop_last())
    }
}

/// Where a modifier of `function` would be written: where the definition starts, or where it goes
/// on after its decorators.
pub open spec fn modifier_position(file: HintedFile, function: Node) -> TextSize {
    match last_written(file.source@, children_of(function, Field::Decorator)) {
        Some(decorator) => match first_code(
            tokens_from(file.tokens@, decorator.range.end as int),
        ) {
            Some(token) => token.start,
            None => function.range.start,
        },
        None => function.range.start,
    }
}

/// basedpython: `override` on a method that overrides a superclass member without saying so. It
/// stands where the modifier would be written, which on a decorated method is after the
/// decorators.
pub open spec fn override_plan(cx: HintContext<'_>, function: Node, mode: ModeModel) -> Seq<
    PlannedModel,
> {
    match mode.class {
        Some(class) => match override_of(cx.file.facts.overrides@, function.id, class) {
            Some(answer) => if cx.settings.inferred_override && cx.file.is_basedpython {
                one(
                    override_hint(modifier_position(*cx.file, function), answer.superclass),
                )
            } else {
                none()
            },
            None => none(),
        },
        None => none(),
    }
}

/// One past `at`.
pub open spec fn past(at: TextSize) -> TextSize {
    if at < u32::MAX {
        (at + 1) as u32
    } else {
        at
    }
}

/// basedpython: the parameters a trailing lambda block binds — `it`,
/// preceded by the receiver spelled `self` when the callback declares one.
///
/// The parser anchors the synthetic parameter *on* the block's `:`, but the
/// binding belongs to the suite that opens after it, so the hint sits past
/// the colon rather than between the callee and it.
pub open spec fn trailing_lambda_plan(cx: HintContext<'_>, function: Node) -> Seq<PlannedModel> {
    let bytes = bytes_of(cx.file.source@);
    match child_of(function, Field::Parameters) {
        Some(parameters) => match child_of(parameters, Field::Parameter) {
            Some(parameter) => match found(cx.file.facts.functions@, function.id) {
                Some(facts) => {
                    let colon = parameter.range.start;
                    if cx.settings.implicit_parameters && colon < bytes.len() && bytes[colon as int]
                        == 0x3a && facts.implicit_parameters.len() > 0 {
                        one(
                            implicit_parameters_hint(
                                past(colon),
                                facts.implicit_parameters@,
                                true,
                                false,
                            ),
                        )
                    } else {
                        none()
                    }
                },
                None => none(),
            },
            None => none(),
        },
        None => none(),
    }
}

/// Whether a parameter of the same list is written after `position`, so an
/// implicit one placed there needs a separator to read as source.
pub open spec fn another_follows(source: Seq<char>, position: int) -> bool {
    let rest = without_leading(text_from(source, position));
    is_offset(source, position) && !(rest.len() > 0 && (rest[0] == ')' || rest[0] == ','))
}

/// The text of a parameter: up to its annotation's end, not its default's.
pub open spec fn written_parameter(parameter: Node) -> TextRange {
    let name_end = match parameter.kind {
        NodeKind::Parameter { name_range, .. } => name_range.end,
        _ => parameter.range.end,
    };
    TextRange {
        start: parameter.range.start,
        end: match child_of(parameter, Field::Annotation) {
            Some(annotation) => annotation.outer.end,
            None => name_end,
        },
    }
}

/// basedpython: the `self` an `init(...)` binds without spelling it.
/// The parser gives such a parameter an empty range at the position it
/// would occupy.
///
/// A property accessor binds one too, but its whole header is synthesized
/// and skipped before this is reached — the construct is hinted at its
/// head instead.
pub open spec fn implicit_self_plan(cx: HintContext<'_>, parameter: Node) -> Seq<PlannedModel> {
    let range = written_parameter(parameter);
    match parameter.kind {
        NodeKind::Parameter { name, .. } => if cx.settings.implicit_self && cx.file.is_basedpython
            && range.start == range.end {
            one(
                super::hint_of(
                    range.start,
                    InlayHintKind::ImplicitParameter,
                    implicit_self_label(
                        name@,
                        implicit_self_type(cx, parameter),
                        another_follows(cx.file.source@, range.start as int),
                    ),
                    false,
                    another_follows(cx.file.source@, range.start as int),
                ),
            )
        } else {
            none()
        },
        _ => none(),
    }
}

pub open spec fn implicit_self_type(cx: HintContext<'_>, parameter: Node) -> Option<Seq<char>> {
    match found(cx.file.facts.parameter_types@, parameter.id) {
        Some(ty) => Some(ty@),
        None => None,
    }
}

/// A lone parameter, as a parameter list writes it.
pub open spec fn implicit_self_label(
    name: Seq<char>,
    ty: Option<Seq<char>>,
    parameter_follows: bool,
) -> Seq<super::PartModel> {
    let named = seq![super::plain_part(name)];
    let typed = match ty {
        Some(ty) => named.push(super::plain_part(": "@ + ty)),
        None => named,
    };
    if parameter_follows {
        typed.push(super::plain_part(","@))
    } else {
        typed
    }
}

/// The type of a parameter its list leaves out.
pub open spec fn parameter_type_plan(
    shown: bool,
    types: Seq<(u32, String)>,
    parameter: Node,
) -> Seq<PlannedModel> {
    let range = written_parameter(parameter);
    match parameter.kind {
        NodeKind::Parameter { name_range, .. } => match found(types, parameter.id) {
            Some(ty) => if shown && child_of(parameter, Field::Annotation) is None && range.start
                != range.end {
                one(parameter_type_hint(name_range.end, ty@))
            } else {
                none()
            },
            None => none(),
        },
        _ => none(),
    }
}

/// The hints of a parameter itself. A lambda's parameters are typed from the call site, those of
/// a `def` from the method it overrides or the overloads it implements.
pub open spec fn parameter_plan(cx: HintContext<'_>, parameter: Node, mode: ModeModel) -> Seq<
    PlannedModel,
> {
    implicit_self_plan(cx, parameter) + parameter_type_plan(
        cx.settings.lambda_parameter_types && mode.in_lambda,
        cx.file.facts.parameter_types@,
        parameter,
    ) + parameter_type_plan(
        cx.settings.inherited_parameter_types && !mode.in_lambda,
        cx.file.facts.inherited_types@,
        parameter,
    )
}

/// The arguments of `call`, in source order.
pub open spec fn call_arguments(call: Node) -> Seq<Node> {
    match child_of(call, Field::Arguments) {
        Some(arguments) => arguments.children@,
        None => Seq::empty(),
    }
}

pub proof fn lemma_call_arguments_height(call: Node, i: int)
    requires
        0 <= i < call_arguments(call).len(),
    ensures
        height(call_arguments(call)[i]) < height(call),
{
    lemma_height_child_of(call, Field::Arguments);
    let arguments = child_of(call, Field::Arguments)->0;
    lemma_height_child(arguments, i);
}

/// How many of the first `upto` of `arguments` are positional.
pub open spec fn positional_before(arguments: Seq<Node>, upto: int) -> int
    decreases upto,
{
    if upto <= 0 {
        0
    } else if arguments[upto - 1].kind is Keyword {
        positional_before(arguments, upto - 1)
    } else {
        positional_before(arguments, upto - 1) + 1
    }
}

/// The name shown for argument `i`. Names are kept by the index among positional arguments, not
/// by the one in source order.
pub open spec fn name_shown(
    cx: HintContext<'_>,
    names: Seq<(u32, ArgumentName)>,
    arguments: Seq<Node>,
    i: int,
) -> Option<ArgumentName> {
    let index = positional_before(arguments, i);
    if arguments[i].kind is Keyword || index > u32::MAX || !cx.settings.call_argument_names {
        None
    } else {
        match found(names, index as u32) {
            Some(name) => if repeats_name(arguments[i], name.name@) || (name.name@.len() > 0
                && name.name@[0] == '_') {
                None
            } else {
                Some(name)
            },
            None => None,
        }
    }
}

/// Whether `argument` could be passed by keyword just by writing the name before it: not what is
/// unpacked, nor a `:=` or a generator that stands bare in the call, and where parentheses are
/// around it the name would go inside them.
pub open spec fn takes_name(argument: Node) -> bool {
    argument.outer == argument.range && match argument.kind {
        NodeKind::ExprStarred | NodeKind::ExprNamed => false,
        NodeKind::ExprGenerator { parenthesized } => parenthesized,
        _ => true,
    }
}

/// Whether an edit could write the name shown for argument `i`.
pub open spec fn is_editable(
    cx: HintContext<'_>,
    names: Seq<(u32, ArgumentName)>,
    arguments: Seq<Node>,
    i: int,
) -> bool {
    name_shown(cx, names, arguments, i) is Some && takes_name(arguments[i])
}

/// The last positional one of the first `upto` of `arguments`, when an edit could write its name.
/// Only that gets one: a positional argument cannot follow a keyword, though what is unpacked can.
pub open spec fn last_editable(
    cx: HintContext<'_>,
    names: Seq<(u32, ArgumentName)>,
    arguments: Seq<Node>,
    upto: int,
) -> Option<int>
    decreases upto,
{
    if upto <= 0 {
        None
    } else if arguments[upto - 1].kind is Keyword || arguments[upto - 1].kind is ExprStarred {
        last_editable(cx, names, arguments, upto - 1)
    } else if is_editable(cx, names, arguments, upto - 1) {
        Some(upto - 1)
    } else {
        None
    }
}

/// What is known of `call`: of a string tag's argument, which is the abutting literal, and of a
/// `cast` operator's, which are its own surface syntax, nothing that a reader passed.
pub open spec fn passes_arguments(call: Node) -> bool {
    match call.kind {
        NodeKind::ExprCall { is_cast, is_string_tag } => !is_cast && !is_string_tag,
        _ => false,
    }
}

/// The names of the parameters the arguments of `call` fill.
pub open spec fn argument_names_of(cx: HintContext<'_>, call: Node) -> Seq<(u32, ArgumentName)> {
    match found(cx.file.facts.calls@, call.id) {
        Some(facts) => if passes_arguments(call) {
            facts.argument_names@
        } else {
            Seq::empty()
        },
        None => Seq::empty(),
    }
}

/// The hint of the name of argument `i`.
pub open spec fn argument_name_plan(
    cx: HintContext<'_>,
    names: Seq<(u32, ArgumentName)>,
    arguments: Seq<Node>,
    i: int,
) -> Seq<PlannedModel> {
    match name_shown(cx, names, arguments, i) {
        Some(name) => one(
            argument_name_hint(
                arguments[i].range.start,
                name.name@,
                name.target,
                last_editable(cx, names, arguments, arguments.len() as int) == Some(i),
            ),
        ),
        None => none(),
    }
}

/// Whether nothing is known of any of `arguments`.
pub open spec fn all_unknown(arguments: Seq<TypeArgument>) -> bool {
    forall|i: int| 0 <= i < arguments.len() ==> (#[trigger] arguments[i]).is_unknown
}

/// Whether a rendered type argument should name the parameter it fills.
///
/// Only in a `.by` file: `A[Key=str]` is basedpython's keyword subscript,
/// and a hint is read as source — python's subscript grammar has no keyword
/// form, so naming there would spell something unwritable.
pub open spec fn names_arguments(cx: HintContext<'_>) -> bool {
    cx.settings.type_argument_names && cx.file.is_basedpython
}

/// The positional ones of `arguments`.
pub open spec fn positional_of(arguments: Seq<Node>) -> Seq<Node>
    decreases arguments.len(),
{
    if arguments.len() == 0 {
        Seq::empty()
    } else if arguments.last().kind is Keyword {
        positional_of(arguments.drop_last())
    } else {
        positional_of(arguments.drop_last()).push(arguments.last())
    }
}

/// The type a `reveal_type` call reveals, at the end of its line.
pub open spec fn revealed_plan(cx: HintContext<'_>, call: Node) -> Seq<PlannedModel> {
    let positional = positional_of(call_arguments(call));
    let source = cx.file.source@;
    if positional.len() == 1 && cx.settings.revealed_types && is_offset(
        source,
        call.range.end as int,
    ) {
        match found(cx.file.facts.revealed@, positional[0].id) {
            Some(revealed) => one(
                revealed_hint(
                    line_end_of(source, call.range.end as int) as u32,
                    revealed.ty@,
                    text_in(revealed.declared),
                ),
            ),
            None => none(),
        }
    } else {
        none()
    }
}

/// The type arguments inferred for a generic call. An explicit specialization is already written
/// out, and a call whose type arguments all went unsolved says nothing worth reading.
pub open spec fn type_arguments_plan(cx: HintContext<'_>, call: Node, facts: CallFacts) -> Seq<
    PlannedModel,
> {
    match child_of(call, Field::Func) {
        Some(func) => if cx.settings.call_type_arguments && passes_arguments(call)
            && facts.type_arguments.len() > 0 && !(func.kind is ExprSubscript) && !all_unknown(
            facts.type_arguments@,
        ) {
            one(type_arguments_hint(func.range.end, facts.type_arguments@, names_arguments(cx)))
        } else {
            none()
        },
        None => none(),
    }
}

/// basedpython: the arguments a call site fills implicitly from the
/// `context` declarations in scope, written where the lowering writes them
/// — after the explicit arguments, by keyword. An empty call takes the position just inside its
/// `(`.
pub open spec fn context_arguments_plan(cx: HintContext<'_>, call: Node, facts: CallFacts) -> Seq<
    PlannedModel,
> {
    let explicit = call_arguments(call);
    match child_of(call, Field::Arguments) {
        Some(arguments) => if cx.settings.implicit_arguments && cx.file.is_basedpython
            && facts.context_arguments.len() > 0 {
            one(
                context_arguments_hint(
                    if explicit.len() > 0 {
                        explicit.last().range.end
                    } else {
                        past(arguments.range.start)
                    },
                    explicit.len() > 0,
                    facts.context_arguments@,
                ),
            )
        } else {
            none()
        },
        None => none(),
    }
}

/// The hints of a call itself. `reveal_type`'s own type argument *is* the revealed type, which
/// the hint of that already spells out.
pub open spec fn call_plan(cx: HintContext<'_>, call: Node) -> Seq<PlannedModel> {
    match found(cx.file.facts.calls@, call.id) {
        Some(facts) => (if facts.reveals_type {
            revealed_plan(cx, call)
        } else {
            type_arguments_plan(cx, call, facts)
        }) + context_arguments_plan(cx, call, facts),
        None => none(),
    }
}

/// What is passed by `argument`.
pub open spec fn passed(argument: Node) -> Option<Node> {
    if argument.kind is Keyword {
        child_of(argument, Field::Value)
    } else {
        Some(argument)
    }
}

pub proof fn lemma_passed_height(argument: Node)
    ensures
        passed(argument) matches Some(value) ==> height(value) <= height(argument),
{
    lemma_height_child_of(argument, Field::Value);
}

/// The hints of `node`.
pub open spec fn visited(cx: HintContext<'_>, node: Node, mode: ModeModel) -> Seq<PlannedModel>
    decreases height(node), 2int, 0int,
{
    match node.kind {
        NodeKind::Module | NodeKind::Suite => visited_children(
            cx,
            node,
            node.children@.len() as int,
            mode,
        ),
        NodeKind::StmtAssign => if enters(cx, node.range) {
            visited_assign(cx, node, mode)
        } else {
            none()
        },
        NodeKind::StmtAnnAssign { .. } => if enters(cx, node.range) {
            visited_declaration(cx, node, mode)
        } else {
            none()
        },
        NodeKind::StmtExpr => if enters(cx, node.range) {
            visited_field(cx, node, Field::Value, mode)
        } else {
            none()
        },
        NodeKind::StmtFunctionDef { .. } => if enters(cx, node.range) {
            visited_function(cx, node, mode)
        } else {
            none()
        },
        NodeKind::StmtClassDef { .. } => if enters(cx, node.range) {
            visited_class(cx, node, mode)
        } else {
            none()
        },
        NodeKind::StmtTypeAlias => if enters(cx, node.range) {
            visited_alias(cx, node, mode)
        } else {
            none()
        },
        NodeKind::ExprName { .. } | NodeKind::ExprAttribute { .. } => variable_plan(
            cx,
            node,
            mode,
        ) + promotion_plan(cx, node, mode) + walked_children(cx, node, within(mode)),
        // every parameter below a lambda belongs to a lambda
        NodeKind::ExprLambda => walked_children(cx, node, ModeModel { in_lambda: true, ..mode }),
        // a union in a type expression, written either way. each of its operands knows what the
        // others already spell
        NodeKind::ExprBinOp { op } => if mode.in_type && op == crate::node::Operator::BitOr {
            if enters(cx, node.range) {
                visited_operands(
                    cx,
                    flattened(node),
                    flattened(node).len() as int,
                    mode,
                    height(node),
                )
            } else {
                none()
            }
        } else {
            walked_children(cx, node, mode)
        },
        NodeKind::ExprSubscript { .. } => if mode.in_type {
            visited_subscript(cx, node, mode)
        } else {
            walked_children(cx, node, mode)
        },
        NodeKind::ExprCall { .. } => call_plan(cx, node) + visited_field(
            cx,
            node,
            Field::Func,
            mode,
        ) + visited_arguments(cx, node, call_arguments(node).len() as int, mode),
        NodeKind::Parameter { .. } => if enters(cx, node.range) {
            visited_parameter(cx, node, mode)
        } else {
            none()
        },
        _ => walked_children(cx, node, mode),
    }
}

/// Where the target of a binding to `value` stands.
pub open spec fn bound_to(mode: ModeModel, value: Node, no_edits: bool) -> ModeModel {
    ModeModel {
        rhs: if is_excessive(value) {
            mode.rhs
        } else {
            Some(value)
        },
        no_edits,
        ..mode
    }
}

/// The hints of an annotated assignment. A declaration that names no type is hinted like the
/// assignment it is — the type goes where the declaration would write it, after the name.
pub open spec fn visited_declaration(cx: HintContext<'_>, node: Node, mode: ModeModel) -> Seq<
    PlannedModel,
>
    decreases height(node), 1int, 0int,
{
    match untyped_value(node) {
        Some(value) => visited_filling(
            cx,
            node,
            Field::Decorator,
            children_of(node, Field::Decorator).len() as int,
            mode,
        ) + visited_field(cx, node, Field::Target, bound_to(mode, value, mode.no_edits))
            + visited_field(cx, node, Field::Value, ModeModel { rhs: None, ..mode }),
        None => visited_children(cx, node, node.children@.len() as int, mode),
    }
}

/// The hints of a function.
pub open spec fn visited_function(cx: HintContext<'_>, node: Node, mode: ModeModel) -> Seq<
    PlannedModel,
>
    decreases height(node), 1int, 0int,
{
    let is_lambda = match node.kind {
        NodeKind::StmtFunctionDef { is_trailing_lambda, .. } => is_trailing_lambda,
        _ => false,
    };
    // a function nested in a method is not itself a class member
    let inside = ModeModel { class: None, ..mode };
    if is_lambda {
        // the whole header is synthetic — the callee rides on a
        // decorator and the `it` parameter has no source of its own —
        // so only the two parts that are real are gone into
        trailing_lambda_plan(cx, node) + visited_filling(
            cx,
            node,
            Field::Decorator,
            children_of(node, Field::Decorator).len() as int,
            mode,
        ) + visited_field(cx, node, Field::Body, inside)
    } else if header_is_synthesized(node) {
        // a property accessor's whole header is synthesized — the
        // parameter list stands for no source and the name and declared type
        // belong to the construct's head, which is written once and hinted
        // there — so only the accessor body is real
        visited_field(cx, node, Field::Body, inside)
    } else {
        return_plan(cx, node) + raises_plan(cx, node) + reification_plan(cx, node)
            + override_plan(cx, node, mode) + visited_children(
            cx,
            node,
            node.children@.len() as int,
            inside,
        )
    }
}

/// The value hinted for a class that is a member of an enum: a `case` variant is a member
/// declaration with nowhere to write a value, so it goes after the name — `case Red 1, Green 2`.
pub open spec fn variant_plan(cx: HintContext<'_>, class: Node, mode: ModeModel) -> Seq<
    PlannedModel,
> {
    match class.kind {
        NodeKind::StmtClassDef { name, is_enum_variant, .. } => if is_enum_variant {
            enum_value_plan(cx, mode, name@, class.range.end)
        } else {
            none()
        },
        _ => none(),
    }
}

/// The hints of a class.
pub open spec fn visited_class(cx: HintContext<'_>, node: Node, mode: ModeModel) -> Seq<
    PlannedModel,
>
    decreases height(node), 1int, 0int,
{
    let class = if cx.file.facts.classes@.contains(node.id) {
        Some(node.id)
    } else {
        None
    };
    variance_plan(cx, node) + variant_plan(cx, node, mode) + visited_children(
        cx,
        node,
        node.children@.len() as int,
        ModeModel { class, ..mode },
    )
}

/// The hints of a type alias.
pub open spec fn visited_alias(cx: HintContext<'_>, node: Node, mode: ModeModel) -> Seq<
    PlannedModel,
>
    decreases height(node), 1int, 0int,
{
    variance_plan(cx, node) + visited_field(cx, node, Field::Name, mode) + visited_field(
        cx,
        node,
        Field::TypeParams,
        mode,
    ) + visited_field(cx, node, Field::Value, ModeModel { in_type: true, ..mode })
}

/// The hints of a subscript in a type expression.
pub open spec fn visited_subscript(cx: HintContext<'_>, node: Node, mode: ModeModel) -> Seq<
    PlannedModel,
>
    decreases height(node), 1int, 1int,
{
    let is_union_form = child_of(node, Field::Value) matches Some(value)
        && cx.file.facts.unions@.contains(value.id);
    if is_union_form {
        if enters(cx, node.range) {
            type_argument_name_plan(cx, node) + visited_field(cx, node, Field::Value, mode)
                + match child_of(node, Field::Slice) {
                Some(slice) => visited_operands(
                    cx,
                    arguments_in(slice),
                    arguments_in(slice).len() as int,
                    mode,
                    height(node),
                ),
                None => none(),
            }
        } else {
            none()
        }
    } else {
        type_argument_name_plan(cx, node) + walked_children(cx, node, mode)
    }
}

/// The hints of a parameter that is written.
pub open spec fn visited_parameter(cx: HintContext<'_>, node: Node, mode: ModeModel) -> Seq<
    PlannedModel,
>
    decreases height(node), 1int, 0int,
{
    (if enters(cx, written_parameter(node)) {
        parameter_plan(cx, node, mode) + visited_field(
            cx,
            node,
            Field::Annotation,
            ModeModel { in_type: true, ..mode },
        )
    } else {
        none()
    }) + visited_field(cx, node, Field::Default, mode)
}

/// The value hinted for a member of an enum that an assignment declares. It goes where `auto()`
/// stands in for it.
pub open spec fn assigned_value_plan(
    cx: HintContext<'_>,
    node: Node,
    value: Node,
    mode: ModeModel,
) -> Seq<PlannedModel> {
    let targets = children_of(node, Field::Target);
    if targets.len() == 1 {
        match targets[0].kind {
            NodeKind::ExprName { id, .. } => enum_value_plan(cx, mode, id@, value.range.end),
            _ => none(),
        }
    } else {
        none()
    }
}

/// The hints of an assignment.
pub open spec fn visited_assign(cx: HintContext<'_>, node: Node, mode: ModeModel) -> Seq<
    PlannedModel,
>
    decreases height(node), 1int, 0int,
{
    match child_of(node, Field::Value) {
        // basedpython: a decorator may be written above a binding
        Some(value) => visited_filling(
            cx,
            node,
            Field::Decorator,
            children_of(node, Field::Decorator).len() as int,
            mode,
        ) + assigned_value_plan(cx, node, value, mode) + visited_filling(
            cx,
            node,
            Field::Target,
            children_of(node, Field::Target).len() as int,
            bound_to(mode, value, mode.no_edits || !can_be_annotated(node)),
        ) + visited_field(
            cx,
            node,
            Field::Value,
            ModeModel { rhs: None, no_edits: false, ..mode },
        ),
        None => none(),
    }
}

/// The hints of the children of `node`, when any of it is hinted.
pub open spec fn walked_children(cx: HintContext<'_>, node: Node, mode: ModeModel) -> Seq<
    PlannedModel,
>
    decreases height(node), 1int, 0int,
{
    if enters(cx, node.range) {
        visited_children(cx, node, node.children@.len() as int, mode)
    } else {
        none()
    }
}

/// The hints of the first `upto` children of `node`.
pub open spec fn visited_children(cx: HintContext<'_>, node: Node, upto: int, mode: ModeModel) ->
    Seq<PlannedModel>
    decreases height(node), 0int, upto,
{
    if !(0 < upto <= node.children@.len()) {
        none()
    } else {
        let child = node.children@[upto - 1];
        proof {
            lemma_height_child(node, upto - 1);
        }
        visited_children(cx, node, upto - 1, mode) + visited(
            cx,
            child,
            mode_of_child(mode, child),
        )
    }
}

/// The hints of the first `upto` children of `node` that fill `field`.
pub open spec fn visited_filling(
    cx: HintContext<'_>,
    node: Node,
    field: Field,
    upto: int,
    mode: ModeModel,
) -> Seq<PlannedModel>
    decreases height(node), 0int, upto,
{
    if !(0 < upto <= children_of(node, field).len()) {
        none()
    } else {
        proof {
            lemma_height_children_of(node, field, upto - 1);
        }
        visited_filling(cx, node, field, upto - 1, mode) + visited(
            cx,
            children_of(node, field)[upto - 1],
            mode,
        )
    }
}

/// The hints of the child of `node` that fills `field`.
pub open spec fn visited_field(cx: HintContext<'_>, node: Node, field: Field, mode: ModeModel) ->
    Seq<PlannedModel>
    decreases height(node), 0int, 0int,
{
    match child_of(node, field) {
        Some(child) => {
            proof {
                lemma_height_child_of(node, field);
            }
            visited(cx, child, mode)
        },
        None => none(),
    }
}

/// The hints of the first `upto` operands of a union written in a type expression, each knowing
/// what the operands written beside it already denote.
///
/// A union is the one place a promoted arm can already be spelled: `float | int` names two
/// arms whichever way it is read, so the promotion adds nothing there.
pub open spec fn visited_operands(
    cx: HintContext<'_>,
    operands: Seq<Node>,
    upto: int,
    mode: ModeModel,
    below: nat,
) -> Seq<PlannedModel>
    decreases below, 0int, upto,
{
    if !(0 < upto <= operands.len()) || height(operands[upto - 1]) >= below {
        none()
    } else {
        let operand = operands[upto - 1];
        let siblings = typed_beside(
            cx.file.facts.typed@,
            operands,
            upto - 1,
            operands.len() as int,
        );
        visited_operands(cx, operands, upto - 1, mode, below) + visited(
            cx,
            operand,
            ModeModel { siblings: Some((operand.range, siblings)), ..mode },
        )
    }
}

/// The hints of the first `upto` arguments of `call`.
pub open spec fn visited_arguments(cx: HintContext<'_>, call: Node, upto: int, mode: ModeModel) ->
    Seq<PlannedModel>
    decreases height(call), 0int, upto,
{
    let arguments = call_arguments(call);
    if !(0 < upto <= arguments.len()) {
        none()
    } else {
        proof {
            lemma_call_arguments_height(call, upto - 1);
            lemma_passed_height(arguments[upto - 1]);
        }
        visited_arguments(cx, call, upto - 1, mode) + argument_name_plan(
            cx,
            argument_names_of(cx, call),
            arguments,
            upto - 1,
        ) + match passed(arguments[upto - 1]) {
            Some(value) => visited(cx, value, mode),
            None => none(),
        }
    }
}

/// What a hint, when there is one, plans.
pub open spec fn plan_in(hint: Option<InlayHint>) -> Seq<PlannedModel> {
    match hint {
        Some(hint) => one(hint@),
        None => none(),
    }
}

fn push_plan<'a>(planned: &mut Vec<Planned<'a>>, hint: Option<InlayHint>)
    ensures
        planned_models(final(planned)@) == planned_models(old(planned)@) + plan_in(hint),
{
    let ghost before = planned_models(planned@);
    if let Some(hint) = hint {
        planned.push(Planned::Hint(hint));
        assert(planned_models(planned@) =~= before + one(hint@));
    } else {
        assert(planned_models(planned@) =~= before + none());
    }
}

fn one_past(at: TextSize) -> (next: TextSize)
    ensures
        next == past(at),
{
    if at < u32::MAX {
        at + 1
    } else {
        at
    }
}

fn end_of_parameters(function: &Node) -> (end: TextSize)
    ensures
        end == parameters_end(*function),
{
    match function.child(Field::Parameters) {
        Some(parameters) => parameters.range.end,
        None => function.range.start,
    }
}

fn range_of_parameter(parameter: &Node) -> (range: TextRange)
    ensures
        range == written_parameter(*parameter),
{
    let name_end = match &parameter.kind {
        NodeKind::Parameter { name_range, .. } => name_range.end,
        _ => parameter.range.end,
    };
    TextRange {
        start: parameter.range.start,
        end: match parameter.child(Field::Annotation) {
            Some(annotation) => annotation.outer.end,
            None => name_end,
        },
    }
}

/// Whether two lists hold the same numbers.
fn same_ids(a: &Vec<u32>, b: &Vec<u32>) -> (same: bool)
    ensures
        same == (a@ == b@),
{
    if a.len() != b.len() {
        return false;
    }
    let mut i: usize = 0;
    while i < a.len()
        invariant
            i <= a.len(),
            a.len() == b.len(),
            forall|j: int| 0 <= j < i ==> a@[j] == b@[j],
        decreases a.len() - i,
    {
        if a[i] != b[i] {
            return false;
        }
        i += 1;
    }
    assert(a@ =~= b@);
    true
}

fn starts_with_underscore(name: &str) -> (starts: bool)
    ensures
        starts == (name@.len() > 0 && name@[0] == '_'),
{
    !name.is_empty() && name.get_char(0) == '_'
}

/// The arguments of `call`, in source order.
/// Whether `argument` could be passed by keyword just by writing the name before it.
fn can_take_name(argument: &Node) -> (can: bool)
    ensures
        can == takes_name(*argument),
{
    if argument.outer != argument.range {
        return false;
    }
    match &argument.kind {
        NodeKind::ExprStarred | NodeKind::ExprNamed => false,
        NodeKind::ExprGenerator { parenthesized } => *parenthesized,
        _ => true,
    }
}

fn arguments_of_call<'a>(call: &'a Node) -> (arguments: Vec<&'a Node>)
    ensures
        arguments@.unref() == call_arguments(*call),
{
    let mut arguments: Vec<&'a Node> = Vec::new();
    if let Some(node) = call.child(Field::Arguments) {
        let mut i: usize = 0;
        assert(arguments@.unref() =~= node.children@.take(0));
        while i < node.children.len()
            invariant
                i <= node.children.len(),
                arguments@.unref() == node.children@.take(i as int),
            decreases node.children.len() - i,
        {
            let ghost before = arguments@.unref();
            arguments.push(&node.children[i]);
            assert(arguments@.unref() =~= before.push(node.children@[i as int]));
            assert(before.push(node.children@[i as int]) =~= node.children@.take(i + 1));
            i += 1;
        }
        assert(node.children@.take(i as int) =~= node.children@);
    } else {
        assert(arguments@.unref() =~= Seq::empty());
    }
    arguments
}

impl<'a> HintContext<'a> {
    /// Every offset into the source fits.
    pub open spec fn wf(&self) -> bool {
        is_source(self.file.source@)
    }

    fn enter_node(&self, range: TextRange) -> (entered: bool)
        ensures
            entered == enters(*self, range),
    {
        self.range.intersect(range).is_some()
    }

    fn add_type_hint(&self, expr: &'a Node, mode: &Mode<'a, '_>, planned: &mut Vec<Planned<'a>>)
        ensures
            planned_models(final(planned)@) == planned_models(old(planned)@) + variable_plan(
                *self,
                *expr,
                mode@,
            ),
    {
        let ghost before = planned_models(planned@);
        let stores = match &expr.kind {
            NodeKind::ExprName { ctx, .. } => *ctx == ExprContext::Store,
            NodeKind::ExprAttribute { ctx, .. } => *ctx == ExprContext::Store,
            _ => false,
        };
        if let Some(rhs) = mode.assignment_rhs {
            if stores && find(&self.file.facts.variables, expr.id).is_some()
                && self.settings.variable_types && !is_ignored_variable_assignment_target(expr) {
                let plan = Planned::Variable {
                    expr,
                    rhs,
                    allow_edits: !mode.in_no_edits_allowed,
                };
                planned.push(plan);
                assert(planned_models(planned@) =~= before + seq![plan@]);
                return;
            }
        }
        assert(planned_models(planned@) =~= before + none());
    }

    fn numeric_promotion(&self, expr: &Node, mode: &Mode<'a, '_>) -> (hint: Option<InlayHint>)
        ensures
            plan_in(hint) == promotion_plan(*self, *expr, mode@),
    {
        if !self.settings.numeric_promotions || !mode.in_type_expression {
            return None;
        }
        let no_siblings: Vec<u32> = Vec::new();
        assert(no_siblings@ =~= Seq::empty());
        let siblings = match mode.union_siblings {
            Some(siblings) => if siblings.operand == expr.range {
                &siblings.ids
            } else {
                &no_siblings
            },
            None => &no_siblings,
        };
        assert(siblings@ == siblings_of(mode@, *expr));
        let promotions = &self.file.facts.promotions;
        let mut i: usize = 0;
        assert(promotions@.skip(0) =~= promotions@);
        while i < promotions.len()
            invariant
                i <= promotions.len(),
                promotions == self.file.facts.promotions,
                siblings@ == siblings_of(mode@, *expr),
                self.settings.numeric_promotions,
                mode@.in_type,
                promotion_of(promotions@, expr.id, siblings@) == promotion_of(
                    promotions@.skip(i as int),
                    expr.id,
                    siblings@,
                ),
            decreases promotions.len() - i,
        {
            assert(promotions@.skip(i as int)[0] == promotions@[i as int]);
            assert(promotions@.skip(i as int).skip(1) =~= promotions@.skip(i + 1));
            if promotions[i].expr == expr.id && same_ids(&promotions[i].siblings, siblings) {
                return Some(
                    InlayHint::numeric_promotion(expr.range.end, promotions[i].arms.as_str()),
                );
            }
            i += 1;
        }
        None
    }

    fn add_type_argument_names(&self, subscript: &Node, planned: &mut Vec<Planned<'a>>)
        ensures
            planned_models(final(planned)@) == planned_models(old(planned)@)
                + type_argument_name_plan(*self, *subscript),
    {
        let ghost start = planned_models(planned@);
        assert(start =~= start + none());
        if !self.settings.type_argument_names {
            return;
        }
        let value = match subscript.child(Field::Value) {
            Some(value) => value,
            None => {
                return;
            },
        };
        let slice = match subscript.child(Field::Slice) {
            Some(slice) => slice,
            None => {
                return;
            },
        };
        let names = match find(&self.file.facts.type_parameters, value.id) {
            Some(names) => names,
            None => {
                return;
            },
        };
        let arguments = subscript_arguments(slice);
        let ghost all = arguments_in(*slice);
        if names.len() < 2 || names.len() != arguments.len() {
            return;
        }
        let mut i: usize = 0;
        while i < names.len()
            invariant
                i <= names.len(),
                names.len() == arguments.len(),
                arguments@.unref() == all,
                planned_models(planned@) == start + names_of_arguments(names@, all, i as int),
            decreases names.len() - i,
        {
            assert(all[i as int] == *arguments@[i as int]);
            let hint = InlayHint::type_argument_name(
                arguments[i].range.start,
                names[i].as_str(),
            );
            push_plan(planned, Some(hint));
            assert(planned_models(planned@) =~= start + names_of_arguments(names@, all, i + 1));
            i += 1;
        }
    }

    fn enum_member_value(&self, mode: &Mode<'a, '_>, name: &str, position: TextSize) -> (hint:
        Option<InlayHint>)
        ensures
            plan_in(hint) == enum_value_plan(*self, mode@, name@, position),
    {
        if !self.settings.enum_values {
            return None;
        }
        let class = match mode.enclosing_class {
            Some(class) => class,
            None => {
                return None;
            },
        };
        let values = &self.file.facts.enum_values;
        let mut i: usize = 0;
        assert(values@.skip(0) =~= values@);
        while i < values.len()
            invariant
                i <= values.len(),
                values == self.file.facts.enum_values,
                self.settings.enum_values,
                mode@.class == Some(class),
                enum_value_of(values@, class, name@) == enum_value_of(
                    values@.skip(i as int),
                    class,
                    name@,
                ),
            decreases values.len() - i,
        {
            assert(values@.skip(i as int)[0] == values@[i as int]);
            assert(values@.skip(i as int).skip(1) =~= values@.skip(i + 1));
            if values[i].class == class && same_text(values[i].name.as_str(), name) {
                return match &values[i].value {
                    Some(value) => Some(
                        InlayHint::enum_member_value(position, value.as_str()),
                    ),
                    None => None,
                };
            }
            i += 1;
        }
        None
    }

    fn inferred_return(&self, function: &Node) -> (hint: Option<InlayHint>)
        ensures
            plan_in(hint) == return_plan(*self, *function),
    {
        let asserts = match &function.kind {
            NodeKind::StmtFunctionDef { is_asserts_return, .. } => *is_asserts_return,
            _ => false,
        };
        if !self.settings.inferred_return_types || function.child(Field::Returns).is_some()
            || asserts {
            return None;
        }
        match find(&self.file.facts.functions, function.id) {
            Some(facts) => match &facts.returned {
                Some(returned) => Some(
                    InlayHint::inferred_return(end_of_parameters(function), returned.as_str()),
                ),
                None => None,
            },
            None => None,
        }
    }

    fn inferred_raises(&self, function: &Node) -> (hint: Option<InlayHint>)
        ensures
            plan_in(hint) == raises_plan(*self, *function),
    {
        if !self.settings.inferred_raises || function.child(Field::Raises).is_some() {
            return None;
        }
        match find(&self.file.facts.functions, function.id) {
            Some(facts) => match &facts.raises {
                Some(raised) => {
                    let position = match function.child(Field::Returns) {
                        Some(returned) => returned.range.end,
                        None => end_of_parameters(function),
                    };
                    Some(InlayHint::inferred_raises(position, raised.as_str()))
                },
                None => None,
            },
            None => None,
        }
    }

    fn add_inferred_reification(&self, function: &Node, planned: &mut Vec<Planned<'a>>)
        ensures
            planned_models(final(planned)@) == planned_models(old(planned)@) + reification_plan(
                *self,
                *function,
            ),
    {
        let ghost start = planned_models(planned@);
        assert(start =~= start + none());
        if !self.settings.inferred_reification || !self.file.is_basedpython {
            return;
        }
        let facts = match find(&self.file.facts.functions, function.id) {
            Some(facts) => facts,
            None => {
                return;
            },
        };
        let type_params = match function.child(Field::TypeParams) {
            Some(type_params) => &type_params.children,
            None => {
                return;
            },
        };
        let ghost reified = texts(facts.reified@);
        let mut i: usize = 0;
        assert(reified_among(reified, type_params@.take(0)) =~= none());
        while i < type_params.len()
            invariant
                i <= type_params.len(),
                reified == texts(facts.reified@),
                planned_models(planned@) == start + reified_among(
                    reified,
                    type_params@.take(i as int),
                ),
            decreases type_params.len() - i,
        {
            assert(type_params@.take(i + 1).drop_last() =~= type_params@.take(i as int));
            assert(type_params@.take(i + 1).last() == type_params@[i as int]);
            if let NodeKind::TypeParam { name, .. } = &type_params[i].kind {
                if holds_text(&facts.reified, name.as_str()) {
                    let hint = InlayHint::inferred_reification(type_params[i].range.start);
                    push_plan(planned, Some(hint));
                }
            }
            assert(planned_models(planned@) =~= start + reified_among(
                reified,
                type_params@.take(i + 1),
            ));
            i += 1;
        }
        assert(type_params@.take(i as int) =~= type_params@);
    }

    fn add_inferred_variances(&self, owner: &Node, planned: &mut Vec<Planned<'a>>)
        ensures
            planned_models(final(planned)@) == planned_models(old(planned)@) + variance_plan(
                *self,
                *owner,
            ),
    {
        let ghost start = planned_models(planned@);
        assert(start =~= start + none());
        if !self.settings.inferred_variance || !self.file.is_basedpython {
            return;
        }
        let type_params = match owner.child(Field::TypeParams) {
            Some(type_params) => &type_params.children,
            None => {
                return;
            },
        };
        let variances = &self.file.facts.variances;
        let mut i: usize = 0;
        assert(variances_among(variances@, type_params@.take(0)) =~= none());
        while i < type_params.len()
            invariant
                i <= type_params.len(),
                planned_models(planned@) == start + variances_among(
                    variances@,
                    type_params@.take(i as int),
                ),
            decreases type_params.len() - i,
        {
            assert(type_params@.take(i + 1).drop_last() =~= type_params@.take(i as int));
            assert(type_params@.take(i + 1).last() == type_params@[i as int]);
            if let NodeKind::TypeParam { has_variance, .. } = &type_params[i].kind {
                if !*has_variance {
                    if let Some(variance) = find(variances, type_params[i].id) {
                        let hint = InlayHint::inferred_variance(
                            type_params[i].range.start,
                            *variance,
                        );
                        push_plan(planned, Some(hint));
                    }
                }
            }
            assert(planned_models(planned@) =~= start + variances_among(
                variances@,
                type_params@.take(i + 1),
            ));
            i += 1;
        }
        assert(type_params@.take(i as int) =~= type_params@);
    }

    fn position_of_modifier(&self, function: &Node) -> (position: TextSize)
        ensures
            position == modifier_position(*self.file, *function),
    {
        let bytes = self.file.source.as_str().as_bytes();
        let decorators = function.children_filling(Field::Decorator);
        let ghost all = children_of(*function, Field::Decorator);
        let mut left: usize = decorators.len();
        assert(all.take(left as int) =~= all);
        while left > 0
            invariant
                left <= decorators.len(),
                decorators@.unref() == all,
                bytes@ == bytes_of(self.file.source@),
                last_written(self.file.source@, all) == last_written(
                    self.file.source@,
                    all.take(left as int),
                ),
                all == children_of(*function, Field::Decorator),
            decreases left,
        {
            assert(all.take(left as int).drop_last() =~= all.take(left - 1));
            let decorator = decorators[left - 1];
            assert(all.take(left as int).last() == *decorator);
            let start = decorator.range.start as usize;
            if start < bytes.len() && bytes[start] == 0x40 {
                return match first_code_token(&self.file.tokens, decorator.range.end) {
                    Some(token) => token.start,
                    None => function.range.start,
                };
            }
            left -= 1;
        }
        function.range.start
    }

    fn inferred_override(&self, function: &Node, mode: &Mode<'a, '_>) -> (hint: Option<InlayHint>)
        ensures
            plan_in(hint) == override_plan(*self, *function, mode@),
    {
        if !self.settings.inferred_override || !self.file.is_basedpython {
            return None;
        }
        let class = match mode.enclosing_class {
            Some(class) => class,
            None => {
                return None;
            },
        };
        let answers = &self.file.facts.overrides;
        let mut i: usize = 0;
        assert(answers@.skip(0) =~= answers@);
        while i < answers.len()
            invariant
                i <= answers.len(),
                answers == self.file.facts.overrides,
                self.settings.inferred_override,
                self.file.is_basedpython,
                mode@.class == Some(class),
                override_of(answers@, function.id, class) == override_of(
                    answers@.skip(i as int),
                    function.id,
                    class,
                ),
            decreases answers.len() - i,
        {
            assert(answers@.skip(i as int)[0] == answers@[i as int]);
            assert(answers@.skip(i as int).skip(1) =~= answers@.skip(i + 1));
            if answers[i].function == function.id && answers[i].class == class {
                let position = self.position_of_modifier(function);
                return Some(InlayHint::inferred_override(position, answers[i].superclass));
            }
            i += 1;
        }
        None
    }

    fn trailing_lambda_parameter(&self, function: &Node) -> (hint: Option<InlayHint>)
        ensures
            plan_in(hint) == trailing_lambda_plan(*self, *function),
    {
        if !self.settings.implicit_parameters {
            return None;
        }
        let parameter = match function.child(Field::Parameters) {
            Some(parameters) => match parameters.child(Field::Parameter) {
                Some(parameter) => parameter,
                None => {
                    return None;
                },
            },
            None => {
                return None;
            },
        };
        let colon = parameter.range.start;
        let bytes = self.file.source.as_str().as_bytes();
        if colon as usize >= bytes.len() || bytes[colon as usize] != 0x3a {
            return None;
        }
        match find(&self.file.facts.functions, function.id) {
            Some(facts) => if facts.implicit_parameters.len() == 0 {
                None
            } else {
                Some(
                    InlayHint::implicit_parameters(
                        one_past(colon),
                        &facts.implicit_parameters,
                        true,
                        false,
                    ),
                )
            },
            None => None,
        }
    }

    /// Whether a parameter of the same list is written after `position`.
    fn parameter_follows(&self, position: TextSize) -> (follows: bool)
        ensures
            follows == another_follows(self.file.source@, position as int),
    {
        match get_from(self.file.source.as_str(), position) {
            Some(rest) => {
                let rest = trim_leading(rest);
                rest.is_empty() || (rest.get_char(0) != ')' && rest.get_char(0) != ',')
            },
            None => false,
        }
    }

    fn implicit_self(&self, parameter: &Node) -> (hint: Option<InlayHint>)
        ensures
            plan_in(hint) == implicit_self_plan(*self, *parameter),
    {
        let range = range_of_parameter(parameter);
        if !self.settings.implicit_self || !self.file.is_basedpython || !range.is_empty() {
            return None;
        }
        if let NodeKind::Parameter { name, .. } = &parameter.kind {
            let ty = match find(&self.file.facts.parameter_types, parameter.id) {
                Some(ty) => Some(owned(ty.as_str())),
                None => None,
            };
            let follows = self.parameter_follows(range.start);
            let lone = ImplicitParameter { name: owned(name.as_str()), ty };
            let mut parameters: Vec<ImplicitParameter> = Vec::new();
            parameters.push(lone);
            proof {
                assert(parameters@.drop_last() =~= Seq::empty());
                assert(super::parameter_parts(Seq::<ImplicitParameter>::empty())
                    =~= Seq::empty());
                assert(implicit_parameters_hint(
                    range.start,
                    parameters@,
                    false,
                    follows,
                ).label =~= implicit_self_label(
                    name@,
                    implicit_self_type(*self, *parameter),
                    follows,
                ));
            }
            return Some(
                InlayHint::implicit_parameters(range.start, &parameters, false, follows),
            );
        }
        None
    }

    fn parameter_type(&self, shown: bool, types: &Vec<(u32, String)>, parameter: &Node) -> (hint:
        Option<InlayHint>)
        ensures
            plan_in(hint) == parameter_type_plan(shown, types@, *parameter),
    {
        if !shown || parameter.child(Field::Annotation).is_some() || range_of_parameter(
            parameter,
        ).is_empty() {
            return None;
        }
        if let NodeKind::Parameter { name_range, .. } = &parameter.kind {
            if let Some(ty) = find(types, parameter.id) {
                return Some(InlayHint::parameter_type(name_range.end, ty.as_str()));
            }
        }
        None
    }

    fn add_parameter_hints(
        &self,
        parameter: &Node,
        mode: &Mode<'a, '_>,
        planned: &mut Vec<Planned<'a>>,
    )
        ensures
            planned_models(final(planned)@) == planned_models(old(planned)@) + parameter_plan(
                *self,
                *parameter,
                mode@,
            ),
    {
        let ghost start = planned_models(planned@);
        push_plan(planned, self.implicit_self(parameter));
        push_plan(
            planned,
            self.parameter_type(
                self.settings.lambda_parameter_types && mode.in_lambda,
                &self.file.facts.parameter_types,
                parameter,
            ),
        );
        push_plan(
            planned,
            self.parameter_type(
                self.settings.inherited_parameter_types && !mode.in_lambda,
                &self.file.facts.inherited_types,
                parameter,
            ),
        );
        assert(planned_models(planned@) =~= start + parameter_plan(*self, *parameter, mode@));
    }

    fn revealed_type(&self, call: &Node) -> (hint: Option<InlayHint>)
        requires
            self.wf(),
        ensures
            plan_in(hint) == revealed_plan(*self, *call),
    {
        let arguments = arguments_of_call(call);
        let ghost all = call_arguments(*call);
        let mut positional: Vec<&Node> = Vec::new();
        let mut i: usize = 0;
        assert(positional@.unref() =~= positional_of(all.take(0)));
        while i < arguments.len()
            invariant
                i <= arguments.len(),
                arguments@.unref() == all,
                positional@.unref() == positional_of(all.take(i as int)),
            decreases arguments.len() - i,
        {
            assert(all.take(i + 1).drop_last() =~= all.take(i as int));
            assert(all.take(i + 1).last() == *arguments@[i as int]);
            if !matches!(arguments[i].kind, NodeKind::Keyword) {
                let ghost before = positional@.unref();
                positional.push(arguments[i]);
                assert(positional@.unref() =~= before.push(*arguments@[i as int]));
            }
            i += 1;
        }
        assert(all.take(i as int) =~= all);
        let source = self.file.source.as_str();
        if positional.len() != 1 || !self.settings.revealed_types {
            return None;
        }
        assert(positional_of(all)[0] == *positional@[0]);
        if get_from(source, call.range.end).is_none() {
            return None;
        }
        match find(&self.file.facts.revealed, positional[0].id) {
            Some(revealed) => Some(
                InlayHint::revealed_type(
                    line_end(source, call.range.end),
                    revealed.ty.as_str(),
                    &revealed.declared,
                ),
            ),
            None => None,
        }
    }

    fn call_type_arguments(&self, call: &Node, facts: &CallFacts) -> (hint: Option<InlayHint>)
        ensures
            plan_in(hint) == type_arguments_plan(*self, *call, *facts),
    {
        let arguments = &facts.type_arguments;
        if !self.settings.call_type_arguments || arguments.len() == 0 {
            return None;
        }
        let passes = match &call.kind {
            NodeKind::ExprCall { is_cast, is_string_tag } => !*is_cast && !*is_string_tag,
            _ => false,
        };
        if !passes {
            return None;
        }
        let func = match call.child(Field::Func) {
            Some(func) => func,
            None => {
                return None;
            },
        };
        if matches!(func.kind, NodeKind::ExprSubscript { .. }) {
            return None;
        }
        let mut i: usize = 0;
        while i < arguments.len() && arguments[i].is_unknown
            invariant
                i <= arguments.len(),
                forall|j: int| 0 <= j < i ==> (#[trigger] arguments@[j]).is_unknown,
            decreases arguments.len() - i,
        {
            i += 1;
        }
        if i == arguments.len() {
            return None;
        }
        assert(!arguments@[i as int].is_unknown);
        let named = self.settings.type_argument_names && self.file.is_basedpython;
        Some(InlayHint::call_type_arguments(func.range.end, arguments, named))
    }

    fn implicit_context_arguments(&self, call: &Node, facts: &CallFacts) -> (hint: Option<
        InlayHint,
    >)
        ensures
            plan_in(hint) == context_arguments_plan(*self, *call, *facts),
    {
        if !self.settings.implicit_arguments || !self.file.is_basedpython
            || facts.context_arguments.len() == 0 {
            return None;
        }
        let arguments = match call.child(Field::Arguments) {
            Some(arguments) => arguments,
            None => {
                return None;
            },
        };
        let explicit = &arguments.children;
        let position = if explicit.len() > 0 {
            explicit[explicit.len() - 1].range.end
        } else {
            one_past(arguments.range.start)
        };
        Some(
            InlayHint::implicit_context_arguments(
                position,
                explicit.len() > 0,
                &facts.context_arguments,
            ),
        )
    }

    fn add_call_hints(&self, call: &Node, planned: &mut Vec<Planned<'a>>)
        requires
            self.wf(),
        ensures
            planned_models(final(planned)@) == planned_models(old(planned)@) + call_plan(
                *self,
                *call,
            ),
    {
        let ghost start = planned_models(planned@);
        match find(&self.file.facts.calls, call.id) {
            Some(facts) => {
                if facts.reveals_type {
                    push_plan(planned, self.revealed_type(call));
                } else {
                    push_plan(planned, self.call_type_arguments(call, facts));
                }
                push_plan(planned, self.implicit_context_arguments(call, facts));
                assert(planned_models(planned@) =~= start + call_plan(*self, *call));
            },
            None => {
                assert(planned_models(planned@) =~= start + none());
            },
        }
    }

    /// The name shown for an argument that is the `index`th positional one.
    fn shown_name(
        &self,
        names: &'a Vec<(u32, ArgumentName)>,
        argument: &Node,
        index: usize,
    ) -> (name: Option<&'a ArgumentName>)
        ensures
            forall|arguments: Seq<Node>, i: int|
                #![trigger name_shown(*self, names@, arguments, i)]
                0 <= i < arguments.len() && arguments[i] == *argument && positional_before(
                    arguments,
                    i,
                ) == index ==> value_in(name) == name_shown(*self, names@, arguments, i),
    {
        if matches!(argument.kind, NodeKind::Keyword) || index > u32::MAX as usize
            || !self.settings.call_argument_names {
            return None;
        }
        match find(names, index as u32) {
            Some(name) => if arg_matches_name(argument, name.name.as_str())
                || starts_with_underscore(name.name.as_str()) {
                None
            } else {
                Some(name)
            },
            None => None,
        }
    }

    /// The last positional one of `arguments`, when an edit could write its name.
    fn last_editable_argument(
        &self,
        names: &'a Vec<(u32, ArgumentName)>,
        arguments: &Vec<&'a Node>,
    ) -> (last: Option<usize>)
        ensures
            match last {
                Some(i) => last_editable(
                    *self,
                    names@,
                    arguments@.unref(),
                    arguments.len() as int,
                ) == Some(i as int),
                None => last_editable(
                    *self,
                    names@,
                    arguments@.unref(),
                    arguments.len() as int,
                ) is None,
            },
    {
        let ghost all = arguments@.unref();
        let mut last: Option<usize> = None;
        let mut index: usize = 0;
        let mut i: usize = 0;
        while i < arguments.len()
            invariant
                i <= arguments.len(),
                all == arguments@.unref(),
                index == positional_before(all, i as int),
                index <= i,
                match last {
                    Some(k) => last_editable(*self, names@, all, i as int) == Some(k as int),
                    None => last_editable(*self, names@, all, i as int) is None,
                },
            decreases arguments.len() - i,
        {
            let argument = arguments[i];
            assert(all[i as int] == *argument);
            let name = self.shown_name(names, argument, index);
            assert(value_in(name) == name_shown(*self, names@, all, i as int));
            let is_keyword = matches!(argument.kind, NodeKind::Keyword);
            if !is_keyword && !matches!(argument.kind, NodeKind::ExprStarred) {
                last = if name.is_some() && can_take_name(argument) {
                    Some(i)
                } else {
                    None
                };
            }
            if !is_keyword {
                index += 1;
            }
            i += 1;
        }
        last
    }

    /// Visits the arguments of `call`, each after the name it is shown with.
    fn visit_arguments(
        &self,
        call: &'a Node,
        mode: &Mode<'a, '_>,
        planned: &mut Vec<Planned<'a>>,
    )
        requires
            self.wf(),
        ensures
            planned_models(final(planned)@) == planned_models(old(planned)@) + visited_arguments(
                *self,
                *call,
                call_arguments(*call).len() as int,
                mode@,
            ),
        decreases height(*call), 0int,
    {
        let ghost start = planned_models(planned@);
        let no_names: Vec<(u32, ArgumentName)> = Vec::new();
        assert(no_names@ =~= Seq::empty());
        let passes = match &call.kind {
            NodeKind::ExprCall { is_cast, is_string_tag } => !*is_cast && !*is_string_tag,
            _ => false,
        };
        let facts = find(&self.file.facts.calls, call.id);
        let has_names = passes && facts.is_some();
        let arguments = arguments_of_call(call);
        let ghost all = call_arguments(*call);
        let ghost names = argument_names_of(*self, *call);
        let last: Option<usize> = if has_names {
            self.last_editable_argument(&facts.unwrap().argument_names, &arguments)
        } else {
            None
        };
        let mut index: usize = 0;
        let mut i: usize = 0;
        assert(planned_models(planned@) =~= start + visited_arguments(*self, *call, 0, mode@));
        while i < arguments.len()
            invariant
                i <= arguments.len(),
                self.wf(),
                arguments@.unref() == all,
                all == call_arguments(*call),
                names == argument_names_of(*self, *call),
                index == positional_before(all, i as int),
                index <= i,
                has_names ==> (facts matches Some(facts) && facts.argument_names@ == names),
                !has_names ==> names.len() == 0,
                has_names ==> match last {
                    Some(k) => last_editable(*self, names, all, all.len() as int) == Some(
                        k as int,
                    ),
                    None => last_editable(*self, names, all, all.len() as int) is None,
                },
                planned_models(planned@) == start + visited_arguments(
                    *self,
                    *call,
                    i as int,
                    mode@,
                ),
            decreases arguments.len() - i,
        {
            let ghost before = planned_models(planned@);
            let argument = arguments[i];
            assert(all[i as int] == *argument);
            proof {
                lemma_call_arguments_height(*call, i as int);
                lemma_passed_height(*argument);
            }
            let hint = if has_names {
                let found = self.shown_name(
                    &facts.unwrap().argument_names,
                    argument,
                    index,
                );
                assert(value_in(found) == name_shown(*self, names, all, i as int));
                match found {
                    Some(name) => {
                        let editable = match last {
                            Some(k) => k == i,
                            None => false,
                        };
                        Some(
                            InlayHint::call_argument_name(
                                argument.range.start,
                                name.name.as_str(),
                                name.target,
                                editable,
                            ),
                        )
                    },
                    None => None,
                }
            } else {
                assert(name_shown(*self, names, all, i as int) is None);
                None
            };
            push_plan(planned, hint);
            if matches!(argument.kind, NodeKind::Keyword) {
                if let Some(value) = argument.child(Field::Value) {
                    self.visit(value, mode, planned);
                }
            } else {
                index += 1;
                self.visit(argument, mode, planned);
            }
            assert(planned_models(planned@) =~= start + visited_arguments(
                *self,
                *call,
                i + 1,
                mode@,
            ));
            i += 1;
        }
    }

    /// Visits the operands of a union written in a type expression, each knowing what the
    /// operands written beside it already denote.
    fn visit_union_operands(
        &self,
        operands: &Vec<&'a Node>,
        mode: &Mode<'a, '_>,
        below: Ghost<nat>,
        planned: &mut Vec<Planned<'a>>,
    )
        requires
            self.wf(),
            forall|i: int|
                0 <= i < operands.len() ==> height(#[trigger] operands@.unref()[i]) < below@,
        ensures
            planned_models(final(planned)@) == planned_models(old(planned)@) + visited_operands(
                *self,
                operands@.unref(),
                operands.len() as int,
                mode@,
                below@,
            ),
        decreases below@, 0int,
    {
        let ghost start = planned_models(planned@);
        let ghost all = operands@.unref();
        let mut i: usize = 0;
        assert(planned_models(planned@) =~= start + visited_operands(
            *self,
            all,
            0,
            mode@,
            below@,
        ));
        while i < operands.len()
            invariant
                i <= operands.len(),
                self.wf(),
                all == operands@.unref(),
                forall|i: int| 0 <= i < operands.len() ==> height(#[trigger] all[i]) < below@,
                planned_models(planned@) == start + visited_operands(
                    *self,
                    all,
                    i as int,
                    mode@,
                    below@,
                ),
            decreases operands.len() - i,
        {
            let operand = operands[i];
            assert(all[i as int] == *operand);
            let mut ids: Vec<u32> = Vec::new();
            let mut j: usize = 0;
            assert(ids@ =~= typed_beside(self.file.facts.typed@, all, i as int, 0));
            while j < operands.len()
                invariant
                    j <= operands.len(),
                    all == operands@.unref(),
                    ids@ == typed_beside(self.file.facts.typed@, all, i as int, j as int),
                decreases operands.len() - j,
            {
                assert(all[j as int] == *operands@[j as int]);
                if j != i && holds(&self.file.facts.typed, operands[j].id) {
                    ids.push(operands[j].id);
                }
                j += 1;
            }
            let siblings = Siblings { operand: operand.range, ids };
            let inner = Mode {
                assignment_rhs: mode.assignment_rhs,
                in_no_edits_allowed: mode.in_no_edits_allowed,
                in_type_expression: mode.in_type_expression,
                in_lambda: mode.in_lambda,
                union_siblings: Some(&siblings),
                enclosing_class: mode.enclosing_class,
            };
            self.visit(operand, &inner, planned);
            assert(planned_models(planned@) =~= start + visited_operands(
                *self,
                all,
                i + 1,
                mode@,
                below@,
            ));
            i += 1;
        }
    }

    /// Visits the children of `node`, when any of it is hinted.
    fn walk(&self, node: &'a Node, mode: &Mode<'a, '_>, planned: &mut Vec<Planned<'a>>)
        requires
            self.wf(),
        ensures
            planned_models(final(planned)@) == planned_models(old(planned)@) + walked_children(
                *self,
                *node,
                mode@,
            ),
        decreases height(*node), 1int,
    {
        if self.enter_node(node.range) {
            self.visit_children(node, mode, planned);
        } else {
            assert(planned_models(planned@) =~= planned_models(old(planned)@) + none());
        }
    }

    fn visit_children(&self, node: &'a Node, mode: &Mode<'a, '_>, planned: &mut Vec<Planned<'a>>)
        requires
            self.wf(),
        ensures
            planned_models(final(planned)@) == planned_models(old(planned)@) + visited_children(
                *self,
                *node,
                node.children@.len() as int,
                mode@,
            ),
        decreases height(*node), 0int,
    {
        let ghost start = planned_models(planned@);
        let mut i: usize = 0;
        assert(planned_models(planned@) =~= start + visited_children(*self, *node, 0, mode@));
        while i < node.children.len()
            invariant
                i <= node.children.len(),
                self.wf(),
                planned_models(planned@) == start + visited_children(
                    *self,
                    *node,
                    i as int,
                    mode@,
                ),
            decreases node.children.len() - i,
        {
            proof {
                lemma_height_child(*node, i as int);
            }
            let child = &node.children[i];
            if child.field == Field::Annotation || child.field == Field::Returns || child.field
                == Field::Raises {
                let typed = Mode { in_type_expression: true, ..*mode };
                self.visit(child, &typed, planned);
            } else {
                self.visit(child, mode, planned);
            }
            assert(planned_models(planned@) =~= start + visited_children(
                *self,
                *node,
                i + 1,
                mode@,
            ));
            i += 1;
        }
    }

    /// Visits the children of `node` that fill `field`.
    fn visit_filling(
        &self,
        node: &'a Node,
        field: Field,
        mode: &Mode<'a, '_>,
        planned: &mut Vec<Planned<'a>>,
    )
        requires
            self.wf(),
        ensures
            planned_models(final(planned)@) == planned_models(old(planned)@) + visited_filling(
                *self,
                *node,
                field,
                children_of(*node, field).len() as int,
                mode@,
            ),
        decreases height(*node), 0int,
    {
        let ghost start = planned_models(planned@);
        let nodes = node.children_filling(field);
        let ghost all = children_of(*node, field);
        let mut i: usize = 0;
        assert(planned_models(planned@) =~= start + visited_filling(
            *self,
            *node,
            field,
            0,
            mode@,
        ));
        while i < nodes.len()
            invariant
                i <= nodes.len(),
                self.wf(),
                nodes@.unref() == all,
                all == children_of(*node, field),
                planned_models(planned@) == start + visited_filling(
                    *self,
                    *node,
                    field,
                    i as int,
                    mode@,
                ),
            decreases nodes.len() - i,
        {
            proof {
                lemma_height_children_of(*node, field, i as int);
            }
            assert(all[i as int] == *nodes@[i as int]);
            self.visit(nodes[i], mode, planned);
            assert(planned_models(planned@) =~= start + visited_filling(
                *self,
                *node,
                field,
                i + 1,
                mode@,
            ));
            i += 1;
        }
    }

    /// Visits the child of `node` that fills `field`.
    fn visit_field(
        &self,
        node: &'a Node,
        field: Field,
        mode: &Mode<'a, '_>,
        planned: &mut Vec<Planned<'a>>,
    )
        requires
            self.wf(),
        ensures
            planned_models(final(planned)@) == planned_models(old(planned)@) + visited_field(
                *self,
                *node,
                field,
                mode@,
            ),
        decreases height(*node), 0int,
    {
        match node.child(field) {
            Some(child) => {
                self.visit(child, mode, planned);
            },
            None => {
                assert(planned_models(planned@) =~= planned_models(old(planned)@) + none());
            },
        }
    }

    fn assigned_value(&self, node: &Node, value: &Node, mode: &Mode<'a, '_>) -> (hint: Option<
        InlayHint,
    >)
        ensures
            plan_in(hint) == assigned_value_plan(*self, *node, *value, mode@),
    {
        let targets = node.children_filling(Field::Target);
        if targets.len() != 1 {
            return None;
        }
        assert(children_of(*node, Field::Target)[0] == *targets@[0]);
        match &targets[0].kind {
            NodeKind::ExprName { id, .. } => self.enum_member_value(
                mode,
                id.as_str(),
                value.range.end,
            ),
            _ => None,
        }
    }

    fn visit_assign(&self, node: &'a Node, mode: &Mode<'a, '_>, planned: &mut Vec<Planned<'a>>)
        requires
            self.wf(),
        ensures
            planned_models(final(planned)@) == planned_models(old(planned)@) + visited_assign(
                *self,
                *node,
                mode@,
            ),
        decreases height(*node), 1int,
    {
        let ghost start = planned_models(planned@);
        let value = match node.child(Field::Value) {
            Some(value) => value,
            None => {
                assert(planned_models(planned@) =~= start + none());
                return;
            },
        };
        self.visit_filling(node, Field::Decorator, mode, planned);
        let hint = self.assigned_value(node, value, mode);
        push_plan(planned, hint);
        let bound = Mode {
            assignment_rhs: if type_hint_is_excessive_for_expr(value) {
                mode.assignment_rhs
            } else {
                Some(value)
            },
            in_no_edits_allowed: mode.in_no_edits_allowed || !annotations_are_valid_syntax(node),
            ..*mode
        };
        self.visit_filling(node, Field::Target, &bound, planned);
        let free = Mode { assignment_rhs: None, in_no_edits_allowed: false, ..*mode };
        self.visit_field(node, Field::Value, &free, planned);
        proof {
            lemma_after_four(
                start,
                visited_filling(
                    *self,
                    *node,
                    Field::Decorator,
                    children_of(*node, Field::Decorator).len() as int,
                    mode@,
                ),
                assigned_value_plan(*self, *node, *value, mode@),
                visited_filling(
                    *self,
                    *node,
                    Field::Target,
                    children_of(*node, Field::Target).len() as int,
                    bound@,
                ),
                visited_field(*self, *node, Field::Value, free@),
            );
        }
    }

    fn visit_declaration(
        &self,
        node: &'a Node,
        mode: &Mode<'a, '_>,
        planned: &mut Vec<Planned<'a>>,
    )
        requires
            self.wf(),
        ensures
            planned_models(final(planned)@) == planned_models(old(planned)@)
                + visited_declaration(*self, *node, mode@),
        decreases height(*node), 1int,
    {
        let ghost start = planned_models(planned@);
        match untyped_declaration_value(node) {
            Some(value) => {
                self.visit_filling(node, Field::Decorator, mode, planned);
                let bound = Mode {
                    assignment_rhs: if type_hint_is_excessive_for_expr(value) {
                        mode.assignment_rhs
                    } else {
                        Some(value)
                    },
                    ..*mode
                };
                self.visit_field(node, Field::Target, &bound, planned);
                let free = Mode { assignment_rhs: None, ..*mode };
                self.visit_field(node, Field::Value, &free, planned);
                proof {
                    lemma_after_three(
                        start,
                        visited_filling(
                            *self,
                            *node,
                            Field::Decorator,
                            children_of(*node, Field::Decorator).len() as int,
                            mode@,
                        ),
                        visited_field(*self, *node, Field::Target, bound@),
                        visited_field(*self, *node, Field::Value, free@),
                    );
                }
            },
            None => {
                self.visit_children(node, mode, planned);
            },
        }
    }

    fn visit_function(&self, node: &'a Node, mode: &Mode<'a, '_>, planned: &mut Vec<Planned<'a>>)
        requires
            self.wf(),
        ensures
            planned_models(final(planned)@) == planned_models(old(planned)@) + visited_function(
                *self,
                *node,
                mode@,
            ),
        decreases height(*node), 1int,
    {
        let ghost start = planned_models(planned@);
        let inside = Mode { enclosing_class: None, ..*mode };
        let is_lambda = match &node.kind {
            NodeKind::StmtFunctionDef { is_trailing_lambda, .. } => *is_trailing_lambda,
            _ => false,
        };
        if is_lambda {
            push_plan(planned, self.trailing_lambda_parameter(node));
            self.visit_filling(node, Field::Decorator, mode, planned);
            self.visit_field(node, Field::Body, &inside, planned);
            proof {
                lemma_after_three(
                    start,
                    trailing_lambda_plan(*self, *node),
                    visited_filling(
                        *self,
                        *node,
                        Field::Decorator,
                        children_of(*node, Field::Decorator).len() as int,
                        mode@,
                    ),
                    visited_field(*self, *node, Field::Body, inside@),
                );
            }
        } else if has_synthesized_header(node) {
            self.visit_field(node, Field::Body, &inside, planned);
        } else {
            push_plan(planned, self.inferred_return(node));
            push_plan(planned, self.inferred_raises(node));
            self.add_inferred_reification(node, planned);
            push_plan(planned, self.inferred_override(node, mode));
            self.visit_children(node, &inside, planned);
            proof {
                let plans = return_plan(*self, *node) + raises_plan(*self, *node)
                    + reification_plan(*self, *node);
                lemma_after_three(
                    start,
                    return_plan(*self, *node),
                    raises_plan(*self, *node),
                    reification_plan(*self, *node),
                );
                lemma_after_three(
                    start,
                    plans,
                    override_plan(*self, *node, mode@),
                    visited_children(*self, *node, node.children@.len() as int, inside@),
                );
            }
        }
    }

    fn visit_class(&self, node: &'a Node, mode: &Mode<'a, '_>, planned: &mut Vec<Planned<'a>>)
        requires
            self.wf(),
        ensures
            planned_models(final(planned)@) == planned_models(old(planned)@) + visited_class(
                *self,
                *node,
                mode@,
            ),
        decreases height(*node), 1int,
    {
        let ghost start = planned_models(planned@);
        self.add_inferred_variances(node, planned);
        let hint = match &node.kind {
            NodeKind::StmtClassDef { name, is_enum_variant, .. } => if *is_enum_variant {
                self.enum_member_value(mode, name.as_str(), node.range.end)
            } else {
                None
            },
            _ => None,
        };
        push_plan(planned, hint);
        let inside = Mode {
            enclosing_class: if holds(&self.file.facts.classes, node.id) {
                Some(node.id)
            } else {
                None
            },
            ..*mode
        };
        self.visit_children(node, &inside, planned);
        proof {
            lemma_after_three(
                start,
                variance_plan(*self, *node),
                variant_plan(*self, *node, mode@),
                visited_children(*self, *node, node.children@.len() as int, inside@),
            );
        }
    }

    fn visit_alias(&self, node: &'a Node, mode: &Mode<'a, '_>, planned: &mut Vec<Planned<'a>>)
        requires
            self.wf(),
        ensures
            planned_models(final(planned)@) == planned_models(old(planned)@) + visited_alias(
                *self,
                *node,
                mode@,
            ),
        decreases height(*node), 1int,
    {
        let ghost start = planned_models(planned@);
        self.add_inferred_variances(node, planned);
        self.visit_field(node, Field::Name, mode, planned);
        self.visit_field(node, Field::TypeParams, mode, planned);
        let typed = Mode { in_type_expression: true, ..*mode };
        self.visit_field(node, Field::Value, &typed, planned);
        proof {
            lemma_after_four(
                start,
                variance_plan(*self, *node),
                visited_field(*self, *node, Field::Name, mode@),
                visited_field(*self, *node, Field::TypeParams, mode@),
                visited_field(*self, *node, Field::Value, typed@),
            );
        }
    }

    fn visit_subscript(
        &self,
        node: &'a Node,
        mode: &Mode<'a, '_>,
        planned: &mut Vec<Planned<'a>>,
    )
        requires
            self.wf(),
        ensures
            planned_models(final(planned)@) == planned_models(old(planned)@) + visited_subscript(
                *self,
                *node,
                mode@,
            ),
        decreases height(*node), 2int,
    {
        let ghost start = planned_models(planned@);
        let is_union_form = match node.child(Field::Value) {
            Some(value) => holds(&self.file.facts.unions, value.id),
            None => false,
        };
        if !is_union_form {
            self.add_type_argument_names(node, planned);
            self.walk(node, mode, planned);
            proof {
                lemma_after_two(
                    start,
                    type_argument_name_plan(*self, *node),
                    walked_children(*self, *node, mode@),
                );
            }
            return;
        }
        if !self.enter_node(node.range) {
            assert(planned_models(planned@) =~= start + none());
            return;
        }
        self.add_type_argument_names(node, planned);
        self.visit_field(node, Field::Value, mode, planned);
        let ghost names = type_argument_name_plan(*self, *node);
        let ghost value = visited_field(*self, *node, Field::Value, mode@);
        if let Some(slice) = node.child(Field::Slice) {
            let operands = subscript_arguments(slice);
            proof {
                lemma_height_child_of(*node, Field::Slice);
                assert forall|i: int| 0 <= i < operands.len() implies height(
                    #[trigger] operands@.unref()[i],
                ) < height(*node) by {
                    lemma_arguments_height(*slice, i);
                }
            }
            self.visit_union_operands(&operands, mode, Ghost(height(*node)), planned);
            proof {
                lemma_after_three(
                    start,
                    names,
                    value,
                    visited_operands(
                        *self,
                        arguments_in(*slice),
                        arguments_in(*slice).len() as int,
                        mode@,
                        height(*node),
                    ),
                );
            }
        } else {
            proof {
                lemma_after_three(start, names, value, none());
                assert(start + names + value + none() =~= start + names + value);
            }
        }
    }

    fn visit_parameter(&self, node: &'a Node, mode: &Mode<'a, '_>, planned: &mut Vec<Planned<'a>>)
        requires
            self.wf(),
        ensures
            planned_models(final(planned)@) == planned_models(old(planned)@) + visited_parameter(
                *self,
                *node,
                mode@,
            ),
        decreases height(*node), 1int,
    {
        let ghost start = planned_models(planned@);
        let ghost default = visited_field(*self, *node, Field::Default, mode@);
        if self.enter_node(range_of_parameter(node)) {
            self.add_parameter_hints(node, mode, planned);
            let typed = Mode { in_type_expression: true, ..*mode };
            self.visit_field(node, Field::Annotation, &typed, planned);
            self.visit_field(node, Field::Default, mode, planned);
            proof {
                lemma_after_three(
                    start,
                    parameter_plan(*self, *node, mode@),
                    visited_field(*self, *node, Field::Annotation, typed@),
                    default,
                );
            }
        } else {
            self.visit_field(node, Field::Default, mode, planned);
            proof {
                assert(none() + default =~= default);
            }
        }
    }

    /// Plans the hints of `node`.
    fn visit(&self, node: &'a Node, mode: &Mode<'a, '_>, planned: &mut Vec<Planned<'a>>)
        requires
            self.wf(),
        ensures
            planned_models(final(planned)@) == planned_models(old(planned)@) + visited(
                *self,
                *node,
                mode@,
            ),
        decreases height(*node), 3int,
    {
        let ghost start = planned_models(planned@);
        assert(start =~= start + none());
        match &node.kind {
            NodeKind::Module | NodeKind::Suite => {
                self.visit_children(node, mode, planned);
            },
            NodeKind::StmtAssign => {
                if self.enter_node(node.range) {
                    self.visit_assign(node, mode, planned);
                }
            },
            NodeKind::StmtAnnAssign { .. } => {
                if self.enter_node(node.range) {
                    self.visit_declaration(node, mode, planned);
                }
            },
            NodeKind::StmtExpr => {
                if self.enter_node(node.range) {
                    self.visit_field(node, Field::Value, mode, planned);
                }
            },
            NodeKind::StmtFunctionDef { .. } => {
                if self.enter_node(node.range) {
                    self.visit_function(node, mode, planned);
                }
            },
            NodeKind::StmtClassDef { .. } => {
                if self.enter_node(node.range) {
                    self.visit_class(node, mode, planned);
                }
            },
            NodeKind::StmtTypeAlias => {
                if self.enter_node(node.range) {
                    self.visit_alias(node, mode, planned);
                }
            },
            NodeKind::ExprName { .. } | NodeKind::ExprAttribute { .. } => {
                self.add_type_hint(node, mode, planned);
                push_plan(planned, self.numeric_promotion(node, mode));
                let inside = Mode { in_no_edits_allowed: true, ..*mode };
                self.walk(node, &inside, planned);
                proof {
                    lemma_after_three(
                        start,
                        variable_plan(*self, *node, mode@),
                        promotion_plan(*self, *node, mode@),
                        walked_children(*self, *node, within(mode@)),
                    );
                }
            },
            NodeKind::ExprLambda => {
                let inside = Mode { in_lambda: true, ..*mode };
                self.walk(node, &inside, planned);
            },
            NodeKind::ExprBinOp { op } => {
                if mode.in_type_expression && *op == crate::node::Operator::BitOr {
                    if self.enter_node(node.range) {
                        self.visit_union(node, mode, planned);
                    }
                } else {
                    self.walk(node, mode, planned);
                }
            },
            NodeKind::ExprSubscript { .. } => {
                if mode.in_type_expression {
                    self.visit_subscript(node, mode, planned);
                } else {
                    self.walk(node, mode, planned);
                }
            },
            NodeKind::ExprCall { .. } => {
                self.add_call_hints(node, planned);
                self.visit_field(node, Field::Func, mode, planned);
                self.visit_arguments(node, mode, planned);
                proof {
                    lemma_after_three(
                        start,
                        call_plan(*self, *node),
                        visited_field(*self, *node, Field::Func, mode@),
                        visited_arguments(
                            *self,
                            *node,
                            call_arguments(*node).len() as int,
                            mode@,
                        ),
                    );
                }
            },
            NodeKind::Parameter { .. } => {
                if self.enter_node(node.range) {
                    self.visit_parameter(node, mode, planned);
                }
            },
            _ => {
                self.walk(node, mode, planned);
            },
        }
    }

    /// Visits a union written with `|` in a type expression.
    fn visit_union(&self, node: &'a Node, mode: &Mode<'a, '_>, planned: &mut Vec<Planned<'a>>)
        requires
            self.wf(),
            is_union(*node),
        ensures
            planned_models(final(planned)@) == planned_models(old(planned)@) + visited_operands(
                *self,
                flattened(*node),
                flattened(*node).len() as int,
                mode@,
                height(*node),
            ),
        decreases height(*node), 1int,
    {
        let mut operands: Vec<&'a Node> = Vec::new();
        flatten_bit_or(node, &mut operands);
        proof {
            assert(operands@.unref() =~= flattened(*node));
            assert forall|i: int| 0 <= i < operands.len() implies height(
                #[trigger] operands@.unref()[i],
            ) < height(*node) by {
                lemma_flattened_height(*node, i);
            }
        }
        self.visit_union_operands(&operands, mode, Ghost(height(*node)), planned);
    }
}

proof fn lemma_after_two(start: Seq<PlannedModel>, a: Seq<PlannedModel>, b: Seq<PlannedModel>)
    ensures
        start + a + b == start + (a + b),
{
    assert(start + a + b =~= start + (a + b));
}

proof fn lemma_after_three(
    start: Seq<PlannedModel>,
    a: Seq<PlannedModel>,
    b: Seq<PlannedModel>,
    c: Seq<PlannedModel>,
)
    ensures
        start + a + b + c == start + (a + b + c),
{
    assert(start + a + b + c =~= start + (a + b + c));
}

proof fn lemma_after_four(
    start: Seq<PlannedModel>,
    a: Seq<PlannedModel>,
    b: Seq<PlannedModel>,
    c: Seq<PlannedModel>,
    d: Seq<PlannedModel>,
)
    ensures
        start + a + b + c + d == start + (a + b + c + d),
{
    assert(start + a + b + c + d =~= start + (a + b + c + d));
}

/// What has been made of planned hints.
pub ghost struct Resolved {
    pub hints: Seq<InlayHintModel>,
    pub imports: Map<Symbol, ImportActionModel>,
}

/// The rendering of a variable's type that is shown.
pub open spec fn rendering(cx: HintContext<'_>, variable: VariableType) -> TypeLabel {
    if names_arguments(cx) {
        variable.named
    } else {
        variable.plain
    }
}

/// The hint of a planned variable, the imports being what they are.
pub open spec fn hinted_variable(
    cx: HintContext<'_>,
    expr: Node,
    rhs: Node,
    allow_edits: bool,
    imports: Map<Symbol, ImportActionModel>,
) -> Hinted {
    match found(cx.file.facts.variables@, expr.id) {
        Some(variable) => variable_hint(
            cx.file.file,
            expr,
            rhs,
            variable,
            rendering(cx, variable),
            allow_edits,
            imports,
        ),
        None => Hinted { hint: None, imports },
    }
}

/// The hints that `planned` are, each variable's imports made after those of the ones before.
pub open spec fn resolved(cx: HintContext<'_>, planned: Seq<PlannedModel>) -> Resolved
    decreases planned.len(),
{
    if planned.len() == 0 {
        Resolved { hints: Seq::empty(), imports: Map::empty() }
    } else {
        let before = resolved(cx, planned.drop_last());
        match planned.last() {
            PlannedModel::Hint(hint) => Resolved {
                hints: before.hints.push(hint),
                imports: before.imports,
            },
            PlannedModel::Variable { expr, rhs, allow_edits } => {
                let hinted = hinted_variable(cx, expr, rhs, allow_edits, before.imports);
                Resolved {
                    hints: match hinted.hint {
                        Some(hint) => before.hints.push(hint),
                        None => before.hints,
                    },
                    imports: hinted.imports,
                }
            },
        }
    }
}

/// Where a hint at `position` goes among `sorted`: after everything that is no later.
pub open spec fn hint_slot(sorted: Seq<InlayHintModel>, position: TextSize) -> int
    decreases sorted.len(),
{
    if sorted.len() > 0 && sorted.last().position > position {
        hint_slot(sorted.drop_last(), position)
    } else {
        sorted.len() as int
    }
}

/// `hints` by where they are; those at one place keep their order.
pub open spec fn by_position(hints: Seq<InlayHintModel>) -> Seq<InlayHintModel>
    decreases hints.len(),
{
    if hints.len() == 0 {
        Seq::empty()
    } else {
        let before = by_position(hints.drop_last());
        before.insert(hint_slot(before, hints.last().position), hints.last())
    }
}

/// The hints of a file, in source order.
pub open spec fn hints_of(cx: HintContext<'_>) -> Seq<InlayHintModel> {
    by_position(resolved(cx, visited(cx, cx.file.suite, top_mode())).hints)
}

/// Puts `hint` among `sorted` by its position.
fn insert_by_position(sorted: &mut Vec<InlayHint>, hint: InlayHint)
    ensures
        hint_models(final(sorted)@) == hint_models(old(sorted)@).insert(
            hint_slot(hint_models(old(sorted)@), hint@.position),
            hint@,
        ),
{
    let ghost before = hint_models(sorted@);
    let position = hint.position;
    let mut at: usize = sorted.len();
    assert(before.take(at as int) =~= before);
    while at > 0 && sorted[at - 1].position > position
        invariant
            at <= sorted.len(),
            before == hint_models(sorted@),
            hint_slot(before, position) == hint_slot(before.take(at as int), position),
        decreases at,
    {
        assert(before.take(at as int).drop_last() =~= before.take(at - 1));
        assert(before.take(at as int).last() == sorted@[at - 1]@);
        at -= 1;
    }
    assert(at > 0 ==> before.take(at as int).last() == sorted@[at - 1]@);
    sorted.insert(at, hint);
    assert(hint_models(sorted@) =~= before.insert(at as int, hint@));
}

/// The hints of `range` of `file`, in source order.
pub fn inlay_hints(file: &HintedFile, range: TextRange, settings: &InlayHintSettings) -> (hints:
    Vec<InlayHint>)
    requires
        is_source(file.source@),
    ensures
        hint_models(hints@) == hints_of((HintContext { file, range, settings })),
{
    let cx = HintContext { file, range, settings };
    let mode = Mode {
        assignment_rhs: None,
        in_no_edits_allowed: false,
        in_type_expression: false,
        in_lambda: false,
        union_siblings: None,
        enclosing_class: None,
    };
    let mut planned: Vec<Planned<'_>> = Vec::new();
    assert(planned_models(planned@) =~= none());
    cx.visit(&file.suite, &mode, &mut planned);
    let ghost all = visited(cx, file.suite, top_mode());
    assert(planned_models(planned@) =~= all);
    // hints are planned in visit order, which is not quite source order: a
    // `raises` or `override` hint comes before what is inside the definition it sits on,
    // and a revealed type lands at the end of its own line
    let mut imports = DynamicImports::new();
    let mut hints: Vec<InlayHint> = Vec::new();
    let mut rest = planned;
    assert(hint_models(hints@) =~= by_position(resolved(cx, all.take(0)).hints));
    assert(all.skip(0) =~= all);
    while rest.len() > 0
        invariant
            cx == (HintContext { file, range, settings }),
            rest@.len() <= all.len(),
            planned_models(rest@) == all.skip(all.len() - rest@.len()),
            hint_models(hints@) == by_position(
                resolved(cx, all.take(all.len() - rest@.len())).hints,
            ),
            imports@ == resolved(cx, all.take(all.len() - rest@.len())).imports,
        decreases rest.len(),
    {
        let ghost before = rest@;
        let ghost index = all.len() - rest@.len();
        let next = rest.remove(0);
        proof {
            assert(planned_models(before)[0] == next@);
            assert(next@ == all[index]);
            assert(planned_models(rest@) =~= all.skip(index).skip(1));
            assert(all.skip(index).skip(1) =~= all.skip(index + 1));
            assert(all.take(index + 1).drop_last() =~= all.take(index));
            assert(all.take(index + 1).last() == all[index]);
        }
        match next {
            Planned::Hint(hint) => {
                proof {
                    let made = resolved(cx, all.take(index)).hints;
                    assert(made.push(hint@).drop_last() =~= made);
                }
                insert_by_position(&mut hints, hint);
            },
            Planned::Variable { expr, rhs, allow_edits } => {
                if let Some(variable) = find(&file.facts.variables, expr.id) {
                    let rendered = if settings.type_argument_names && file.is_basedpython {
                        &variable.named
                    } else {
                        &variable.plain
                    };
                    let hinted = InlayHint::variable_type(
                        file.file,
                        expr,
                        rhs,
                        variable,
                        rendered,
                        allow_edits,
                        imports,
                    );
                    imports = hinted.imports;
                    if let Some(hint) = hinted.hint {
                        proof {
                            let made = resolved(cx, all.take(index)).hints;
                            assert(made.push(hint@).drop_last() =~= made);
                        }
                        insert_by_position(&mut hints, hint);
                    }
                }
            },
        }
    }
    assert(all.take(all.len() as int) =~= all);
    hints
}

/// Whether `hints` are in source order.
pub open spec fn is_by_position(hints: Seq<InlayHintModel>) -> bool {
    forall|i: int, j: int|
        0 <= i < j < hints.len() ==> (#[trigger] hints[i]).position <= (
        #[trigger] hints[j]).position
}

proof fn lemma_hint_slot(sorted: Seq<InlayHintModel>, position: TextSize)
    requires
        is_by_position(sorted),
    ensures
        0 <= hint_slot(sorted, position) <= sorted.len(),
        forall|i: int|
            0 <= i < hint_slot(sorted, position) ==> (#[trigger] sorted[i]).position <= position,
        forall|i: int|
            hint_slot(sorted, position) <= i < sorted.len() ==> (#[trigger] sorted[i]).position
                > position,
    decreases sorted.len(),
{
    if sorted.len() > 0 && sorted.last().position > position {
        let rest = sorted.drop_last();
        assert forall|i: int, j: int| 0 <= i < j < rest.len() implies (
        #[trigger] rest[i]).position <= (#[trigger] rest[j]).position by {
            assert(rest[i] == sorted[i] && rest[j] == sorted[j]);
        }
        lemma_hint_slot(rest, position);
        assert forall|i: int| 0 <= i < hint_slot(sorted, position) implies (
        #[trigger] sorted[i]).position <= position by {
            assert(rest[i] == sorted[i]);
        }
        assert forall|i: int| hint_slot(sorted, position) <= i < sorted.len() implies (
        #[trigger] sorted[i]).position > position by {
            if i < rest.len() {
                assert(rest[i] == sorted[i]);
            }
        }
    } else {
        assert forall|i: int| 0 <= i < sorted.len() implies (#[trigger] sorted[i]).position
            <= position by {
            let last = sorted.len() - 1;
            if i < last {
                assert(sorted[i].position <= sorted[last].position);
            }
        }
    }
}

/// Ordering hints keeps them all, and puts them in source order.
pub proof fn law_by_position(hints: Seq<InlayHintModel>)
    ensures
        is_by_position(by_position(hints)),
        by_position(hints).to_multiset() =~= hints.to_multiset(),
        by_position(hints).len() == hints.len(),
    decreases hints.len(),
{
    broadcast use vstd::seq_lib::group_to_multiset_ensures;

    if hints.len() > 0 {
        let rest = hints.drop_last();
        let before = by_position(rest);
        let last = hints.last();
        law_by_position(rest);
        lemma_hint_slot(before, last.position);
        let at = hint_slot(before, last.position);
        let placed = before.insert(at, last);
        assert forall|i: int, j: int| 0 <= i < j < placed.len() implies (
        #[trigger] placed[i]).position <= (#[trigger] placed[j]).position by {
            let a = if i < at {
                before[i]
            } else if i == at {
                last
            } else {
                before[i - 1]
            };
            let b = if j < at {
                before[j]
            } else if j == at {
                last
            } else {
                before[j - 1]
            };
            assert(placed[i] == a && placed[j] == b);
        }
        assert(hints =~= rest.push(last));
        assert(placed.to_multiset() =~= before.to_multiset().insert(last));
        assert(hints.to_multiset() =~= rest.to_multiset().insert(last));
    }
}

/// Whether hints of `kind` are asked for by the settings, in a file that can have them.
pub open spec fn is_enabled(cx: HintContext<'_>, kind: InlayHintKind) -> bool {
    let settings = *cx.settings;
    match kind {
        InlayHintKind::Type => {
            ||| settings.variable_types
            ||| settings.inferred_return_types
            ||| settings.lambda_parameter_types
            ||| settings.inherited_parameter_types
        },
        InlayHintKind::CallArgumentName => settings.call_argument_names,
        InlayHintKind::Raises => settings.inferred_raises,
        InlayHintKind::Variance => settings.inferred_variance && cx.file.is_basedpython,
        InlayHintKind::Reification => settings.inferred_reification && cx.file.is_basedpython,
        InlayHintKind::TypeArgument => settings.call_type_arguments || settings.type_argument_names,
        InlayHintKind::Override => settings.inferred_override && cx.file.is_basedpython,
        InlayHintKind::NumericPromotion => settings.numeric_promotions,
        InlayHintKind::RevealedType => settings.revealed_types,
        InlayHintKind::EnumValue => settings.enum_values,
        InlayHintKind::ImplicitParameter => settings.implicit_parameters || (settings.implicit_self
            && cx.file.is_basedpython),
        InlayHintKind::ImplicitArgument => settings.implicit_arguments && cx.file.is_basedpython,
    }
}

/// Whether every parameter under `node` is named by a tight text.
pub open spec fn names_parameters(node: Node) -> bool
    decreases node,
{
    &&& node.kind matches NodeKind::Parameter { name, .. } ==> is_tight(name@)
    &&& forall|i: int|
        0 <= i < node.children@.len() ==> names_parameters(#[trigger] node.children@[i])
}

/// Whether what is said of a call is tight.
pub open spec fn are_tight_call_facts(facts: CallFacts) -> bool {
    &&& forall|i: int|
        0 <= i < facts.argument_names@.len() ==> is_tight(
            (#[trigger] facts.argument_names@[i]).1.name@,
        )
    &&& forall|i: int|
        0 <= i < facts.context_arguments@.len() ==> is_tight(
            (#[trigger] facts.context_arguments@[i]).parameter@,
        ) && is_tight(facts.context_arguments@[i].variable@)
}

/// Whether what is said of a function is tight.
pub open spec fn are_tight_function_facts(facts: FunctionFacts) -> bool {
    &&& facts.raises matches Some(raised) ==> is_tight(raised@)
    &&& facts.returned matches Some(returned) ==> is_tight(returned@)
    &&& forall|i: int|
        0 <= i < facts.implicit_parameters@.len() ==> is_tight_parameter(
            #[trigger] facts.implicit_parameters@[i],
        )
}

/// Whether the names and types that hints are made of are rendered without spaces around them.
pub open spec fn are_tight_facts(facts: HintFacts) -> bool {
    &&& forall|i: int|
        0 <= i < facts.variables@.len() ==> is_tight(
            (#[trigger] facts.variables@[i]).1.plain.label@,
        ) && is_tight(facts.variables@[i].1.named.label@)
    &&& forall|i: int|
        0 <= i < facts.promotions@.len() ==> is_tight((#[trigger] facts.promotions@[i]).arms@)
    &&& forall|i: int|
        0 <= i < facts.functions@.len() ==> are_tight_function_facts(
            (#[trigger] facts.functions@[i]).1,
        )
    &&& forall|i: int|
        0 <= i < facts.enum_values@.len() ==> ((
        #[trigger] facts.enum_values@[i]).value matches Some(value) ==> is_tight(value@))
    &&& forall|i: int|
        0 <= i < facts.calls@.len() ==> are_tight_call_facts((#[trigger] facts.calls@[i]).1)
    &&& forall|i: int, k: int|
        0 <= i < facts.type_parameters@.len() && 0 <= k < facts.type_parameters@[i].1@.len()
            ==> is_tight((#[trigger] facts.type_parameters@[i].1@[k])@)
    &&& forall|i: int|
        0 <= i < facts.revealed@.len() ==> is_tight((#[trigger] facts.revealed@[i]).1.ty@) && (
        facts.revealed@[i].1.declared matches Some(declared) ==> is_tight(declared@))
    &&& forall|i: int|
        0 <= i < facts.parameter_types@.len() ==> is_tight(
            (#[trigger] facts.parameter_types@[i]).1@,
        )
    &&& forall|i: int|
        0 <= i < facts.inherited_types@.len() ==> is_tight(
            (#[trigger] facts.inherited_types@[i]).1@,
        )
}

/// Whether what is planned is asked for and, if it is to be, tight.
spec fn is_shown(cx: HintContext<'_>, tight: bool, planned: PlannedModel) -> bool {
    match planned {
        PlannedModel::Hint(hint) => is_enabled(cx, hint.kind) && (tight ==> has_tight_label(hint)),
        PlannedModel::Variable { .. } => cx.settings.variable_types,
    }
}

spec fn all_shown(cx: HintContext<'_>, tight: bool, planned: Seq<PlannedModel>) -> bool {
    forall|i: int| 0 <= i < planned.len() ==> is_shown(cx, tight, #[trigger] planned[i])
}

broadcast proof fn lemma_both_shown(
    cx: HintContext<'_>,
    tight: bool,
    a: Seq<PlannedModel>,
    b: Seq<PlannedModel>,
)
    requires
        all_shown(cx, tight, a),
        all_shown(cx, tight, b),
    ensures
        #[trigger] all_shown(cx, tight, a + b),
{
    let both = a + b;
    assert forall|i: int| 0 <= i < both.len() implies is_shown(cx, tight, #[trigger] both[i]) by {
        assert(both[i] == if i < a.len() {
            a[i]
        } else {
            b[i - a.len()]
        });
    }
}

proof fn lemma_shown_names(
    cx: HintContext<'_>,
    tight: bool,
    names: Seq<String>,
    arguments: Seq<Node>,
    upto: int,
)
    requires
        upto <= names.len(),
        tight ==> forall|i: int| 0 <= i < names.len() ==> is_tight((#[trigger] names[i])@),
        cx.settings.type_argument_names,
    ensures
        all_shown(cx, tight, names_of_arguments(names, arguments, upto)),
    decreases upto,
{
    if upto > 0 {
        lemma_shown_names(cx, tight, names, arguments, upto - 1);
        if tight {
            let name = names[upto - 1];
            lemma_tight_type_argument_name(arguments[upto - 1].range.start, name@);
        }
    }
}

proof fn lemma_shown_reified(
    cx: HintContext<'_>,
    tight: bool,
    reified: Seq<Seq<char>>,
    type_params: Seq<Node>,
)
    requires
        is_enabled(cx, InlayHintKind::Reification),
    ensures
        all_shown(cx, tight, reified_among(reified, type_params)),
    decreases type_params.len(),
{
    if type_params.len() > 0 {
        lemma_shown_reified(cx, tight, reified, type_params.drop_last());
        lemma_tight_reification(type_params.last().range.start);
    }
}

proof fn lemma_shown_variances(
    cx: HintContext<'_>,
    tight: bool,
    variances: Seq<(u32, super::Variance)>,
    type_params: Seq<Node>,
)
    requires
        is_enabled(cx, InlayHintKind::Variance),
    ensures
        all_shown(cx, tight, variances_among(variances, type_params)),
    decreases type_params.len(),
{
    if type_params.len() > 0 {
        lemma_shown_variances(cx, tight, variances, type_params.drop_last());
        if let Some(variance) = found(variances, type_params.last().id) {
            lemma_tight_variance(type_params.last().range.start, variance);
        }
    }
}

/// What the plans of `node` itself show is enabled.
proof fn lemma_shown_of_function(cx: HintContext<'_>, tight: bool, node: Node, mode: ModeModel)
    requires
        tight ==> are_tight_facts(cx.file.facts),
        tight ==> names_parameters(node),
    ensures
        all_shown(cx, tight, return_plan(cx, node)),
        all_shown(cx, tight, raises_plan(cx, node)),
        all_shown(cx, tight, reification_plan(cx, node)),
        all_shown(cx, tight, override_plan(cx, node, mode)),
        all_shown(cx, tight, trailing_lambda_plan(cx, node)),
{
    if let Some(class) = mode.class {
        if let Some(answer) = override_of(cx.file.facts.overrides@, node.id, class) {
            lemma_tight_override(modifier_position(*cx.file, node), answer.superclass);
        }
    }
    if let Some(facts) = found(cx.file.facts.functions@, node.id) {
        let at = lemma_found_in(cx.file.facts.functions@, node.id);
        assert(cx.file.facts.functions@[at].1 == facts);
        if tight {
            if let Some(returned) = facts.returned {
                lemma_tight_return(parameters_end(node), returned@);
            }
            if let Some(raised) = facts.raises {
                let position = match child_of(node, Field::Returns) {
                    Some(returned) => returned.range.end,
                    None => parameters_end(node),
                };
                lemma_tight_raises(position, raised@);
            }
            if facts.implicit_parameters@.len() > 0 {
                if let Some(parameters) = child_of(node, Field::Parameters) {
                    if let Some(parameter) = child_of(parameters, Field::Parameter) {
                        lemma_tight_implicit_parameters(
                            past(parameter.range.start),
                            facts.implicit_parameters@,
                            true,
                            false,
                        );
                    }
                }
            }
        }
        if cx.settings.inferred_reification && cx.file.is_basedpython {
            lemma_shown_reified(cx, tight, texts(facts.reified@), type_params_of(node));
        }
    }
}

proof fn lemma_tight_enum_value(values: Seq<EnumValue>, class: u32, name: Seq<char>)
    requires
        forall|i: int|
            0 <= i < values.len() ==> ((#[trigger] values[i]).value matches Some(value)
                ==> is_tight(value@)),
    ensures
        enum_value_of(values, class, name) matches Some(value) ==> is_tight(value),
    decreases values.len(),
{
    if values.len() > 0 {
        assert(values[0].value matches Some(value) ==> is_tight(value@));
        let rest = values.skip(1);
        assert forall|i: int| 0 <= i < rest.len() implies ((
        #[trigger] rest[i]).value matches Some(value) ==> is_tight(value@)) by {
            assert(rest[i] == values[i + 1]);
        }
        lemma_tight_enum_value(rest, class, name);
    }
}

proof fn lemma_shown_enum_value(
    cx: HintContext<'_>,
    tight: bool,
    mode: ModeModel,
    name: Seq<char>,
    position: TextSize,
)
    requires
        tight ==> are_tight_facts(cx.file.facts),
    ensures
        all_shown(cx, tight, enum_value_plan(cx, mode, name, position)),
{
    if let Some(class) = mode.class {
        if tight {
            lemma_tight_enum_value(cx.file.facts.enum_values@, class, name);
            if let Some(value) = enum_value_of(cx.file.facts.enum_values@, class, name) {
                lemma_tight_text(position, value);
            }
        }
    }
}

proof fn lemma_tight_promotion(promotions: Seq<Promotion>, expr: u32, siblings: Seq<u32>)
    requires
        forall|i: int| 0 <= i < promotions.len() ==> is_tight((#[trigger] promotions[i]).arms@),
    ensures
        promotion_of(promotions, expr, siblings) matches Some(arms) ==> is_tight(arms),
    decreases promotions.len(),
{
    if promotions.len() > 0 {
        assert(is_tight(promotions[0].arms@));
        let rest = promotions.skip(1);
        assert forall|i: int| 0 <= i < rest.len() implies is_tight(
            (#[trigger] rest[i]).arms@,
        ) by {
            assert(rest[i] == promotions[i + 1]);
        }
        lemma_tight_promotion(rest, expr, siblings);
    }
}

proof fn lemma_shown_promotion(cx: HintContext<'_>, tight: bool, expr: Node, mode: ModeModel)
    requires
        tight ==> are_tight_facts(cx.file.facts),
    ensures
        all_shown(cx, tight, promotion_plan(cx, expr, mode)),
{
    if tight {
        let promotions = cx.file.facts.promotions@;
        let siblings = siblings_of(mode, expr);
        lemma_tight_promotion(promotions, expr.id, siblings);
        if let Some(arms) = promotion_of(promotions, expr.id, siblings) {
            lemma_tight_text(expr.range.end, arms);
        }
    }
}

proof fn lemma_shown_of_class(cx: HintContext<'_>, tight: bool, node: Node, mode: ModeModel)
    requires
        tight ==> are_tight_facts(cx.file.facts),
        tight ==> names_parameters(node),
    ensures
        all_shown(cx, tight, variance_plan(cx, node)),
        all_shown(cx, tight, variant_plan(cx, node, mode)),
{
    if let NodeKind::StmtClassDef { name, .. } = node.kind {
        lemma_shown_enum_value(cx, tight, mode, name@, node.range.end);
    }
    if cx.settings.inferred_variance && cx.file.is_basedpython {
        lemma_shown_variances(cx, tight, cx.file.facts.variances@, type_params_of(node));
    }
}

proof fn lemma_shown_revealed(cx: HintContext<'_>, tight: bool, call: Node)
    requires
        tight ==> are_tight_facts(cx.file.facts),
    ensures
        all_shown(cx, tight, revealed_plan(cx, call)),
{
    let positional = positional_of(call_arguments(call));
    if tight && positional.len() == 1 {
        if let Some(revealed) = found(cx.file.facts.revealed@, positional[0].id) {
            let at = lemma_found_in(cx.file.facts.revealed@, positional[0].id);
            assert(cx.file.facts.revealed@[at].1 == revealed);
            lemma_tight_revealed(
                line_end_of(cx.file.source@, call.range.end as int) as u32,
                revealed.ty@,
                text_in(revealed.declared),
            );
        }
    }
}

proof fn lemma_shown_of_call(cx: HintContext<'_>, tight: bool, node: Node)
    requires
        tight ==> are_tight_facts(cx.file.facts),
        tight ==> names_parameters(node),
    ensures
        all_shown(cx, tight, call_plan(cx, node)),
{
    broadcast use lemma_both_shown;

    if let Some(facts) = found(cx.file.facts.calls@, node.id) {
        let at = lemma_found_in(cx.file.facts.calls@, node.id);
        assert(cx.file.facts.calls@[at].1 == facts);
        lemma_shown_revealed(cx, tight, node);
        if let Some(func) = child_of(node, Field::Func) {
            lemma_tight_type_arguments(
                func.range.end,
                facts.type_arguments@,
                names_arguments(cx),
            );
        }
        if tight && facts.context_arguments@.len() > 0 {
            if let Some(arguments) = child_of(node, Field::Arguments) {
                let explicit = call_arguments(node);
                let position = if explicit.len() > 0 {
                    explicit.last().range.end
                } else {
                    past(arguments.range.start)
                };
                lemma_tight_context_arguments(
                    position,
                    explicit.len() > 0,
                    facts.context_arguments@,
                );
            }
        }
        assert(all_shown(cx, tight, type_arguments_plan(cx, node, facts)));
        assert(all_shown(cx, tight, context_arguments_plan(cx, node, facts)));
    }
}

proof fn lemma_shown_of_subscript(cx: HintContext<'_>, tight: bool, node: Node)
    requires
        tight ==> are_tight_facts(cx.file.facts),
        tight ==> names_parameters(node),
    ensures
        all_shown(cx, tight, type_argument_name_plan(cx, node)),
{
    if let (Some(value), Some(slice)) = (
        child_of(node, Field::Value),
        child_of(node, Field::Slice),
    ) {
        if let Some(names) = found(cx.file.facts.type_parameters@, value.id) {
            let at = lemma_found_in(cx.file.facts.type_parameters@, value.id);
            assert(cx.file.facts.type_parameters@[at].1 == names);
            if tight {
                assert forall|k: int| 0 <= k < names@.len() implies is_tight(
                    (#[trigger] names@[k])@,
                ) by {
                    assert(is_tight(cx.file.facts.type_parameters@[at].1@[k]@));
                }
            }
            if cx.settings.type_argument_names {
                lemma_shown_names(cx, tight, names@, arguments_in(slice), names.len() as int);
            }
        }
    }
}

proof fn lemma_tight_parameter_types(types: Seq<(u32, String)>, parameter: Node)
    requires
        forall|i: int| 0 <= i < types.len() ==> is_tight((#[trigger] types[i]).1@),
    ensures
        found(types, parameter.id) matches Some(ty) ==> (
        parameter.kind matches NodeKind::Parameter { name_range, .. } ==> has_tight_label(
            parameter_type_hint(name_range.end, ty@),
        )),
{
    if let Some(ty) = found(types, parameter.id) {
        let at = lemma_found_in(types, parameter.id);
        assert(is_tight(types[at].1@));
        if let NodeKind::Parameter { name_range, .. } = parameter.kind {
            lemma_tight_parameter_type(name_range.end, ty@);
        }
    }
}

proof fn lemma_shown_of_parameter(cx: HintContext<'_>, tight: bool, node: Node, mode: ModeModel)
    requires
        tight ==> are_tight_facts(cx.file.facts),
        tight ==> names_parameters(node),
    ensures
        all_shown(cx, tight, parameter_plan(cx, node, mode)),
{
    broadcast use lemma_both_shown;

    if tight {
        if let NodeKind::Parameter { name, .. } = node.kind {
            if let Some(ty) = found(cx.file.facts.parameter_types@, node.id) {
                let at = lemma_found_in(cx.file.facts.parameter_types@, node.id);
                assert(cx.file.facts.parameter_types@[at].1 == ty);
            }
            let label = implicit_self_label(
                name@,
                implicit_self_type(cx, node),
                another_follows(cx.file.source@, written_parameter(node).start as int),
            );
            reveal_strlit(",");
            lemma_tight_parts(label);
        }
        lemma_tight_parameter_types(cx.file.facts.parameter_types@, node);
        lemma_tight_parameter_types(cx.file.facts.inherited_types@, node);
    }
    assert(all_shown(cx, tight, implicit_self_plan(cx, node)));
    assert(all_shown(
        cx,
        tight,
        parameter_type_plan(
            cx.settings.lambda_parameter_types && mode.in_lambda,
            cx.file.facts.parameter_types@,
            node,
        ),
    ));
    assert(all_shown(
        cx,
        tight,
        parameter_type_plan(
            cx.settings.inherited_parameter_types && !mode.in_lambda,
            cx.file.facts.inherited_types@,
            node,
        ),
    ));
}

proof fn lemma_shown_in_assign(cx: HintContext<'_>, tight: bool, node: Node, mode: ModeModel)
    requires
        tight ==> are_tight_facts(cx.file.facts),
        tight ==> names_parameters(node),
    ensures
        all_shown(cx, tight, visited_assign(cx, node, mode)),
    decreases height(node), 1int, 0int,
{
    broadcast use lemma_both_shown;

    if let Some(value) = child_of(node, Field::Value) {
        lemma_shown_filling(
            cx,
            tight,
            node,
            Field::Decorator,
            children_of(node, Field::Decorator).len() as int,
            mode,
        );
        lemma_shown_filling(
            cx,
            tight,
            node,
            Field::Target,
            children_of(node, Field::Target).len() as int,
            bound_to(mode, value, mode.no_edits || !can_be_annotated(node)),
        );
        lemma_shown_in_field(
            cx,
            tight,
            node,
            Field::Value,
            ModeModel { rhs: None, no_edits: false, ..mode },
        );
        let targets = children_of(node, Field::Target);
        if targets.len() == 1 {
            if let NodeKind::ExprName { id, .. } = targets[0].kind {
                lemma_shown_enum_value(cx, tight, mode, id@, value.range.end);
            }
        }
        assert(all_shown(cx, tight, assigned_value_plan(cx, node, value, mode)));
    }
}

proof fn lemma_shown_in_declaration(cx: HintContext<'_>, tight: bool, node: Node, mode: ModeModel)
    requires
        tight ==> are_tight_facts(cx.file.facts),
        tight ==> names_parameters(node),
    ensures
        all_shown(cx, tight, visited_declaration(cx, node, mode)),
    decreases height(node), 1int, 0int,
{
    broadcast use lemma_both_shown;

    if let Some(value) = untyped_value(node) {
        lemma_shown_filling(
            cx,
            tight,
            node,
            Field::Decorator,
            children_of(node, Field::Decorator).len() as int,
            mode,
        );
        lemma_shown_in_field(cx, tight, node, Field::Target, bound_to(mode, value, mode.no_edits));
        lemma_shown_in_field(cx, tight, node, Field::Value, ModeModel { rhs: None, ..mode });
    } else {
        lemma_shown_in_children(cx, tight, node, node.children@.len() as int, mode);
    }
}

proof fn lemma_shown_in_function(cx: HintContext<'_>, tight: bool, node: Node, mode: ModeModel)
    requires
        tight ==> are_tight_facts(cx.file.facts),
        tight ==> names_parameters(node),
    ensures
        all_shown(cx, tight, visited_function(cx, node, mode)),
    decreases height(node), 1int, 0int,
{
    broadcast use lemma_both_shown;

    let inside = ModeModel { class: None, ..mode };
    lemma_shown_of_function(cx, tight, node, mode);
    lemma_shown_filling(
        cx,
        tight,
        node,
        Field::Decorator,
        children_of(node, Field::Decorator).len() as int,
        mode,
    );
    lemma_shown_in_field(cx, tight, node, Field::Body, inside);
    lemma_shown_in_children(cx, tight, node, node.children@.len() as int, inside);
}

proof fn lemma_shown_in_class(cx: HintContext<'_>, tight: bool, node: Node, mode: ModeModel)
    requires
        tight ==> are_tight_facts(cx.file.facts),
        tight ==> names_parameters(node),
    ensures
        all_shown(cx, tight, visited_class(cx, node, mode)),
    decreases height(node), 1int, 0int,
{
    broadcast use lemma_both_shown;

    let class = if cx.file.facts.classes@.contains(node.id) {
        Some(node.id)
    } else {
        None
    };
    lemma_shown_of_class(cx, tight, node, mode);
    lemma_shown_in_children(
        cx,
        tight,
        node,
        node.children@.len() as int,
        ModeModel { class, ..mode },
    );
}

proof fn lemma_shown_in_alias(cx: HintContext<'_>, tight: bool, node: Node, mode: ModeModel)
    requires
        tight ==> are_tight_facts(cx.file.facts),
        tight ==> names_parameters(node),
    ensures
        all_shown(cx, tight, visited_alias(cx, node, mode)),
    decreases height(node), 1int, 0int,
{
    broadcast use lemma_both_shown;

    lemma_shown_of_class(cx, tight, node, mode);
    lemma_shown_in_field(cx, tight, node, Field::Name, mode);
    lemma_shown_in_field(cx, tight, node, Field::TypeParams, mode);
    lemma_shown_in_field(cx, tight, node, Field::Value, ModeModel { in_type: true, ..mode });
}

/// The operands of a union name their parameters as it does.
proof fn lemma_flattened_named(expr: Node)
    requires
        names_parameters(expr),
    ensures
        forall|i: int|
            0 <= i < flattened(expr).len() ==> names_parameters(#[trigger] flattened(expr)[i]),
    decreases height(expr),
{
    if is_union(expr) {
        lemma_height_child_of(expr, Field::Left);
        lemma_height_child_of(expr, Field::Right);
        let left = match child_of(expr, Field::Left) {
            Some(left) => flattened(left),
            None => Seq::empty(),
        };
        let right = match child_of(expr, Field::Right) {
            Some(right) => flattened(right),
            None => Seq::empty(),
        };
        if let Some(operand) = child_of(expr, Field::Left) {
            let at = lemma_first_filling_in(expr.children@, Field::Left);
            assert(names_parameters(expr.children@[at]));
            lemma_flattened_named(operand);
        }
        if let Some(operand) = child_of(expr, Field::Right) {
            let at = lemma_first_filling_in(expr.children@, Field::Right);
            assert(names_parameters(expr.children@[at]));
            lemma_flattened_named(operand);
        }
        assert(flattened(expr) == left + right);
        assert forall|i: int| 0 <= i < flattened(expr).len() implies names_parameters(
            #[trigger] flattened(expr)[i],
        ) by {
            if i < left.len() {
                assert(flattened(expr)[i] == left[i]);
            } else {
                assert(flattened(expr)[i] == right[i - left.len()]);
            }
        }
    }
}

/// The arguments of a slice name their parameters as it does.
proof fn lemma_arguments_named(slice: Node)
    requires
        names_parameters(slice),
    ensures
        forall|i: int|
            0 <= i < arguments_in(slice).len() ==> names_parameters(
                #[trigger] arguments_in(slice)[i],
            ),
{
    assert forall|i: int| 0 <= i < arguments_in(slice).len() implies names_parameters(
        #[trigger] arguments_in(slice)[i],
    ) by {
        if let NodeKind::ExprTuple { parenthesized, .. } = slice.kind {
            if !parenthesized {
                let at = lemma_all_filling_in(slice.children@, Field::Elt, i);
                assert(names_parameters(slice.children@[at]));
            }
        }
    }
}

proof fn lemma_shown_in_subscript(cx: HintContext<'_>, tight: bool, node: Node, mode: ModeModel)
    requires
        tight ==> are_tight_facts(cx.file.facts),
        tight ==> names_parameters(node),
    ensures
        all_shown(cx, tight, visited_subscript(cx, node, mode)),
    decreases height(node), 1int, 1int,
{
    broadcast use lemma_both_shown;

    lemma_shown_of_subscript(cx, tight, node);
    lemma_shown_in_field(cx, tight, node, Field::Value, mode);
    lemma_shown_in_children(cx, tight, node, node.children@.len() as int, mode);
    if let Some(slice) = child_of(node, Field::Slice) {
        if tight {
            let at = lemma_first_filling_in(node.children@, Field::Slice);
            assert(names_parameters(node.children@[at]));
            lemma_arguments_named(slice);
        }
        lemma_shown_in_operands(
            cx,
            tight,
            arguments_in(slice),
            arguments_in(slice).len() as int,
            mode,
            height(node),
        );
    }
}

proof fn lemma_shown_in_parameter(cx: HintContext<'_>, tight: bool, node: Node, mode: ModeModel)
    requires
        tight ==> are_tight_facts(cx.file.facts),
        tight ==> names_parameters(node),
    ensures
        all_shown(cx, tight, visited_parameter(cx, node, mode)),
    decreases height(node), 1int, 0int,
{
    broadcast use lemma_both_shown;

    lemma_shown_of_parameter(cx, tight, node, mode);
    lemma_shown_in_field(cx, tight, node, Field::Annotation, ModeModel { in_type: true, ..mode });
    lemma_shown_in_field(cx, tight, node, Field::Default, mode);
}

proof fn lemma_shown_visited(cx: HintContext<'_>, tight: bool, node: Node, mode: ModeModel)
    requires
        tight ==> are_tight_facts(cx.file.facts),
        tight ==> names_parameters(node),
    ensures
        all_shown(cx, tight, visited(cx, node, mode)),
    decreases height(node), 2int, 0int,
{
    broadcast use lemma_both_shown;

    match node.kind {
        NodeKind::StmtAssign => lemma_shown_in_assign(cx, tight, node, mode),
        NodeKind::StmtAnnAssign { .. } => lemma_shown_in_declaration(cx, tight, node, mode),
        NodeKind::StmtExpr => lemma_shown_in_field(cx, tight, node, Field::Value, mode),
        NodeKind::StmtFunctionDef { .. } => lemma_shown_in_function(cx, tight, node, mode),
        NodeKind::StmtClassDef { .. } => lemma_shown_in_class(cx, tight, node, mode),
        NodeKind::StmtTypeAlias => lemma_shown_in_alias(cx, tight, node, mode),
        NodeKind::ExprLambda => lemma_shown_in_children(
            cx,
            tight,
            node,
            node.children@.len() as int,
            ModeModel { in_lambda: true, ..mode },
        ),
        NodeKind::ExprBinOp { .. } => {
            lemma_shown_in_children(cx, tight, node, node.children@.len() as int, mode);
            if tight {
                lemma_flattened_named(node);
            }
            lemma_shown_in_operands(
                cx,
                tight,
                flattened(node),
                flattened(node).len() as int,
                mode,
                height(node),
            );
        },
        NodeKind::ExprSubscript { .. } => {
            lemma_shown_in_children(cx, tight, node, node.children@.len() as int, mode);
            lemma_shown_in_subscript(cx, tight, node, mode);
        },
        NodeKind::ExprCall { .. } => {
            lemma_shown_of_call(cx, tight, node);
            lemma_shown_in_field(cx, tight, node, Field::Func, mode);
            lemma_shown_in_arguments(cx, tight, node, call_arguments(node).len() as int, mode);
        },
        NodeKind::Parameter { .. } => lemma_shown_in_parameter(cx, tight, node, mode),
        NodeKind::ExprName { .. } | NodeKind::ExprAttribute { .. } => {
            lemma_shown_in_children(cx, tight, node, node.children@.len() as int, within(mode));
            assert(all_shown(cx, tight, variable_plan(cx, node, mode)));
            lemma_shown_promotion(cx, tight, node, mode);
        },
        _ => lemma_shown_in_children(cx, tight, node, node.children@.len() as int, mode),
    }
}

proof fn lemma_shown_in_children(
    cx: HintContext<'_>,
    tight: bool,
    node: Node,
    upto: int,
    mode: ModeModel,
)
    requires
        tight ==> are_tight_facts(cx.file.facts),
        tight ==> names_parameters(node),
    ensures
        all_shown(cx, tight, visited_children(cx, node, upto, mode)),
    decreases height(node), 0int, upto,
{
    if 0 < upto <= node.children@.len() {
        let child = node.children@[upto - 1];
        lemma_height_child(node, upto - 1);
        lemma_shown_in_children(cx, tight, node, upto - 1, mode);
        assert(tight ==> names_parameters(node.children@[upto - 1]));
        lemma_shown_visited(cx, tight, child, mode_of_child(mode, child));
    }
}

proof fn lemma_shown_filling(
    cx: HintContext<'_>,
    tight: bool,
    node: Node,
    field: Field,
    upto: int,
    mode: ModeModel,
)
    requires
        tight ==> are_tight_facts(cx.file.facts),
        tight ==> names_parameters(node),
    ensures
        all_shown(cx, tight, visited_filling(cx, node, field, upto, mode)),
    decreases height(node), 0int, upto,
{
    if 0 < upto <= children_of(node, field).len() {
        lemma_height_children_of(node, field, upto - 1);
        lemma_shown_filling(cx, tight, node, field, upto - 1, mode);
        let at = lemma_all_filling_in(node.children@, field, upto - 1);
        assert(tight ==> names_parameters(node.children@[at]));
        lemma_shown_visited(cx, tight, children_of(node, field)[upto - 1], mode);
    }
}

proof fn lemma_shown_in_field(
    cx: HintContext<'_>,
    tight: bool,
    node: Node,
    field: Field,
    mode: ModeModel,
)
    requires
        tight ==> are_tight_facts(cx.file.facts),
        tight ==> names_parameters(node),
    ensures
        all_shown(cx, tight, visited_field(cx, node, field, mode)),
    decreases height(node), 0int, 0int,
{
    lemma_height_child_of(node, field);
    if let Some(child) = child_of(node, field) {
        let at = lemma_first_filling_in(node.children@, field);
        assert(tight ==> names_parameters(node.children@[at]));
        lemma_shown_visited(cx, tight, child, mode);
    }
}

proof fn lemma_shown_in_operands(
    cx: HintContext<'_>,
    tight: bool,
    operands: Seq<Node>,
    upto: int,
    mode: ModeModel,
    below: nat,
)
    requires
        tight ==> are_tight_facts(cx.file.facts),
        forall|i: int|
            0 <= i < operands.len() ==> (tight ==> names_parameters(#[trigger] operands[i])),
    ensures
        all_shown(cx, tight, visited_operands(cx, operands, upto, mode, below)),
    decreases below, 0int, upto,
{
    if 0 < upto <= operands.len() && height(operands[upto - 1]) < below {
        let operand = operands[upto - 1];
        let siblings = typed_beside(
            cx.file.facts.typed@,
            operands,
            upto - 1,
            operands.len() as int,
        );
        lemma_shown_in_operands(cx, tight, operands, upto - 1, mode, below);
        assert(tight ==> names_parameters(operands[upto - 1]));
        lemma_shown_visited(
            cx,
            tight,
            operand,
            ModeModel { siblings: Some((operand.range, siblings)), ..mode },
        );
    }
}

proof fn lemma_shown_argument_name(
    cx: HintContext<'_>,
    tight: bool,
    call: Node,
    arguments: Seq<Node>,
    i: int,
)
    requires
        tight ==> are_tight_facts(cx.file.facts),
    ensures
        all_shown(
            cx,
            tight,
            argument_name_plan(cx, argument_names_of(cx, call), arguments, i),
        ),
{
    let names = argument_names_of(cx, call);
    if tight && name_shown(cx, names, arguments, i) is Some {
        let name = name_shown(cx, names, arguments, i)->0;
        let facts = found(cx.file.facts.calls@, call.id)->0;
        let at = lemma_found_in(cx.file.facts.calls@, call.id);
        assert(cx.file.facts.calls@[at].1 == facts);
        let index = positional_before(arguments, i) as u32;
        let k = lemma_found_in(names, index);
        assert(is_tight(facts.argument_names@[k].1.name@));
        lemma_tight_argument_name(
            arguments[i].range.start,
            name.name@,
            name.target,
            last_editable(cx, names, arguments, arguments.len() as int) == Some(i),
        );
    }
}

proof fn lemma_shown_in_arguments(
    cx: HintContext<'_>,
    tight: bool,
    call: Node,
    upto: int,
    mode: ModeModel,
)
    requires
        tight ==> are_tight_facts(cx.file.facts),
        tight ==> names_parameters(call),
    ensures
        all_shown(cx, tight, visited_arguments(cx, call, upto, mode)),
    decreases height(call), 0int, upto,
{
    let arguments = call_arguments(call);
    if 0 < upto <= arguments.len() {
        lemma_call_arguments_height(call, upto - 1);
        lemma_passed_height(arguments[upto - 1]);
        lemma_shown_in_arguments(cx, tight, call, upto - 1, mode);
        let at = lemma_first_filling_in(call.children@, Field::Arguments);
        let list = call.children@[at];
        assert(tight ==> names_parameters(list));
        assert(tight ==> names_parameters(list.children@[upto - 1]));
        if arguments[upto - 1].kind is Keyword {
            if child_of(arguments[upto - 1], Field::Value) is Some {
                let k = lemma_first_filling_in(arguments[upto - 1].children@, Field::Value);
                assert(tight ==> names_parameters(arguments[upto - 1].children@[k]));
            }
        }
        lemma_shown_argument_name(cx, tight, call, arguments, upto - 1);
        if let Some(value) = passed(arguments[upto - 1]) {
            lemma_shown_visited(cx, tight, value, mode);
        }
    }
}

proof fn lemma_shown_resolved(cx: HintContext<'_>, tight: bool, planned: Seq<PlannedModel>)
    requires
        tight ==> are_tight_facts(cx.file.facts),
        all_shown(cx, tight, planned),
    ensures
        forall|i: int|
            0 <= i < resolved(cx, planned).hints.len() ==> is_shown(
                cx,
                tight,
                PlannedModel::Hint(#[trigger] resolved(cx, planned).hints[i]),
            ),
    decreases planned.len(),
{
    if planned.len() > 0 {
        let rest = planned.drop_last();
        assert forall|i: int| 0 <= i < rest.len() implies is_shown(
            cx,
            tight,
            #[trigger] rest[i],
        ) by {
            assert(rest[i] == planned[i]);
        }
        lemma_shown_resolved(cx, tight, rest);
        assert(is_shown(cx, tight, planned[planned.len() - 1]));
        if let PlannedModel::Variable { expr, rhs, allow_edits } = planned.last() {
            let imports = resolved(cx, rest).imports;
            if let Some(variable) = found(cx.file.facts.variables@, expr.id) {
                let at = lemma_found_in(cx.file.facts.variables@, expr.id);
                assert(cx.file.facts.variables@[at].1 == variable);
                let rendered = rendering(cx, variable);
                law_label_reads_as_the_type(
                    cx.file.file,
                    expr,
                    rhs,
                    variable,
                    rendered,
                    allow_edits,
                    imports,
                );
                reveal_strlit(": ");
                assert(tight ==> is_tight(": "@ + rendered.label@));
            }
        }
    }
}

/// Only what the settings enable is shown, and what only basedpython has is shown only in a
/// basedpython file.
pub proof fn law_only_enabled_hints(cx: HintContext<'_>, hint: InlayHintModel)
    requires
        hints_of(cx).contains(hint),
    ensures
        is_enabled(cx, hint.kind),
{
    broadcast use vstd::seq_lib::group_to_multiset_ensures;

    let planned = visited(cx, cx.file.suite, top_mode());
    let hints = resolved(cx, planned).hints;
    lemma_shown_visited(cx, false, cx.file.suite, top_mode());
    lemma_shown_resolved(cx, false, planned);
    law_by_position(hints);
    assert(by_position(hints).to_multiset().count(hint) > 0);
    assert(hints.contains(hint));
}

/// No label starts or ends with a space, whatever is hinted: where a hint is set off from the
/// source, that is its padding.
pub proof fn law_labels_are_tight(cx: HintContext<'_>, hint: InlayHintModel)
    requires
        are_tight_facts(cx.file.facts),
        names_parameters(cx.file.suite),
        hints_of(cx).contains(hint),
    ensures
        has_tight_label(hint),
{
    broadcast use vstd::seq_lib::group_to_multiset_ensures;

    let planned = visited(cx, cx.file.suite, top_mode());
    let hints = resolved(cx, planned).hints;
    lemma_shown_visited(cx, true, cx.file.suite, top_mode());
    lemma_shown_resolved(cx, true, planned);
    law_by_position(hints);
    assert(by_position(hints).to_multiset().count(hint) > 0);
    assert(hints.contains(hint));
    let i = hints.index_of(hint);
    assert(is_shown(cx, true, PlannedModel::Hint(hints[i])));
}

/// With every hint disabled a file has none.
pub proof fn law_no_hints_when_disabled(cx: HintContext<'_>)
    requires
        *cx.settings == InlayHintSettings::all_set(false),
    ensures
        hints_of(cx).len() == 0,
{
    if hints_of(cx).len() > 0 {
        law_only_enabled_hints(cx, hints_of(cx)[0]);
    }
}

} // verus!
