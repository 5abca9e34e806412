//! That nothing there is a hint for goes without one, wherever in a file it is written.
//!
//! Where a node is, is said by the path that leads to it from the file's statements; whether it is
//! hinted does not depend on how the tree is gone through.

use super::facts::{
    ArgumentName, CallFacts, ContextArgument, EnumValue, FunctionFacts, ImportActionModel,
    OverrideAnswer, Promotion, Revealed, TypeArgument, VariableType,
};
use super::imports::Symbol;
use super::matching::{
    arguments_in, can_be_annotated, header_is_synthesized, law_each_element_is_an_argument,
    untyped_value,
};
use super::variable::law_label_reads_as_the_type;
use super::visitor::{
    argument_name_plan, argument_names_of, assigned_value_plan, bound_to, by_position,
    call_arguments, call_plan, context_arguments_plan, enters, enum_value_of, hinted_variable,
    hints_of, is_editable, last_editable, law_by_position, mode_of_child, name_shown,
    names_of_arguments,
    override_of, override_plan, parameter_plan, parameter_type_plan, passed, positional_before,
    positional_of, promotion_of, promotion_plan, raises_plan, reification_plan, reified_among, rendering, resolved,
    return_plan, revealed_plan, top_mode, type_argument_name_plan, type_arguments_plan, variable_plan, variance_plan,
    variances_among, visited, visited_alias, visited_arguments, visited_assign,
    visited_children, visited_class, visited_declaration, visited_field, visited_filling,
    visited_function, visited_parameter, visited_subscript, walked_children, within, written_parameter, HintContext,
    ModeModel, PlannedModel,
};
use super::{
    context_argument_parts, enum_value_hint, override_hint, parts_text, plain_part,
    reification_hint, type_argument_name_hint, type_argument_parts, variance_hint, InlayHintKind, InlayHintModel,
    PartModel, Variance,
};
use crate::edit::text_in;
use crate::lookup::{found, is_said, lemma_said, texts};
use crate::node::{
    child_of, children_of, is_path, lemma_filling_field, lemma_first_filling_in,
    lemma_is_filling, lemma_path_rest, ExprContext, Field, Node, NodeKind,
};
use crate::source::{bytes_of, is_line_break, is_offset, line_end_of};
use crate::strings::joined;
use crate::text_size::{TextRange, TextSize};
use vstd::prelude::*;

verus! {

/// Whether `child` is a part of `parent` that a reader sees and that is not a type: what is
/// assigned and where to, what is called and passed, the suites of every statement, the operands
/// of every expression. The header of a function that no source writes is none.
pub open spec fn is_written_part(parent: Node, child: Node) -> bool {
    &&& child.field != Field::Annotation && child.field != Field::Returns && child.field
        != Field::Raises
    &&& match parent.kind {
        NodeKind::StmtTypeAlias => false,
        NodeKind::StmtExpr | NodeKind::Keyword => child_of(parent, Field::Value) == Some(child),
        NodeKind::StmtAssign => child_of(parent, Field::Value) matches Some(value) && (value == child
            || child.field == Field::Decorator || child.field == Field::Target),
        NodeKind::StmtAnnAssign { .. } => child.field == Field::Decorator || child_of(
            parent,
            Field::Target,
        ) == Some(child) || child_of(parent, Field::Value) == Some(child),
        NodeKind::StmtFunctionDef { is_trailing_lambda, .. } => {
            ||| child_of(parent, Field::Body) == Some(child)
            ||| !is_trailing_lambda && (child_of(parent, Field::Parameters) matches Some(parameters)
                && parameters.range.start != parameters.range.end)
        },
        NodeKind::ExprCall { .. } => child_of(parent, Field::Func) == Some(child) || child_of(
            parent,
            Field::Arguments,
        ) == Some(child),
        NodeKind::Parameter { .. } => child_of(parent, Field::Default) == Some(child),
        _ => true,
    }
}

pub open spec fn is_written_link(path: Seq<Node>, k: int) -> bool {
    is_written_part(path[k], path[k + 1])
}

/// Whether `range` meets the range that is hinted.
pub open spec fn meets(cx: HintContext<'_>, range: TextRange) -> bool {
    cx.range.start <= range.end && range.start <= cx.range.end && cx.range.start <= cx.range.end
        && range.start <= range.end
}

/// Whether `path` leads through what is written, and what is around its end meets the range that
/// is hinted.
pub open spec fn is_shown_path(cx: HintContext<'_>, path: Seq<Node>) -> bool {
    &&& is_path(path)
    &&& forall|k: int| 0 <= k < path.len() - 1 ==> #[trigger] is_written_link(path, k)
    &&& forall|k: int| 0 <= k < path.len() - 1 ==> meets(cx, (#[trigger] path[k]).range)
}

/// Whether `path` leads from the statements of a file to something written in it, which meets the
/// range that is hinted and does not stand for the arguments of a call or one of them.
pub open spec fn is_shown_at(cx: HintContext<'_>, path: Seq<Node>) -> bool {
    &&& is_shown_path(cx, path)
    &&& path[0] == cx.file.suite
    &&& meets(cx, path.last().range)
    &&& is_node_of_its_own(path.last())
}

pub open spec fn is_node_of_its_own(node: Node) -> bool {
    node.field != Field::Arguments && !(node.kind is Keyword)
}

/// Whether `hints` has everything in `part`.
spec fn is_included(part: Seq<PlannedModel>, hints: Seq<PlannedModel>) -> bool {
    forall|planned: PlannedModel| part.contains(planned) ==> #[trigger] hints.contains(planned)
}

proof fn lemma_included_left(a: Seq<PlannedModel>, b: Seq<PlannedModel>)
    ensures
        is_included(a, a + b),
{
    assert forall|planned: PlannedModel| a.contains(planned) implies #[trigger] (a + b).contains(
        planned,
    ) by {
        let k = a.index_of(planned);
        assert((a + b)[k] == planned);
    }
}

proof fn lemma_included_right(a: Seq<PlannedModel>, b: Seq<PlannedModel>)
    ensures
        is_included(b, a + b),
{
    assert forall|planned: PlannedModel| b.contains(planned) implies #[trigger] (a + b).contains(
        planned,
    ) by {
        let k = b.index_of(planned);
        assert((a + b)[a.len() + k] == planned);
    }
}

broadcast proof fn lemma_included_in_both(
    part: Seq<PlannedModel>,
    a: Seq<PlannedModel>,
    b: Seq<PlannedModel>,
)
    requires
        is_included(part, a) || is_included(part, b),
    ensures
        #[trigger] is_included(part, a + b),
{
    lemma_included_left(a, b);
    lemma_included_right(a, b);
    assert forall|planned: PlannedModel| part.contains(planned) implies #[trigger] (a
        + b).contains(planned) by {
        if is_included(part, a) {
            assert(a.contains(planned));
        } else {
            assert(b.contains(planned));
        }
    }
}

proof fn lemma_in_children(cx: HintContext<'_>, node: Node, upto: int, mode: ModeModel, i: int)
    requires
        0 <= i < upto <= node.children@.len(),
    ensures
        is_included(
            visited(cx, node.children@[i], mode_of_child(mode, node.children@[i])),
            visited_children(cx, node, upto, mode),
        ),
    decreases upto,
{
    broadcast use lemma_included_in_both;

    if i < upto - 1 {
        lemma_in_children(cx, node, upto - 1, mode, i);
    }
    let part = visited(cx, node.children@[i], mode_of_child(mode, node.children@[i]));
    assert(is_included(part, part));
}

proof fn lemma_in_filling(
    cx: HintContext<'_>,
    node: Node,
    field: Field,
    upto: int,
    mode: ModeModel,
    i: int,
)
    requires
        0 <= i < upto <= children_of(node, field).len(),
    ensures
        is_included(
            visited(cx, children_of(node, field)[i], mode),
            visited_filling(cx, node, field, upto, mode),
        ),
    decreases upto,
{
    broadcast use lemma_included_in_both;

    if i < upto - 1 {
        lemma_in_filling(cx, node, field, upto - 1, mode, i);
    }
    let part = visited(cx, children_of(node, field)[i], mode);
    assert(is_included(part, part));
}

proof fn lemma_in_arguments(cx: HintContext<'_>, call: Node, upto: int, mode: ModeModel, i: int)
    requires
        0 <= i < upto <= call_arguments(call).len(),
    ensures
        passed(call_arguments(call)[i]) matches Some(value) ==> is_included(
            visited(cx, value, mode),
            visited_arguments(cx, call, upto, mode),
        ),
        is_included(
            argument_name_plan(cx, argument_names_of(cx, call), call_arguments(call), i),
            visited_arguments(cx, call, upto, mode),
        ),
    decreases upto,
{
    broadcast use lemma_included_in_both;

    if i < upto - 1 {
        lemma_in_arguments(cx, call, upto - 1, mode, i);
    }
    if let Some(value) = passed(call_arguments(call)[i]) {
        let part = visited(cx, value, mode);
        assert(is_included(part, part));
    }
    let name = argument_name_plan(cx, argument_names_of(cx, call), call_arguments(call), i);
    assert(is_included(name, name));
}

/// Whether `node` binds what its parts do.
spec fn is_unpacking(node: Node) -> bool {
    node.kind is ExprTuple || node.kind is ExprList || node.kind is ExprStarred
}

/// The hints of a part are among those of the whole.
proof fn lemma_visited_part(cx: HintContext<'_>, parent: Node, child: Node, mode: ModeModel) -> (inner:
    ModeModel)
    requires
        parent.children@.contains(child),
        is_written_part(parent, child),
        meets(cx, parent.range),
        !mode.in_type,
        !(parent.kind is ExprCall && child.field == Field::Arguments),
    ensures
        !inner.in_type,
        is_included(visited(cx, child, inner), visited(cx, parent, mode)),
        is_unpacking(parent) ==> inner.rhs == mode.rhs,
        inner.in_lambda == (mode.in_lambda || parent.kind is ExprLambda),
        inner.siblings == mode.siblings,
        parent.kind is Suite ==> inner.class == mode.class,
        parent.kind is StmtClassDef ==> inner.class == (if cx.file.facts.classes@.contains(
            parent.id,
        ) {
            Some(parent.id)
        } else {
            None
        }),
        parent.kind is StmtAnnAssign && child.field == Field::Target ==> (untyped_value(
            parent,
        ) matches Some(value) ==> inner == bound_to(mode, value, mode.no_edits)),
        parent.kind is StmtAssign && child.field == Field::Target ==> (child_of(
            parent,
            Field::Value,
        ) matches Some(value) && inner == bound_to(
            mode,
            value,
            mode.no_edits || !can_be_annotated(parent),
        )),
{
    broadcast use lemma_included_in_both;

    broadcast use lemma_filling_field;

    let at = parent.children@.index_of(child);
    let j = lemma_is_filling(parent.children@, child.field, at);
    let all = children_of(parent, child.field);
    assert(enters(cx, parent.range));
    match parent.kind {
        NodeKind::StmtExpr => {
            let part = visited(cx, child, mode);
            assert(is_included(part, part));
            assert(visited_field(cx, parent, Field::Value, mode) == part);
            mode
        },
        NodeKind::Parameter { .. } => {
            let part = visited(cx, child, mode);
            assert(is_included(part, part));
            assert(visited_field(cx, parent, Field::Default, mode) == part);
            assert(is_included(part, visited_parameter(cx, parent, mode)));
            mode
        },
        NodeKind::StmtAssign => {
            let value = child_of(parent, Field::Value)->0;
            if value == child {
                let inner = ModeModel { rhs: None, no_edits: false, ..mode };
                let part = visited(cx, child, inner);
                assert(is_included(part, part));
                assert(visited_field(cx, parent, Field::Value, inner) == part);
                assert(is_included(part, visited_assign(cx, parent, mode)));
                inner
            } else if child.field == Field::Target {
                let inner = bound_to(
                    mode,
                    value,
                    mode.no_edits || !can_be_annotated(parent),
                );
                lemma_in_filling(cx, parent, Field::Target, all.len() as int, inner, j);
                assert(is_included(
                    visited(cx, child, inner),
                    visited_assign(cx, parent, mode),
                ));
                inner
            } else {
                lemma_in_filling(cx, parent, Field::Decorator, all.len() as int, mode, j);
                assert(is_included(visited(cx, child, mode), visited_assign(cx, parent, mode)));
                mode
            }
        },
        NodeKind::StmtAnnAssign { .. } => {
            match untyped_value(parent) {
                Some(value) => {
                    if child.field == Field::Decorator {
                        lemma_in_filling(cx, parent, Field::Decorator, all.len() as int, mode, j);
                        assert(is_included(
                            visited(cx, child, mode),
                            visited_declaration(cx, parent, mode),
                        ));
                        mode
                    } else if child.field == Field::Target {
                        let inner = bound_to(mode, value, mode.no_edits);
                        let part = visited(cx, child, inner);
                        assert(is_included(part, part));
                        assert(visited_field(cx, parent, Field::Target, inner) == part);
                        assert(is_included(part, visited_declaration(cx, parent, mode)));
                        inner
                    } else {
                        let inner = ModeModel { rhs: None, ..mode };
                        let part = visited(cx, child, inner);
                        assert(is_included(part, part));
                        assert(visited_field(cx, parent, Field::Value, inner) == part);
                        assert(is_included(part, visited_declaration(cx, parent, mode)));
                        inner
                    }
                },
                None => {
                    lemma_in_children(cx, parent, parent.children@.len() as int, mode, at);
                    assert(is_included(
                        visited(cx, child, mode_of_child(mode, child)),
                        visited_declaration(cx, parent, mode),
                    ));
                    mode_of_child(mode, child)
                },
            }
        },
        NodeKind::StmtFunctionDef { is_trailing_lambda, .. } => {
            let inner = ModeModel { class: None, ..mode };
            if is_trailing_lambda || header_is_synthesized(parent) {
                let part = visited(cx, child, inner);
                assert(is_included(part, part));
                assert(visited_field(cx, parent, Field::Body, inner) == part);
                assert(is_included(part, visited_function(cx, parent, mode)));
                inner
            } else {
                lemma_in_children(cx, parent, parent.children@.len() as int, inner, at);
                assert(is_included(
                    visited(cx, child, mode_of_child(inner, child)),
                    visited_function(cx, parent, mode),
                ));
                mode_of_child(inner, child)
            }
        },
        NodeKind::StmtClassDef { .. } => {
            let class = if cx.file.facts.classes@.contains(parent.id) {
                Some(parent.id)
            } else {
                None
            };
            let inner = ModeModel { class, ..mode };
            lemma_in_children(cx, parent, parent.children@.len() as int, inner, at);
            assert(is_included(
                visited(cx, child, mode_of_child(inner, child)),
                visited_class(cx, parent, mode),
            ));
            mode_of_child(inner, child)
        },
        NodeKind::ExprName { .. } | NodeKind::ExprAttribute { .. } => {
            let inner = within(mode);
            lemma_in_children(cx, parent, parent.children@.len() as int, inner, at);
            assert(is_included(
                visited(cx, child, mode_of_child(inner, child)),
                walked_children(cx, parent, inner),
            ));
            mode_of_child(inner, child)
        },
        NodeKind::ExprLambda => {
            let inner = ModeModel { in_lambda: true, ..mode };
            lemma_in_children(cx, parent, parent.children@.len() as int, inner, at);
            assert(is_included(
                visited(cx, child, mode_of_child(inner, child)),
                walked_children(cx, parent, inner),
            ));
            mode_of_child(inner, child)
        },
        NodeKind::ExprCall { .. } => {
            let part = visited(cx, child, mode);
            assert(is_included(part, part));
            assert(visited_field(cx, parent, Field::Func, mode) == part);
            mode
        },
        _ => {
            lemma_in_children(cx, parent, parent.children@.len() as int, mode, at);
            assert(is_included(
                visited(cx, child, mode_of_child(mode, child)),
                walked_children(cx, parent, mode),
            ));
            mode_of_child(mode, child)
        },
    }
}

/// Whether `path` leads into a lambda.
pub open spec fn is_in_lambda(path: Seq<Node>) -> bool {
    exists|k: int| 0 <= k < path.len() - 1 && (#[trigger] path[k]).kind is ExprLambda
}

/// Whether what fills the place of a call's arguments on `path` is not a lambda itself.
pub open spec fn has_plain_arguments(path: Seq<Node>) -> bool {
    forall|k: int|
        0 <= k < path.len() && (#[trigger] path[k]).field == Field::Arguments ==> !(path[k].kind
            is ExprLambda)
}

proof fn lemma_in_lambda_rest(path: Seq<Node>)
    requires
        path.len() > 1,
    ensures
        is_in_lambda(path) == (path[0].kind is ExprLambda || is_in_lambda(path.skip(1))),
        has_plain_arguments(path) ==> has_plain_arguments(path.skip(1)),
{
    let rest = path.skip(1);
    if is_in_lambda(rest) {
        let k = choose|k: int| 0 <= k < rest.len() - 1 && (#[trigger] rest[k]).kind is ExprLambda;
        assert(path[k + 1] == rest[k]);
    }
    if is_in_lambda(path) {
        let k = choose|k: int| 0 <= k < path.len() - 1 && (#[trigger] path[k]).kind is ExprLambda;
        if k > 0 {
            assert(rest[k - 1] == path[k]);
        }
    }
    if has_plain_arguments(path) {
        assert forall|k: int|
            0 <= k < rest.len() && (#[trigger] rest[k]).field == Field::Arguments implies !(
        rest[k].kind is ExprLambda) by {
            assert(rest[k] == path[k + 1]);
        }
    }
}

/// The hints of what a path leads to are among those of where it starts.
proof fn lemma_visited_along(cx: HintContext<'_>, path: Seq<Node>, mode: ModeModel) -> (inner: ModeModel)
    requires
        is_shown_path(cx, path),
        is_node_of_its_own(path.last()),
        !mode.in_type,
    ensures
        !inner.in_type,
        is_included(visited(cx, path.last(), inner), visited(cx, path[0], mode)),
        (forall|k: int| 0 <= k < path.len() - 1 ==> is_unpacking(#[trigger] path[k])) ==> inner.rhs
            == mode.rhs,
        has_plain_arguments(path) ==> inner.in_lambda == (mode.in_lambda || is_in_lambda(path)),
        inner.siblings == mode.siblings,
    decreases path.len(),
{
    let outer = visited(cx, path[0], mode);
    if path.len() == 1 {
        assert(is_included(outer, outer));
        mode
    } else {
        lemma_shown_rest(cx, path);
        assert(is_written_link(path, 0));
        assert(meets(cx, path[0].range));
        if path[0].kind is ExprCall && path[1].field == Field::Arguments {
            let call = path[0];
            let arguments = path[1];
            broadcast use lemma_filling_field;

            assert(child_of(call, Field::Arguments) == Some(arguments));
            let rest = path.skip(1);
            assert(rest.len() > 1);
            lemma_shown_rest(cx, rest);
            let argument = path[2];
            assert(rest[1] == argument);
            assert(rest.skip(1)[0] == argument);
            let i = arguments.children@.index_of(argument);
            assert(call_arguments(call)[i] == argument);
            lemma_in_arguments(cx, call, call_arguments(call).len() as int, mode, i);
            let below = visited_arguments(cx, call, call_arguments(call).len() as int, mode);
            broadcast use lemma_included_in_both;

            assert(is_included(below, below));
            assert(is_included(below, outer));
            if argument.kind is Keyword {
                let after = rest.skip(1);
                assert(after.len() > 1);
                assert(is_written_link(after, 0));
                lemma_shown_rest(cx, after);
                let value = after[1];
                assert(passed(argument) == Some(value));
                let inner = lemma_visited_along(cx, after.skip(1), mode);
                assert(!is_unpacking(path[0]));
                lemma_in_lambda_rest(path);
                lemma_in_lambda_rest(rest);
                lemma_in_lambda_rest(after);
                inner
            } else {
                assert(passed(argument) == Some(argument));
                let inner = lemma_visited_along(cx, rest.skip(1), mode);
                assert(!is_unpacking(path[0]));
                lemma_in_lambda_rest(path);
                lemma_in_lambda_rest(rest);
                inner
            }
        } else {
            let middle = lemma_visited_part(cx, path[0], path[1], mode);
            let rest = path.skip(1);
            let inner = lemma_visited_along(cx, rest, middle);
            lemma_in_lambda_rest(path);
            if forall|k: int| 0 <= k < path.len() - 1 ==> is_unpacking(#[trigger] path[k]) {
                assert(is_unpacking(path[0]));
                assert forall|k: int| 0 <= k < rest.len() - 1 implies is_unpacking(
                    #[trigger] rest[k],
                ) by {
                    assert(rest[k] == path[k + 1]);
                }
            }
            inner
        }
    }
}

proof fn lemma_shown_rest(cx: HintContext<'_>, path: Seq<Node>)
    requires
        is_shown_path(cx, path),
        path.len() > 1,
    ensures
        is_shown_path(cx, path.skip(1)),
        path.skip(1)[0] == path[1],
        path.skip(1).last() == path.last(),
        path[0].children@.contains(path[1]),
{
    lemma_path_rest(path);
    let rest = path.skip(1);
    assert forall|k: int| 0 <= k < rest.len() - 1 implies #[trigger] is_written_link(rest, k) by {
        assert(is_written_link(path, k + 1));
        assert(rest[k] == path[k + 1]);
        assert(rest[k + 1] == path[k + 2]);
    }
    assert forall|k: int| 0 <= k < rest.len() - 1 implies meets(cx, (#[trigger] rest[k]).range) by {
        assert(rest[k] == path[k + 1]);
    }
}

/// A planned hint is shown, and so is a planned variable that has one.
proof fn lemma_planned_is_shown(cx: HintContext<'_>, planned: Seq<PlannedModel>, i: int)
    requires
        0 <= i < planned.len(),
    ensures
        planned[i] matches PlannedModel::Hint(hint) ==> resolved(cx, planned).hints.contains(hint),
        planned[i] matches PlannedModel::Variable { expr, rhs, allow_edits } ==> ({
            let imports = resolved(cx, planned.take(i)).imports;
            hinted_variable(cx, expr, rhs, allow_edits, imports).hint matches Some(hint)
                ==> resolved(cx, planned).hints.contains(hint)
        }),
    decreases planned.len(),
{
    let before = resolved(cx, planned.drop_last());
    let after = resolved(cx, planned);
    if i < planned.len() - 1 {
        lemma_planned_is_shown(cx, planned.drop_last(), i);
        assert(planned.drop_last()[i] == planned[i]);
        assert(planned.drop_last().take(i) =~= planned.take(i));
        assert forall|hint: InlayHintModel| before.hints.contains(hint) implies #[trigger] after.hints.contains(
            hint,
        ) by {
            let k = before.hints.index_of(hint);
            assert(after.hints[k] == hint);
        }
    } else {
        assert(planned.drop_last() =~= planned.take(i));
        if after.hints.len() > before.hints.len() {
            assert(after.hints[after.hints.len() - 1] == after.hints.last());
        }
    }
}

/// What is planned for a file is among its hints.
proof fn lemma_hints_include(cx: HintContext<'_>, planned: PlannedModel) -> (imports: Map<
    Symbol,
    ImportActionModel,
>)
    requires
        visited(cx, cx.file.suite, top_mode()).contains(planned),
    ensures
        planned matches PlannedModel::Hint(hint) ==> hints_of(cx).contains(hint),
        planned matches PlannedModel::Variable { expr, rhs, allow_edits } ==> (hinted_variable(
            cx,
            expr,
            rhs,
            allow_edits,
            imports,
        ).hint matches Some(hint) ==> hints_of(cx).contains(hint)),
{
    broadcast use vstd::seq_lib::group_to_multiset_ensures;

    let all = visited(cx, cx.file.suite, top_mode());
    let hints = resolved(cx, all).hints;
    let i = all.index_of(planned);
    lemma_planned_is_shown(cx, all, i);
    law_by_position(hints);
    assert forall|hint: InlayHintModel| hints.contains(hint) implies #[trigger] hints_of(
        cx,
    ).contains(hint) by {
        assert(hints.to_multiset().count(hint) > 0);
        assert(by_position(hints).to_multiset().count(hint) > 0);
    }
    resolved(cx, all.take(i)).imports
}

/// Whether `value` may be of a type its text does not say: it is no literal, nor a sign or a
/// tuple.
pub open spec fn is_of_unwritten_type(value: Node) -> bool {
    match value.kind {
        NodeKind::ExprBytesLiteral { .. }
        | NodeKind::ExprNumberLiteral
        | NodeKind::ExprBooleanLiteral
        | NodeKind::ExprStringLiteral { .. }
        | NodeKind::ExprNoneLiteral
        | NodeKind::ExprFString { .. }
        | NodeKind::ExprTString { .. }
        | NodeKind::ExprUnaryOp { .. }
        | NodeKind::ExprTuple { .. } => false,
        _ => true,
    }
}

/// Whether `value` is a call of something named `name`, by itself or as an attribute.
pub open spec fn is_call_of(value: Node, name: Seq<char>) -> bool {
    &&& value.kind is ExprCall
    &&& child_of(value, Field::Func) matches Some(func) && match func.kind {
        NodeKind::ExprName { id, .. } => id@ == name,
        NodeKind::ExprAttribute { attr, .. } => attr@ == name,
        _ => false,
    }
}

/// Whether `target` is stored to, and by no name that starts with an underscore.
pub open spec fn is_bound(target: Node) -> bool {
    match target.kind {
        NodeKind::ExprName { id, ctx } => ctx == ExprContext::Store && !(id@.len() > 0 && id@[0]
            == '_'),
        NodeKind::ExprAttribute { ctx, .. } => ctx == ExprContext::Store,
        _ => false,
    }
}

/// Whether `cx` shows `text` at `position`, as a hint of `kind`.
pub open spec fn is_hinted(
    cx: HintContext<'_>,
    kind: InlayHintKind,
    position: TextSize,
    text: Seq<char>,
) -> bool {
    exists|i: int|
        0 <= i < hints_of(cx).len() && (#[trigger] hints_of(cx)[i]).kind == kind && hints_of(
            cx,
        )[i].position == position && parts_text(hints_of(cx)[i].label) == text
}

/// Every variable that an assignment binds is hinted, wherever in a file the assignment is: a name
/// or an attribute, on its own or unpacked into, whose type the checker knows is followed by a
/// colon and the type, unless what is assigned says its type itself.
pub proof fn law_assigned_variables_are_hinted(
    cx: HintContext<'_>,
    path: Seq<Node>,
    targets: Seq<Node>,
    variable: VariableType,
)
    requires
        is_shown_at(cx, path),
        path.last().kind is StmtAssign,
        child_of(path.last(), Field::Value) matches Some(value) && is_of_unwritten_type(value),
        is_path(targets),
        path.last().children@.contains(targets[0]),
        targets[0].field == Field::Target,
        forall|k: int|
            0 <= k < targets.len() - 1 ==> {
                &&& (#[trigger] targets[k]).kind is ExprTuple || targets[k].kind is ExprList
                    || targets[k].kind is ExprStarred
                &&& meets(cx, targets[k].range)
            },
        forall|k: int|
            1 <= k < targets.len() ==> (#[trigger] targets[k]).field == Field::Elt
                || targets[k].field == Field::Value,
        is_bound(targets.last()),
        is_said(cx.file.facts.variables@, targets.last().id, variable),
        cx.settings.variable_types,
    ensures
        ({
            let value = child_of(path.last(), Field::Value)->0;
            let label = if cx.settings.type_argument_names && cx.file.is_basedpython {
                variable.named.label@
            } else {
                variable.plain.label@
            };
            is_call_of(value, label) || is_hinted(
                cx,
                InlayHintKind::Type,
                targets.last().range.end,
                ": "@ + label,
            )
        }),
{
    let assign = path.last();
    let value = child_of(assign, Field::Value)->0;
    let target = targets.last();
    let outer = lemma_visited_along(cx, path, top_mode());
    let middle = lemma_visited_part(cx, assign, targets[0], outer);
    assert forall|k: int| 0 <= k < targets.len() - 1 implies #[trigger] is_written_link(
        targets,
        k,
    ) by {
        assert(targets[k].kind is ExprTuple || targets[k].kind is ExprList || targets[k].kind
            is ExprStarred);
        assert(targets[k + 1].field == Field::Elt || targets[k + 1].field == Field::Value);
    }
    assert(is_node_of_its_own(target));
    let inner = lemma_visited_along(cx, targets, middle);
    assert(inner.rhs == Some(value));
    lemma_said(cx.file.facts.variables@, target.id, variable);
    let planned = PlannedModel::Variable { expr: target, rhs: value, allow_edits: !inner.no_edits };
    let own = variable_plan(cx, target, inner);
    assert(own[0] == planned);
    let here = visited(cx, target, inner);
    assert(here[0] == planned);
    assert(here.contains(planned));
    assert(visited(cx, targets[0], middle).contains(planned));
    assert(visited(cx, assign, outer).contains(planned));
    assert(visited(cx, cx.file.suite, top_mode()).contains(planned));
    let imports = lemma_hints_include(cx, planned);
    let rendered = rendering(cx, variable);
    if !is_call_of(value, rendered.label@) {
        law_label_reads_as_the_type(
            cx.file.file,
            target,
            value,
            variable,
            rendered,
            !inner.no_edits,
            imports,
        );
        let hint = hinted_variable(cx, target, value, !inner.no_edits, imports).hint->0;
        let i = hints_of(cx).index_of(hint);
        assert(hints_of(cx)[i] == hint);
    }
}

/// How many of the arguments before `i` are passed by their place.
pub open spec fn places_before(arguments: Seq<Node>, i: int) -> nat {
    arguments.take(i).filter(|argument: Node| !(argument.kind is Keyword)).len()
}

proof fn lemma_places_before(arguments: Seq<Node>, i: int)
    requires
        0 <= i <= arguments.len(),
    ensures
        places_before(arguments, i) == positional_before(arguments, i),
    decreases i,
{
    reveal(Seq::filter);
    if i > 0 {
        lemma_places_before(arguments, i - 1);
        assert(arguments.take(i).drop_last() =~= arguments.take(i - 1));
        assert(arguments.take(i).last() == arguments[i - 1]);
    } else {
        assert(arguments.take(0) =~= Seq::empty());
    }
}

/// Every argument that is passed by its place is hinted, wherever in a file the call is: it comes
/// after the name of the parameter it fills, when the checker knows that, unless the name starts
/// with an underscore or the argument is itself called something.
pub proof fn law_arguments_are_hinted(
    cx: HintContext<'_>,
    path: Seq<Node>,
    arguments: Node,
    i: int,
    facts: CallFacts,
    name: ArgumentName,
)
    requires
        is_shown_at(cx, path),
        path.last().kind matches NodeKind::ExprCall { is_cast, is_string_tag } && !is_cast
            && !is_string_tag,
        child_of(path.last(), Field::Arguments) == Some(arguments),
        0 <= i < arguments.children@.len(),
        match arguments.children@[i].kind {
            NodeKind::Keyword
            | NodeKind::ExprName { .. }
            | NodeKind::ExprAttribute { .. }
            | NodeKind::ExprCall { .. }
            | NodeKind::ExprSubscript { .. } => false,
            _ => true,
        },
        is_said(cx.file.facts.calls@, path.last().id, facts),
        places_before(arguments.children@, i) <= u32::MAX,
        is_said(facts.argument_names@, places_before(arguments.children@, i) as u32, name),
        !(name.name@.len() > 0 && name.name@[0] == '_'),
        cx.settings.call_argument_names,
    ensures
        is_hinted(
            cx,
            InlayHintKind::CallArgumentName,
            arguments.children@[i].range.start,
            name.name@ + "="@,
        ),
{
    let call = path.last();
    let all = arguments.children@;
    let outer = lemma_visited_along(cx, path, top_mode());
    assert(call_arguments(call) == all);
    lemma_places_before(all, i);
    lemma_said(cx.file.facts.calls@, call.id, facts);
    lemma_said(facts.argument_names@, places_before(all, i) as u32, name);
    lemma_in_arguments(cx, call, all.len() as int, outer, i);
    let names = argument_names_of(cx, call);
    assert(name_shown(cx, names, all, i) == Some(name));
    let own = argument_name_plan(cx, names, all, i);
    let planned = own[0];
    assert(own.contains(planned));
    let below = visited_arguments(cx, call, all.len() as int, outer);
    assert(below.contains(planned));
    broadcast use lemma_included_in_both;

    assert(is_included(below, below));
    assert(is_included(below, visited(cx, call, outer)));
    assert(visited(cx, call, outer).contains(planned));
    assert(visited(cx, cx.file.suite, top_mode()).contains(planned));
    let imports = lemma_hints_include(cx, planned);
    if let PlannedModel::Hint(hint) = planned {
        let k = hints_of(cx).index_of(hint);
        assert(hints_of(cx)[k] == hint);
        let label = hint.label;
        assert(label.drop_last() =~= seq![PartModel { text: name.name@, target: name.target }]);
        assert(label.drop_last().drop_last() =~= Seq::empty());
        assert(parts_text(label.drop_last().drop_last()) =~= Seq::empty());
        assert(parts_text(label.drop_last()) =~= name.name@);
    }
}

/// Every function that leaves its return type out is hinted with it, wherever in a file it is,
/// when the checker recovers one: after its parameters, where the annotation would be written.
pub proof fn law_return_types_are_hinted(
    cx: HintContext<'_>,
    path: Seq<Node>,
    parameters: Node,
    facts: FunctionFacts,
    returned: String,
)
    requires
        is_shown_at(cx, path),
        path.last().kind matches NodeKind::StmtFunctionDef {
            is_trailing_lambda,
            is_asserts_return,
            ..
        } && !is_trailing_lambda && !is_asserts_return,
        child_of(path.last(), Field::Parameters) == Some(parameters),
        parameters.range.start != parameters.range.end,
        child_of(path.last(), Field::Returns) is None,
        is_said(cx.file.facts.functions@, path.last().id, facts),
        facts.returned == Some(returned),
        cx.settings.inferred_return_types,
    ensures
        is_hinted(cx, InlayHintKind::Type, parameters.range.end, "-> "@ + returned@),
{
    let function = path.last();
    let outer = lemma_visited_along(cx, path, top_mode());
    lemma_said(cx.file.facts.functions@, function.id, facts);
    assert(enters(cx, function.range));
    let own = return_plan(cx, function);
    let planned = own[0];
    assert(own.contains(planned));
    broadcast use lemma_included_in_both;

    assert(is_included(own, own));
    assert(is_included(own, visited(cx, function, outer)));
    assert(visited(cx, function, outer).contains(planned));
    assert(visited(cx, cx.file.suite, top_mode()).contains(planned));
    let imports = lemma_hints_include(cx, planned);
    if let PlannedModel::Hint(hint) = planned {
        let k = hints_of(cx).index_of(hint);
        assert(hints_of(cx)[k] == hint);
        assert(hint.label.drop_last() =~= Seq::empty());
        assert(parts_text(hint.label.drop_last()) =~= Seq::empty());
        assert(parts_text(hint.label) =~= "-> "@ + returned@);
    }
}

/// What is planned for a node that is shown is hinted.
proof fn lemma_own_is_hinted(
    cx: HintContext<'_>,
    node: Node,
    mode: ModeModel,
    own: Seq<PlannedModel>,
    hint: InlayHintModel,
)
    requires
        is_included(visited(cx, node, mode), visited(cx, cx.file.suite, top_mode())),
        is_included(own, visited(cx, node, mode)),
        own.contains(PlannedModel::Hint(hint)),
    ensures
        is_hinted(cx, hint.kind, hint.position, parts_text(hint.label)),
{
    let planned = PlannedModel::Hint(hint);
    assert(visited(cx, node, mode).contains(planned));
    assert(visited(cx, cx.file.suite, top_mode()).contains(planned));
    let imports = lemma_hints_include(cx, planned);
    let k = hints_of(cx).index_of(hint);
    assert(hints_of(cx)[k] == hint);
}

proof fn lemma_one_part(part: PartModel)
    ensures
        parts_text(seq![part]) == part.text,
{
    let parts = seq![part];
    assert(parts.drop_last() =~= Seq::empty());
    assert(parts_text(parts.drop_last()) =~= Seq::empty());
    assert(parts_text(parts) =~= part.text);
}

/// Every function that does not say what it raises is hinted with it, wherever in a file it is,
/// when the checker knows: after its return type or, without one, after its parameters.
pub proof fn law_raised_exceptions_are_hinted(
    cx: HintContext<'_>,
    path: Seq<Node>,
    parameters: Node,
    facts: FunctionFacts,
    raised: String,
)
    requires
        is_shown_at(cx, path),
        path.last().kind matches NodeKind::StmtFunctionDef { is_trailing_lambda, .. }
            && !is_trailing_lambda,
        child_of(path.last(), Field::Parameters) == Some(parameters),
        parameters.range.start != parameters.range.end,
        child_of(path.last(), Field::Raises) is None,
        is_said(cx.file.facts.functions@, path.last().id, facts),
        facts.raises == Some(raised),
        cx.settings.inferred_raises,
    ensures
        is_hinted(
            cx,
            InlayHintKind::Raises,
            match child_of(path.last(), Field::Returns) {
                Some(returned) => returned.range.end,
                None => parameters.range.end,
            },
            "raises "@ + raised@,
        ),
{
    let function = path.last();
    let outer = lemma_visited_along(cx, path, top_mode());
    lemma_said(cx.file.facts.functions@, function.id, facts);
    assert(enters(cx, function.range));
    let own = raises_plan(cx, function);
    broadcast use lemma_included_in_both;

    assert(is_included(own, own));
    assert(is_included(own, visited(cx, function, outer)));
    if let PlannedModel::Hint(hint) = own[0] {
        assert(own.contains(PlannedModel::Hint(hint)));
        lemma_one_part(hint.label[0]);
        assert(hint.label =~= seq![hint.label[0]]);
        lemma_own_is_hinted(cx, function, outer, own, hint);
    }
}

/// Every type parameter of a function that is reified by what its body does with it is hinted so,
/// ahead of everything its declaration says.
pub proof fn law_reified_parameters_are_hinted(
    cx: HintContext<'_>,
    path: Seq<Node>,
    parameters: Node,
    type_params: Node,
    i: int,
    facts: FunctionFacts,
    r: int,
)
    requires
        is_shown_at(cx, path),
        path.last().kind matches NodeKind::StmtFunctionDef { is_trailing_lambda, .. }
            && !is_trailing_lambda,
        child_of(path.last(), Field::Parameters) == Some(parameters),
        parameters.range.start != parameters.range.end,
        child_of(path.last(), Field::TypeParams) == Some(type_params),
        0 <= i < type_params.children@.len(),
        is_said(cx.file.facts.functions@, path.last().id, facts),
        0 <= r < facts.reified@.len(),
        type_params.children@[i].kind matches NodeKind::TypeParam { name, .. } && name@
            == facts.reified@[r]@,
        cx.settings.inferred_reification,
        cx.file.is_basedpython,
    ensures
        is_hinted(
            cx,
            InlayHintKind::Reification,
            type_params.children@[i].range.start,
            "reified"@,
        ),
{
    let function = path.last();
    let outer = lemma_visited_along(cx, path, top_mode());
    lemma_said(cx.file.facts.functions@, function.id, facts);
    assert(enters(cx, function.range));
    let own = reification_plan(cx, function);
    broadcast use lemma_included_in_both;

    assert(is_included(own, own));
    assert(is_included(own, visited(cx, function, outer)));
    let hint = reification_hint(type_params.children@[i].range.start);
    assert(texts(facts.reified@)[r] == facts.reified@[r]@);
    lemma_reified_each(texts(facts.reified@), type_params.children@, i);
    lemma_one_part(hint.label[0]);
    assert(hint.label =~= seq![hint.label[0]]);
    lemma_own_is_hinted(cx, function, outer, own, hint);
}

proof fn lemma_reified_each(reified: Seq<Seq<char>>, type_params: Seq<Node>, i: int)
    requires
        0 <= i < type_params.len(),
        type_params[i].kind matches NodeKind::TypeParam { name, .. } && reified.contains(name@),
    ensures
        reified_among(reified, type_params).contains(
            PlannedModel::Hint(reification_hint(type_params[i].range.start)),
        ),
    decreases type_params.len(),
{
    let all = reified_among(reified, type_params);
    let before = reified_among(reified, type_params.drop_last());
    let hint = PlannedModel::Hint(reification_hint(type_params[i].range.start));
    if i < type_params.len() - 1 {
        assert(type_params.drop_last()[i] == type_params[i]);
        lemma_reified_each(reified, type_params.drop_last(), i);
        let k = before.index_of(hint);
        assert(all[k] == hint);
    } else {
        assert(all[all.len() - 1] == hint);
    }
}

/// Every type parameter of a class or an alias that declares no variance is hinted with the one
/// that is inferred for it, when it is known, ahead of everything its declaration says.
pub proof fn law_variances_are_hinted(
    cx: HintContext<'_>,
    path: Seq<Node>,
    type_params: Node,
    i: int,
    variance: Variance,
)
    requires
        is_shown_at(cx, path),
        path.last().kind is StmtClassDef || path.last().kind is StmtTypeAlias,
        child_of(path.last(), Field::TypeParams) == Some(type_params),
        0 <= i < type_params.children@.len(),
        type_params.children@[i].kind matches NodeKind::TypeParam { has_variance, .. }
            && !has_variance,
        is_said(cx.file.facts.variances@, type_params.children@[i].id, variance),
        cx.settings.inferred_variance,
        cx.file.is_basedpython,
    ensures
        is_hinted(
            cx,
            InlayHintKind::Variance,
            type_params.children@[i].range.start,
            match variance {
                Variance::Covariant => "out"@,
                Variance::Contravariant => "in"@,
                Variance::Invariant => "in out"@,
            },
        ),
{
    let owner = path.last();
    let outer = lemma_visited_along(cx, path, top_mode());
    lemma_said(cx.file.facts.variances@, type_params.children@[i].id, variance);
    assert(enters(cx, owner.range));
    let own = variance_plan(cx, owner);
    broadcast use lemma_included_in_both;

    assert(is_included(own, own));
    if owner.kind is StmtClassDef {
        assert(is_included(own, visited_class(cx, owner, outer)));
    } else {
        assert(is_included(own, visited_alias(cx, owner, outer)));
    }
    assert(is_included(own, visited(cx, owner, outer)));
    let hint = variance_hint(type_params.children@[i].range.start, variance);
    lemma_variance_each(cx.file.facts.variances@, type_params.children@, i, variance);
    lemma_one_part(hint.label[0]);
    assert(hint.label =~= seq![hint.label[0]]);
    lemma_own_is_hinted(cx, owner, outer, own, hint);
}

proof fn lemma_variance_each(
    variances: Seq<(u32, Variance)>,
    type_params: Seq<Node>,
    i: int,
    variance: Variance,
)
    requires
        0 <= i < type_params.len(),
        type_params[i].kind matches NodeKind::TypeParam { has_variance, .. } && !has_variance,
        found(variances, type_params[i].id) == Some(variance),
    ensures
        variances_among(variances, type_params).contains(
            PlannedModel::Hint(variance_hint(type_params[i].range.start, variance)),
        ),
    decreases type_params.len(),
{
    let all = variances_among(variances, type_params);
    let before = variances_among(variances, type_params.drop_last());
    let hint = PlannedModel::Hint(variance_hint(type_params[i].range.start, variance));
    if i < type_params.len() - 1 {
        assert(type_params.drop_last()[i] == type_params[i]);
        lemma_variance_each(variances, type_params.drop_last(), i, variance);
        let k = before.index_of(hint);
        assert(all[k] == hint);
    } else {
        assert(all[all.len() - 1] == hint);
    }
}

/// Whether the first of `answers` on the method `function` of `class` is number `i`.
pub open spec fn is_first_answer(
    answers: Seq<OverrideAnswer>,
    i: int,
    function: u32,
    class: u32,
) -> bool {
    &&& 0 <= i < answers.len()
    &&& answers[i].function == function && answers[i].class == class
    &&& forall|j: int|
        0 <= j < i ==> (#[trigger] answers[j]).function != function || answers[j].class != class
}

proof fn lemma_first_answer(answers: Seq<OverrideAnswer>, i: int, function: u32, class: u32)
    requires
        is_first_answer(answers, i, function, class),
    ensures
        override_of(answers, function, class) == Some(answers[i]),
    decreases i,
{
    if i > 0 {
        assert(answers[0].function != function || answers[0].class != class);
        assert forall|j: int| 0 <= j < i - 1 implies (#[trigger] answers.skip(1)[j]).function
            != function || answers.skip(1)[j].class != class by {
            assert(answers.skip(1)[j] == answers[j + 1]);
        }
        lemma_first_answer(answers.skip(1), i - 1, function, class);
    }
}

/// Every method that overrides a member of a superclass and does not say so is hinted with it: a
/// function right in the body of a class, where it starts unless it has decorators.
pub proof fn law_overrides_are_hinted(
    cx: HintContext<'_>,
    path: Seq<Node>,
    body: Node,
    function: Node,
    parameters: Node,
    i: int,
)
    requires
        is_shown_at(cx, path),
        path.last().kind is StmtClassDef,
        cx.file.facts.classes@.contains(path.last().id),
        path.last().children@.contains(body),
        body.field == Field::Body,
        body.kind is Suite,
        body.children@.contains(function),
        meets(cx, body.range),
        meets(cx, function.range),
        function.field != Field::Annotation && function.field != Field::Returns && function.field
            != Field::Raises,
        function.kind matches NodeKind::StmtFunctionDef { is_trailing_lambda, .. }
            && !is_trailing_lambda,
        child_of(function, Field::Parameters) == Some(parameters),
        parameters.range.start != parameters.range.end,
        children_of(function, Field::Decorator).len() == 0,
        is_first_answer(cx.file.facts.overrides@, i, function.id, path.last().id),
        cx.settings.inferred_override,
        cx.file.is_basedpython,
    ensures
        is_hinted(cx, InlayHintKind::Override, function.range.start, "override"@),
{
    let class = path.last();
    let outer = lemma_visited_along(cx, path, top_mode());
    let middle = lemma_visited_part(cx, class, body, outer);
    let inner = lemma_visited_part(cx, body, function, middle);
    assert(enters(cx, function.range));
    lemma_first_answer(cx.file.facts.overrides@, i, function.id, class.id);
    let own = override_plan(cx, function, inner);
    broadcast use lemma_included_in_both;

    assert(is_included(own, own));
    assert(is_included(own, visited(cx, function, inner)));
    assert(is_included(visited(cx, function, inner), visited(cx, cx.file.suite, top_mode()))) by {
        assert forall|planned: PlannedModel|
            visited(cx, function, inner).contains(planned) implies #[trigger] visited(
            cx,
            cx.file.suite,
            top_mode(),
        ).contains(planned) by {
            assert(visited(cx, body, middle).contains(planned));
            assert(visited(cx, class, outer).contains(planned));
        }
    }
    let hint = override_hint(function.range.start, cx.file.facts.overrides@[i].superclass);
    assert(own[0] == PlannedModel::Hint(hint));
    lemma_one_part(hint.label[0]);
    assert(hint.label =~= seq![hint.label[0]]);
    lemma_own_is_hinted(cx, function, inner, own, hint);
}

/// Every parameter that is written without a type is hinted with the one it has, wherever in a
/// file it is, when the checker knows one: in a lambda the one that its call gives it, and in any
/// other function the one of the method that is overridden.
pub proof fn law_parameter_types_are_hinted(cx: HintContext<'_>, path: Seq<Node>, ty: String)
    requires
        is_shown_at(cx, path),
        has_plain_arguments(path),
        path.last().kind is Parameter,
        child_of(path.last(), Field::Annotation) is None,
        path.last().kind matches NodeKind::Parameter { name_range, .. } && path.last().range.start
            < name_range.end && meets(
            cx,
            (TextRange { start: path.last().range.start, end: name_range.end }),
        ),
        if is_in_lambda(path) {
            cx.settings.lambda_parameter_types && is_said(
                cx.file.facts.parameter_types@,
                path.last().id,
                ty,
            )
        } else {
            cx.settings.inherited_parameter_types && is_said(
                cx.file.facts.inherited_types@,
                path.last().id,
                ty,
            )
        },
    ensures
        path.last().kind matches NodeKind::Parameter { name_range, .. } && is_hinted(
            cx,
            InlayHintKind::Type,
            name_range.end,
            ": "@ + ty@,
        ),
{
    let parameter = path.last();
    let outer = lemma_visited_along(cx, path, top_mode());
    assert(enters(cx, parameter.range));
    assert(enters(cx, written_parameter(parameter)));
    let own = if is_in_lambda(path) {
        lemma_said(cx.file.facts.parameter_types@, parameter.id, ty);
        parameter_type_plan(
            cx.settings.lambda_parameter_types && outer.in_lambda,
            cx.file.facts.parameter_types@,
            parameter,
        )
    } else {
        lemma_said(cx.file.facts.inherited_types@, parameter.id, ty);
        parameter_type_plan(
            cx.settings.inherited_parameter_types && !outer.in_lambda,
            cx.file.facts.inherited_types@,
            parameter,
        )
    };
    broadcast use lemma_included_in_both;

    assert(is_included(own, own));
    assert(is_included(own, parameter_plan(cx, parameter, outer)));
    assert(is_included(own, visited_parameter(cx, parameter, outer)));
    assert(is_included(own, visited(cx, parameter, outer)));
    if let PlannedModel::Hint(hint) = own[0] {
        assert(own.contains(PlannedModel::Hint(hint)));
        lemma_one_part(hint.label[0]);
        assert(hint.label =~= seq![hint.label[0]]);
        lemma_own_is_hinted(cx, parameter, outer, own, hint);
    }
}

/// Whether `arguments` passes just one thing by its place.
pub open spec fn is_only_positional(arguments: Seq<Node>, i: int) -> bool {
    &&& 0 <= i < arguments.len()
    &&& forall|j: int|
        0 <= j < arguments.len() ==> ((#[trigger] arguments[j]).kind is Keyword <==> j != i)
}

proof fn lemma_only_positional(arguments: Seq<Node>, i: int)
    requires
        0 <= i,
        forall|j: int|
            0 <= j < arguments.len() ==> ((#[trigger] arguments[j]).kind is Keyword <==> j != i),
    ensures
        i < arguments.len() ==> positional_of(arguments) == seq![arguments[i]],
        i >= arguments.len() ==> positional_of(arguments).len() == 0,
    decreases arguments.len(),
{
    if arguments.len() > 0 {
        let before = arguments.drop_last();
        assert forall|j: int| 0 <= j < before.len() implies ((#[trigger] before[j]).kind is Keyword
            <==> j != i) by {
            assert(before[j] == arguments[j]);
        }
        lemma_only_positional(before, i);
        assert(arguments[arguments.len() - 1] == arguments.last());
        if i < arguments.len() - 1 {
            assert(before[i] == arguments[i]);
        } else if i == arguments.len() - 1 {
            assert(positional_of(arguments) =~= seq![arguments[i]]);
        }
    }
}

/// Whether the line of `text` that `offset` is in ends at `end`: there is no line break before it,
/// and one there, unless the text ends.
pub open spec fn is_line_end(text: Seq<char>, offset: int, end: int) -> bool {
    &&& offset <= end <= bytes_of(text).len()
    &&& forall|k: int| offset <= k < end ==> #[trigger] bytes_of(text)[k] != 0x0a && bytes_of(text)[k]
        != 0x0d
    &&& end < bytes_of(text).len() ==> bytes_of(text)[end] == 0x0a || bytes_of(text)[end] == 0x0d
}

proof fn lemma_is_line_end(text: Seq<char>, offset: int)
    requires
        0 <= offset <= bytes_of(text).len(),
    ensures
        is_line_end(text, offset, line_end_of(text, offset)),
    decreases bytes_of(text).len() - offset,
{
    if offset < bytes_of(text).len() && !is_line_break(bytes_of(text)[offset]) {
        lemma_is_line_end(text, offset + 1);
    }
}

/// What every call of `reveal_type` reveals is hinted where its line ends, wherever in a file the
/// call is, with the type that was declared when that is another.
pub proof fn law_revealed_types_are_hinted(
    cx: HintContext<'_>,
    path: Seq<Node>,
    arguments: Node,
    i: int,
    facts: CallFacts,
    revealed: Revealed,
) -> (end: TextSize)
    requires
        is_shown_at(cx, path),
        path.last().kind is ExprCall,
        child_of(path.last(), Field::Arguments) == Some(arguments),
        is_only_positional(arguments.children@, i),
        is_said(cx.file.facts.calls@, path.last().id, facts),
        facts.reveals_type,
        is_said(cx.file.facts.revealed@, arguments.children@[i].id, revealed),
        is_offset(cx.file.source@, path.last().range.end as int),
        bytes_of(cx.file.source@).len() <= u32::MAX,
        cx.settings.revealed_types,
    ensures
        is_line_end(cx.file.source@, path.last().range.end as int, end as int),
        is_hinted(
            cx,
            InlayHintKind::RevealedType,
            end,
            match revealed.declared {
                Some(declared) => revealed.ty@ + ", narrowed from "@ + declared@,
                None => revealed.ty@,
            },
        ),
{
    let call = path.last();
    let outer = lemma_visited_along(cx, path, top_mode());
    lemma_said(cx.file.facts.calls@, call.id, facts);
    lemma_said(cx.file.facts.revealed@, arguments.children@[i].id, revealed);
    lemma_only_positional(arguments.children@, i);
    lemma_is_line_end(cx.file.source@, call.range.end as int);
    let own = revealed_plan(cx, call);
    broadcast use lemma_included_in_both;

    assert(is_included(own, own));
    assert(is_included(own, call_plan(cx, call)));
    assert(is_included(own, visited(cx, call, outer)));
    let end = line_end_of(cx.file.source@, call.range.end as int) as u32;
    if let PlannedModel::Hint(hint) = own[0] {
        assert(own.contains(PlannedModel::Hint(hint)));
        lemma_one_part(hint.label[0]);
        assert(hint.label =~= seq![hint.label[0]]);
        lemma_own_is_hinted(cx, call, outer, own, hint);
    }
    end
}

/// What a type argument reads as, in a list that names them or not.
pub open spec fn type_argument_texts(arguments: Seq<TypeArgument>, named: bool) -> Seq<Seq<char>> {
    arguments.map_values(
        |argument: TypeArgument|
            if named {
                argument.parameter@ + "="@ + argument.text@
            } else {
                argument.text@
            },
    )
}

proof fn lemma_parts_pushed(parts: Seq<PartModel>, part: PartModel)
    ensures
        parts_text(parts.push(part)) == parts_text(parts) + part.text,
{
    assert(parts.push(part).drop_last() =~= parts);
}

proof fn lemma_parts_led(first: PartModel, rest: Seq<PartModel>)
    ensures
        parts_text(seq![first] + rest) == first.text + parts_text(rest),
    decreases rest.len(),
{
    let parts = seq![first] + rest;
    if rest.len() == 0 {
        assert(parts =~= seq![first]);
        lemma_one_part(first);
        assert(first.text + parts_text(rest) =~= first.text);
    } else {
        lemma_parts_led(first, rest.drop_last());
        assert(parts.drop_last() =~= seq![first] + rest.drop_last());
        assert(parts.last() == rest.last());
        assert(parts_text(parts) =~= first.text + parts_text(rest));
    }
}

proof fn lemma_type_argument_text(arguments: Seq<TypeArgument>, named: bool)
    ensures
        parts_text(type_argument_parts(arguments, named)) == joined(
            type_argument_texts(arguments, named),
            ", "@,
        ),
    decreases arguments.len(),
{
    let all = type_argument_texts(arguments, named);
    if arguments.len() > 0 {
        let before = type_argument_parts(arguments.drop_last(), named);
        let argument = arguments.last();
        lemma_type_argument_text(arguments.drop_last(), named);
        assert(all.drop_last() =~= type_argument_texts(arguments.drop_last(), named));
        let separated = if arguments.len() > 1 {
            before.push(plain_part(", "@))
        } else {
            before
        };
        let introduced = if named {
            separated.push(plain_part(argument.parameter@ + "="@))
        } else {
            separated
        };
        lemma_parts_pushed(before, plain_part(", "@));
        lemma_parts_pushed(separated, plain_part(argument.parameter@ + "="@));
        lemma_parts_pushed(
            introduced,
            PartModel { text: argument.text@, target: argument.target },
        );
        assert(parts_text(type_argument_parts(arguments, named)) =~= joined(all, ", "@));
    }
}

/// Every call of something generic that does not say its type arguments is hinted with those that
/// are inferred, wherever in a file it is, when any of them is known: between brackets, after what
/// is called, each with the name of its parameter where that can be written and there are several.
pub proof fn law_type_arguments_are_hinted(
    cx: HintContext<'_>,
    path: Seq<Node>,
    func: Node,
    facts: CallFacts,
    k: int,
)
    requires
        is_shown_at(cx, path),
        path.last().kind matches NodeKind::ExprCall { is_cast, is_string_tag } && !is_cast
            && !is_string_tag,
        child_of(path.last(), Field::Func) == Some(func),
        !(func.kind is ExprSubscript),
        is_said(cx.file.facts.calls@, path.last().id, facts),
        !facts.reveals_type,
        0 <= k < facts.type_arguments@.len(),
        !facts.type_arguments@[k].is_unknown,
        cx.settings.call_type_arguments,
    ensures
        is_hinted(
            cx,
            InlayHintKind::TypeArgument,
            func.range.end,
            "["@ + joined(
                type_argument_texts(
                    facts.type_arguments@,
                    cx.settings.type_argument_names && cx.file.is_basedpython
                        && facts.type_arguments@.len() > 1,
                ),
                ", "@,
            ) + "]"@,
        ),
{
    let call = path.last();
    let outer = lemma_visited_along(cx, path, top_mode());
    lemma_said(cx.file.facts.calls@, call.id, facts);
    let own = type_arguments_plan(cx, call, facts);
    broadcast use lemma_included_in_both;

    assert(is_included(own, own));
    assert(is_included(own, call_plan(cx, call)));
    assert(is_included(own, visited(cx, call, outer)));
    let named = cx.settings.type_argument_names && cx.file.is_basedpython
        && facts.type_arguments@.len() > 1;
    let parts = type_argument_parts(facts.type_arguments@, named);
    lemma_type_argument_text(facts.type_arguments@, named);
    lemma_parts_led(plain_part("["@), parts);
    lemma_parts_pushed(seq![plain_part("["@)] + parts, plain_part("]"@));
    if let PlannedModel::Hint(hint) = own[0] {
        assert(own.contains(PlannedModel::Hint(hint)));
        lemma_own_is_hinted(cx, call, outer, own, hint);
    }
}

/// What an argument that a call leaves out reads as.
pub open spec fn context_argument_texts(arguments: Seq<ContextArgument>) -> Seq<Seq<char>> {
    arguments.map_values(
        |argument: ContextArgument| argument.parameter@ + "="@ + argument.variable@,
    )
}

proof fn lemma_context_argument_text(arguments: Seq<ContextArgument>, leading: bool)
    requires
        arguments.len() > 0,
    ensures
        parts_text(context_argument_parts(arguments, leading)) == (if leading {
            ", "@
        } else {
            Seq::empty()
        }) + joined(context_argument_texts(arguments), ", "@),
    decreases arguments.len(),
{
    let all = context_argument_texts(arguments);
    let before = context_argument_parts(arguments.drop_last(), leading);
    let argument = arguments.last();
    assert(all.drop_last() =~= context_argument_texts(arguments.drop_last()));
    if arguments.len() > 1 {
        lemma_context_argument_text(arguments.drop_last(), leading);
    } else {
        assert(parts_text(before) =~= Seq::empty());
    }
    let separated = if leading || arguments.len() > 1 {
        before.push(plain_part(", "@))
    } else {
        before
    };
    let introduced = separated.push(plain_part(argument.parameter@ + "="@));
    lemma_parts_pushed(before, plain_part(", "@));
    lemma_parts_pushed(separated, plain_part(argument.parameter@ + "="@));
    lemma_parts_pushed(
        introduced,
        PartModel { text: argument.variable@, target: argument.declaration },
    );
    let start = if leading {
        ", "@
    } else {
        Seq::empty()
    };
    assert(parts_text(context_argument_parts(arguments, leading)) =~= start + joined(all, ", "@));
}

/// Every call that leaves arguments to the `context` it is in is hinted with them, wherever in a
/// file it is: by keyword, after the arguments that are written, with a comma if there are any.
pub proof fn law_context_arguments_are_hinted(
    cx: HintContext<'_>,
    path: Seq<Node>,
    arguments: Node,
    facts: CallFacts,
)
    requires
        is_shown_at(cx, path),
        path.last().kind is ExprCall,
        child_of(path.last(), Field::Arguments) == Some(arguments),
        is_said(cx.file.facts.calls@, path.last().id, facts),
        facts.context_arguments@.len() > 0,
        arguments.range.start < u32::MAX,
        cx.settings.implicit_arguments,
        cx.file.is_basedpython,
    ensures
        ({
            let written = arguments.children@;
            let texts = joined(context_argument_texts(facts.context_arguments@), ", "@);
            if written.len() > 0 {
                is_hinted(
                    cx,
                    InlayHintKind::ImplicitArgument,
                    written.last().range.end,
                    ", "@ + texts,
                )
            } else {
                is_hinted(
                    cx,
                    InlayHintKind::ImplicitArgument,
                    (arguments.range.start + 1) as u32,
                    texts,
                )
            }
        }),
{
    let call = path.last();
    let outer = lemma_visited_along(cx, path, top_mode());
    lemma_said(cx.file.facts.calls@, call.id, facts);
    let own = context_arguments_plan(cx, call, facts);
    broadcast use lemma_included_in_both;

    assert(is_included(own, own));
    assert(is_included(own, call_plan(cx, call)));
    assert(is_included(own, visited(cx, call, outer)));
    let leading = arguments.children@.len() > 0;
    lemma_context_argument_text(facts.context_arguments@, leading);
    if let PlannedModel::Hint(hint) = own[0] {
        assert(own.contains(PlannedModel::Hint(hint)));
        lemma_own_is_hinted(cx, call, outer, own, hint);
        if !leading {
            let texts = joined(context_argument_texts(facts.context_arguments@), ", "@);
            assert(Seq::<char>::empty() + texts =~= texts);
        }
    }
}

/// Whether the first of `values` for the member `name` of `class` is number `i`.
pub open spec fn is_first_value(values: Seq<EnumValue>, i: int, class: u32, name: Seq<char>) -> bool {
    &&& 0 <= i < values.len()
    &&& values[i].class == class && values[i].name@ == name
    &&& forall|j: int|
        0 <= j < i ==> (#[trigger] values[j]).class != class || values[j].name@ != name
}

proof fn lemma_first_value(values: Seq<EnumValue>, i: int, class: u32, name: Seq<char>)
    requires
        is_first_value(values, i, class, name),
    ensures
        enum_value_of(values, class, name) == text_in(values[i].value),
    decreases i,
{
    if i > 0 {
        assert(values[0].class != class || values[0].name@ != name);
        assert forall|j: int| 0 <= j < i - 1 implies (#[trigger] values.skip(1)[j]).class != class
            || values.skip(1)[j].name@ != name by {
            assert(values.skip(1)[j] == values[j + 1]);
        }
        lemma_first_value(values.skip(1), i - 1, class, name);
    }
}

/// The value of every member of an enum that does not write it is hinted: after what is assigned
/// to a member right in the body of a class.
pub proof fn law_enum_values_are_hinted(
    cx: HintContext<'_>,
    path: Seq<Node>,
    body: Node,
    member: Node,
    target: Node,
    value: Node,
    i: int,
    shown: String,
)
    requires
        is_shown_at(cx, path),
        path.last().kind is StmtClassDef,
        cx.file.facts.classes@.contains(path.last().id),
        path.last().children@.contains(body),
        body.field == Field::Body,
        body.kind is Suite,
        body.children@.contains(member),
        meets(cx, body.range),
        meets(cx, member.range),
        member.field != Field::Annotation && member.field != Field::Returns && member.field
            != Field::Raises,
        member.kind is StmtAssign,
        children_of(member, Field::Target) == seq![target],
        child_of(member, Field::Value) == Some(value),
        target.kind matches NodeKind::ExprName { id, .. } && is_first_value(
            cx.file.facts.enum_values@,
            i,
            path.last().id,
            id@,
        ),
        cx.file.facts.enum_values@[i].value == Some(shown),
        cx.settings.enum_values,
    ensures
        is_hinted(cx, InlayHintKind::EnumValue, value.range.end, shown@),
{
    let class = path.last();
    let outer = lemma_visited_along(cx, path, top_mode());
    let middle = lemma_visited_part(cx, class, body, outer);
    let inner = lemma_visited_part(cx, body, member, middle);
    assert(enters(cx, member.range));
    if let NodeKind::ExprName { id, .. } = target.kind {
        lemma_first_value(cx.file.facts.enum_values@, i, class.id, id@);
    }
    assert(children_of(member, Field::Target)[0] == target);
    let own = assigned_value_plan(cx, member, value, inner);
    broadcast use lemma_included_in_both;

    assert(is_included(own, own));
    assert(is_included(own, visited_assign(cx, member, inner)));
    assert(is_included(own, visited(cx, member, inner)));
    assert(is_included(visited(cx, member, inner), visited(cx, cx.file.suite, top_mode()))) by {
        assert forall|planned: PlannedModel|
            visited(cx, member, inner).contains(planned) implies #[trigger] visited(
            cx,
            cx.file.suite,
            top_mode(),
        ).contains(planned) by {
            assert(visited(cx, body, middle).contains(planned));
            assert(visited(cx, class, outer).contains(planned));
        }
    }
    let hint = enum_value_hint(value.range.end, shown@);
    assert(own[0] == PlannedModel::Hint(hint));
    lemma_one_part(hint.label[0]);
    assert(hint.label =~= seq![hint.label[0]]);
    lemma_own_is_hinted(cx, member, inner, own, hint);
}

/// Every variable that is declared without a type is hinted with it, wherever in a file the
/// declaration is: a declaration whose annotation is only the keyword it is made with.
pub proof fn law_declared_variables_are_hinted(
    cx: HintContext<'_>,
    path: Seq<Node>,
    annotation: Node,
    target: Node,
    value: Node,
    variable: VariableType,
)
    requires
        is_shown_at(cx, path),
        path.last().kind is StmtAnnAssign,
        child_of(path.last(), Field::Annotation) == Some(annotation),
        annotation.kind matches NodeKind::ExprName { id, ctx } && ctx == ExprContext::Invalid && (
        id@ == "__let__"@ || id@ == "__modifier_assign__"@ || id@ == "__context__"@),
        child_of(path.last(), Field::Target) == Some(target),
        child_of(path.last(), Field::Value) == Some(value),
        is_of_unwritten_type(value),
        is_bound(target),
        is_said(cx.file.facts.variables@, target.id, variable),
        cx.settings.variable_types,
    ensures
        ({
            let label = if cx.settings.type_argument_names && cx.file.is_basedpython {
                variable.named.label@
            } else {
                variable.plain.label@
            };
            is_call_of(value, label) || is_hinted(
                cx,
                InlayHintKind::Type,
                target.range.end,
                ": "@ + label,
            )
        }),
{
    let declaration = path.last();
    let outer = lemma_visited_along(cx, path, top_mode());
    let t = lemma_first_filling_in(declaration.children@, Field::Target);
    assert(declaration.children@[t] == target);
    let inner = lemma_visited_part(cx, declaration, target, outer);
    assert(inner.rhs == Some(value));
    lemma_said(cx.file.facts.variables@, target.id, variable);
    let planned = PlannedModel::Variable { expr: target, rhs: value, allow_edits: !inner.no_edits };
    let own = variable_plan(cx, target, inner);
    assert(own[0] == planned);
    let here = visited(cx, target, inner);
    assert(here[0] == planned);
    assert(here.contains(planned));
    assert(visited(cx, declaration, outer).contains(planned));
    assert(visited(cx, cx.file.suite, top_mode()).contains(planned));
    let imports = lemma_hints_include(cx, planned);
    let rendered = rendering(cx, variable);
    if !is_call_of(value, rendered.label@) {
        law_label_reads_as_the_type(
            cx.file.file,
            target,
            value,
            variable,
            rendered,
            !inner.no_edits,
            imports,
        );
        let hint = hinted_variable(cx, target, value, !inner.no_edits, imports).hint->0;
        let i = hints_of(cx).index_of(hint);
        assert(hints_of(cx)[i] == hint);
    }
}

/// The name of an argument can be accepted into the source exactly where that leaves a call that
/// can be written: nothing after the argument is passed by its place, and it is one expression
/// that a name can be put in front of.
pub proof fn law_names_are_accepted_where_they_can_be_written(
    cx: HintContext<'_>,
    names: Seq<(u32, ArgumentName)>,
    arguments: Seq<Node>,
    i: int,
    name: ArgumentName,
)
    requires
        0 <= i < arguments.len(),
        name_shown(cx, names, arguments, i) == Some(name),
    ensures
        ({
            let hint = argument_name_plan(cx, names, arguments, i)[0];
            let can_be_named = arguments[i].outer == arguments[i].range && match arguments[i].kind {
                NodeKind::ExprStarred | NodeKind::ExprNamed => false,
                NodeKind::ExprGenerator { parenthesized } => parenthesized,
                _ => true,
            };
            let is_last = forall|j: int|
                i < j < arguments.len() ==> (#[trigger] arguments[j]).kind is Keyword
                    || arguments[j].kind is ExprStarred;
            hint matches PlannedModel::Hint(hint) && if can_be_named && is_last {
                hint.text_edits.len() == 1 && hint.text_edits[0].new_text == name.name@ + "="@
                    && hint.text_edits[0].range == (TextRange {
                    start: arguments[i].range.start,
                    end: arguments[i].range.start,
                })
            } else {
                hint.text_edits.len() == 0
            }
        }),
{
    lemma_last_editable(cx, names, arguments, arguments.len() as int, i);
}

proof fn lemma_last_editable(
    cx: HintContext<'_>,
    names: Seq<(u32, ArgumentName)>,
    arguments: Seq<Node>,
    upto: int,
    i: int,
)
    requires
        0 <= i < upto <= arguments.len(),
        !(arguments[i].kind is Keyword),
    ensures
        last_editable(cx, names, arguments, upto) == Some(i) <==> is_editable(
            cx,
            names,
            arguments,
            i,
        ) && !(arguments[i].kind is ExprStarred) && forall|j: int|
            i < j < upto ==> (#[trigger] arguments[j]).kind is Keyword || arguments[j].kind
                is ExprStarred,
    decreases upto,
{
    let last = arguments[upto - 1];
    if i < upto - 1 {
        lemma_last_editable(cx, names, arguments, upto - 1, i);
    } else if last.kind is ExprStarred {
        lemma_last_editable_before(cx, names, arguments, upto - 1);
    }
}

proof fn lemma_last_editable_before(
    cx: HintContext<'_>,
    names: Seq<(u32, ArgumentName)>,
    arguments: Seq<Node>,
    upto: int,
)
    requires
        0 <= upto <= arguments.len(),
    ensures
        last_editable(cx, names, arguments, upto) matches Some(k) ==> k < upto,
    decreases upto,
{
    if upto > 0 {
        lemma_last_editable_before(cx, names, arguments, upto - 1);
    }
}

/// Whether `child` is a type that `parent` writes: what a declaration or a parameter is annotated
/// with, or what a function says it returns.
pub open spec fn is_annotation_of(cx: HintContext<'_>, parent: Node, child: Node) -> bool {
    match parent.kind {
        NodeKind::StmtAnnAssign { .. } => child_of(parent, Field::Annotation) == Some(child) && !(
        child.kind matches NodeKind::ExprName { ctx, .. } && ctx == ExprContext::Invalid),
        NodeKind::StmtFunctionDef { is_trailing_lambda, .. } => {
            &&& child_of(parent, Field::Returns) == Some(child)
            &&& !is_trailing_lambda
            &&& child_of(parent, Field::Parameters) matches Some(parameters)
                && parameters.range.start != parameters.range.end
        },
        NodeKind::Parameter { .. } => {
            &&& child_of(parent, Field::Annotation) == Some(child)
            &&& meets(cx, (TextRange { start: parent.range.start, end: child.outer.end }))
        },
        _ => false,
    }
}

/// Whether `child` is part of the type `parent`, which is no union: what it is an item of, and
/// each of the items.
pub open spec fn is_part_of_type(cx: HintContext<'_>, parent: Node, child: Node) -> bool {
    &&& parent.children@.contains(child)
    &&& meets(cx, parent.range)
    &&& match parent.kind {
        NodeKind::ExprSubscript { .. } => !(child_of(parent, Field::Value) matches Some(value)
            && cx.file.facts.unions@.contains(value.id)),
        NodeKind::ExprTuple { .. } | NodeKind::ExprList { .. } | NodeKind::ExprStarred
        | NodeKind::ExprUnaryOp { .. } => true,
        _ => false,
    }
}

pub open spec fn is_type_link(cx: HintContext<'_>, types: Seq<Node>, k: int) -> bool {
    is_part_of_type(cx, types[k], types[k + 1])
}

/// Whether `path` leads to something that `types` leads into a type of.
pub open spec fn is_shown_type(cx: HintContext<'_>, path: Seq<Node>, types: Seq<Node>) -> bool {
    &&& is_shown_at(cx, path)
    &&& types.len() > 0
    &&& is_annotation_of(cx, path.last(), types[0])
    &&& forall|k: int| 0 <= k < types.len() - 1 ==> #[trigger] is_type_link(cx, types, k)
}

proof fn lemma_visited_annotation(cx: HintContext<'_>, parent: Node, child: Node, mode: ModeModel) -> (
    inner: ModeModel)
    requires
        is_annotation_of(cx, parent, child),
        meets(cx, parent.range),
    ensures
        inner.in_type,
        inner.siblings == mode.siblings,
        is_included(visited(cx, child, inner), visited(cx, parent, mode)),
{
    broadcast use lemma_included_in_both;

    assert(enters(cx, parent.range));
    match parent.kind {
        NodeKind::StmtAnnAssign { .. } => {
            let at = lemma_first_filling_in(parent.children@, Field::Annotation);
            lemma_in_children(cx, parent, parent.children@.len() as int, mode, at);
            assert(is_included(
                visited(cx, child, mode_of_child(mode, child)),
                visited_declaration(cx, parent, mode),
            ));
            mode_of_child(mode, child)
        },
        NodeKind::StmtFunctionDef { .. } => {
            let inside = ModeModel { class: None, ..mode };
            let at = lemma_first_filling_in(parent.children@, Field::Returns);
            lemma_in_children(cx, parent, parent.children@.len() as int, inside, at);
            assert(is_included(
                visited(cx, child, mode_of_child(inside, child)),
                visited_function(cx, parent, mode),
            ));
            mode_of_child(inside, child)
        },
        _ => {
            let inner = ModeModel { in_type: true, ..mode };
            let part = visited(cx, child, inner);
            assert(is_included(part, part));
            assert(visited_field(cx, parent, Field::Annotation, inner) == part);
            assert(enters(cx, written_parameter(parent)));
            assert(is_included(part, visited_parameter(cx, parent, mode)));
            inner
        },
    }
}

proof fn lemma_visited_type(cx: HintContext<'_>, types: Seq<Node>, mode: ModeModel) -> (inner: ModeModel)
    requires
        types.len() > 0,
        mode.in_type,
        forall|k: int| 0 <= k < types.len() - 1 ==> #[trigger] is_type_link(cx, types, k),
    ensures
        inner.in_type,
        inner.siblings == mode.siblings,
        is_included(visited(cx, types.last(), inner), visited(cx, types[0], mode)),
    decreases types.len(),
{
    let outer = visited(cx, types[0], mode);
    if types.len() == 1 {
        assert(is_included(outer, outer));
        mode
    } else {
        broadcast use lemma_included_in_both;

        let rest = types.skip(1);
        assert(is_type_link(cx, types, 0));
        assert forall|k: int| 0 <= k < rest.len() - 1 implies #[trigger] is_type_link(
            cx,
            rest,
            k,
        ) by {
            assert(is_type_link(cx, types, k + 1));
            assert(rest[k] == types[k + 1]);
            assert(rest[k + 1] == types[k + 2]);
        }
        let parent = types[0];
        let child = types[1];
        let at = parent.children@.index_of(child);
        assert(enters(cx, parent.range));
        let middle = mode_of_child(mode, child);
        lemma_in_children(cx, parent, parent.children@.len() as int, mode, at);
        let part = visited(cx, child, middle);
        assert(is_included(part, walked_children(cx, parent, mode)));
        if parent.kind is ExprSubscript {
            assert(is_included(part, visited_subscript(cx, parent, mode)));
        }
        assert(is_included(part, outer));
        assert(rest[0] == child);
        assert(rest.last() == types.last());
        let inner = lemma_visited_type(cx, rest, middle);
        inner
    }
}

proof fn lemma_type_is_shown(cx: HintContext<'_>, path: Seq<Node>, types: Seq<Node>) -> (inner: ModeModel)
    requires
        is_shown_type(cx, path, types),
    ensures
        inner.in_type,
        inner.siblings is None,
        is_included(visited(cx, types.last(), inner), visited(cx, cx.file.suite, top_mode())),
{
    let outer = lemma_visited_along(cx, path, top_mode());
    let middle = lemma_visited_annotation(cx, path.last(), types[0], outer);
    let inner = lemma_visited_type(cx, types, middle);
    assert forall|planned: PlannedModel|
        visited(cx, types.last(), inner).contains(planned) implies #[trigger] visited(
        cx,
        cx.file.suite,
        top_mode(),
    ).contains(planned) by {
        assert(visited(cx, types[0], middle).contains(planned));
        assert(visited(cx, path.last(), outer).contains(planned));
    }
    inner
}

/// Whether the first of `promotions` of `expr` beside nothing is number `i`.
pub open spec fn is_first_promotion(promotions: Seq<Promotion>, i: int, expr: u32) -> bool {
    &&& 0 <= i < promotions.len()
    &&& promotions[i].expr == expr && promotions[i].siblings@.len() == 0
    &&& forall|j: int|
        0 <= j < i ==> (#[trigger] promotions[j]).expr != expr || promotions[j].siblings@.len() > 0
}

proof fn lemma_first_promotion(promotions: Seq<Promotion>, i: int, expr: u32)
    requires
        is_first_promotion(promotions, i, expr),
    ensures
        promotion_of(promotions, expr, Seq::empty()) == Some(promotions[i].arms@),
    decreases i,
{
    if i > 0 {
        assert(promotions[0].expr != expr || promotions[0].siblings@.len() > 0);
        assert forall|j: int| 0 <= j < i - 1 implies (#[trigger] promotions.skip(1)[j]).expr != expr
            || promotions.skip(1)[j].siblings@.len() > 0 by {
            assert(promotions.skip(1)[j] == promotions[j + 1]);
        }
        lemma_first_promotion(promotions.skip(1), i - 1, expr);
    } else {
        assert(promotions[0].siblings@ =~= Seq::empty());
    }
}

/// Every `float` or `complex` in a type, outside a union, is followed by what it may be besides,
/// wherever in the type it is.
pub proof fn law_promotions_are_hinted(
    cx: HintContext<'_>,
    path: Seq<Node>,
    types: Seq<Node>,
    i: int,
)
    requires
        is_shown_type(cx, path, types),
        types.last().kind is ExprName || types.last().kind is ExprAttribute,
        is_first_promotion(cx.file.facts.promotions@, i, types.last().id),
        cx.settings.numeric_promotions,
    ensures
        is_hinted(
            cx,
            InlayHintKind::NumericPromotion,
            types.last().range.end,
            cx.file.facts.promotions@[i].arms@,
        ),
{
    let expr = types.last();
    let inner = lemma_type_is_shown(cx, path, types);
    lemma_first_promotion(cx.file.facts.promotions@, i, expr.id);
    let own = promotion_plan(cx, expr, inner);
    broadcast use lemma_included_in_both;

    assert(is_included(own, own));
    assert(is_included(own, visited(cx, expr, inner)));
    if let PlannedModel::Hint(hint) = own[0] {
        assert(own.contains(PlannedModel::Hint(hint)));
        lemma_one_part(hint.label[0]);
        assert(hint.label =~= seq![hint.label[0]]);
        lemma_own_is_hinted(cx, expr, inner, own, hint);
    }
}

/// Every type argument in a type comes after the name of the type parameter it fills, wherever in
/// the type it is, when there are several and as many of one as of the other, and none says its
/// name itself.
pub proof fn law_type_parameters_are_named(
    cx: HintContext<'_>,
    path: Seq<Node>,
    types: Seq<Node>,
    value: Node,
    slice: Node,
    names: Vec<String>,
    k: int,
)
    requires
        is_shown_type(cx, path, types),
        types.last().kind is ExprSubscript,
        meets(cx, types.last().range),
        child_of(types.last(), Field::Value) == Some(value),
        child_of(types.last(), Field::Slice) == Some(slice),
        slice.kind matches NodeKind::ExprTuple { parenthesized, .. } && !parenthesized,
        forall|i: int|
            0 <= i < slice.children@.len() ==> !((#[trigger] slice.children@[i]).kind is ExprNamed),
        is_said(cx.file.facts.type_parameters@, value.id, names),
        children_of(slice, Field::Elt).len() == names@.len(),
        names@.len() >= 2,
        0 <= k < names@.len(),
        cx.settings.type_argument_names,
    ensures
        is_hinted(
            cx,
            InlayHintKind::TypeArgument,
            children_of(slice, Field::Elt)[k].range.start,
            names@[k]@ + "="@,
        ),
{
    let subscript = types.last();
    let arguments = children_of(slice, Field::Elt);
    let inner = lemma_type_is_shown(cx, path, types);
    lemma_said(cx.file.facts.type_parameters@, value.id, names);
    assert(enters(cx, subscript.range));
    law_each_element_is_an_argument(slice);
    assert(arguments_in(slice) == arguments);
    let own = type_argument_name_plan(cx, subscript);
    broadcast use lemma_included_in_both;

    assert(is_included(own, own));
    assert(is_included(own, visited_subscript(cx, subscript, inner)));
    assert(is_included(own, visited(cx, subscript, inner)));
    let hint = type_argument_name_hint(arguments[k].range.start, names@[k]@);
    lemma_name_of_each(names@, arguments, names@.len() as int, k);
    lemma_parts_pushed(seq![plain_part(names@[k]@)], plain_part("="@));
    lemma_one_part(plain_part(names@[k]@));
    assert(hint.label =~= seq![plain_part(names@[k]@)].push(plain_part("="@)));
    lemma_own_is_hinted(cx, subscript, inner, own, hint);
}

proof fn lemma_name_of_each(names: Seq<String>, arguments: Seq<Node>, upto: int, k: int)
    requires
        0 <= k < upto,
    ensures
        names_of_arguments(names, arguments, upto).contains(
            PlannedModel::Hint(type_argument_name_hint(arguments[k].range.start, names[k]@)),
        ),
    decreases upto,
{
    let all = names_of_arguments(names, arguments, upto);
    let hint = PlannedModel::Hint(type_argument_name_hint(arguments[k].range.start, names[k]@));
    if k < upto - 1 {
        lemma_name_of_each(names, arguments, upto - 1, k);
        let at = names_of_arguments(names, arguments, upto - 1).index_of(hint);
        assert(all[at] == hint);
    } else {
        assert(all[all.len() - 1] == hint);
    }
}

} // verus!
