//! Extract Variable and Introduce Constant: bind a selected expression to a
//! new name, and read the name where the expression was.
//!
//! A variable is bound directly above the statement the expression is part of,
//! so the expression is now evaluated before the rest of that statement. That is
//! only the same program when the expression was evaluated exactly once whenever
//! the statement ran, and nothing with an effect was evaluated before it — an
//! expression in a loop's condition, a conditional branch, a lambda, or after a
//! call is refused.
//!
//! A constant is bound at the top level of the module, before the definition
//! that uses it, so it is evaluated once at import — whether or not the
//! expression it was made from would have been evaluated at all. That is only
//! the same program for an expression that is made of literals, does not build
//! anything mutable, and cannot raise; see [`constant`].

use crate::edit::{inserting, replacing, Edit, EditModel};
use crate::lookup::holds;
use crate::node::{
    are_ids_apart, child_of, children_of, height, is_path, lemma_height_child_of,
    lemma_height_children_of, lemma_is_filling, lemma_path_rest, node_in, ExprContext, Field, Node,
    NodeKind, Operator, UnaryOp,
};
use crate::refactor::context::{
    not_applicable, outcome, plan_two, placed, planned, refused, Plan, PlanModel, Refusal,
    RefusalModel, RefactorContext,
};
use crate::refactor::evaluation::{
    is_all_made_up, is_not_modelled, law_once_is_never_skipped, may_be_skipped, placement,
    placement_in_statement, NotOnce, Placement,
};
use crate::refactor::hazards::{
    contains_named_expression, context_dependent, context_dependent_construct, has_walrus,
    law_no_hazard_is_missed, means_the_same_anywhere,
};
use crate::refactor::names::{
    file_names, find_fresh_name, fresh, is_nameable, is_usable, law_fresh_name_is_unused,
    lemma_file_names_finite, names_in_file, suggest_for_expression, suggested, to_uppercase,
    uppered,
};
use crate::refactor::text::{
    ancestors_in, before_on_line, find_last_definition, last_definition, leading_comments,
    leading_comments_start, lemma_ancestors, located, statement_ancestors, suite_of,
};
use crate::source::{
    all_space, breaks_line, indentation_at_offset, is_span, line_start, line_start_of, text_of,
    trim_range, trimmed_range,
};
use crate::strings::{join2, join3, join5, owned};
use crate::text_size::TextRange;
use vstd::prelude::*;

verus! {

broadcast use {lemma_height_child_of, lemma_height_children_of};

#[derive(Debug, Clone, Copy, PartialEq, Eq, Structural)]
pub enum Target {
    Variable,
    Constant,
}

/// Whether `node` is the expression at `range`, with or without the parentheses around it.
pub open spec fn is_selected(node: Node, range: TextRange) -> bool {
    node.kind.spec_is_expression() && (node.range == range || node.outer == range)
}

/// Whether the expression at `range` may be under `node`. A node that is not around the
/// selection can still hold the expression it selects, when the selection includes the
/// expression's parentheses.
pub open spec fn may_hold(node: Node, range: TextRange) -> bool {
    node.kind is Suite || node.range.spec_contains_range(range) || range.spec_contains_range(
        node.range,
    )
}

/// The expression at `range`, in `node`.
pub open spec fn expression_in(node: Node, range: TextRange) -> Option<Node>
    decreases node, 1int,
{
    if is_selected(node, range) {
        Some(node)
    } else if may_hold(node, range) {
        expression_among(node.children@, range)
    } else {
        None
    }
}

/// The first expression at `range`, in `nodes`.
pub open spec fn expression_among(nodes: Seq<Node>, range: TextRange) -> Option<Node>
    decreases nodes, 0int,
{
    if nodes.len() == 0 {
        None
    } else {
        match expression_among(nodes.drop_last(), range) {
            Some(expr) => Some(expr),
            None => expression_in(nodes.last(), range),
        }
    }
}

/// Whether `expr` is a value that can be bound to a name: it is read rather
/// than assigned, and it means something outside its position.
pub open spec fn extractable(expr: Node) -> bool {
    match expr.kind {
        NodeKind::ExprName { ctx, .. } => ctx == ExprContext::Load,
        NodeKind::ExprAttribute { ctx, .. } => ctx == ExprContext::Load,
        NodeKind::ExprSubscript { ctx, .. } => ctx == ExprContext::Load,
        NodeKind::ExprList { ctx } => ctx == ExprContext::Load,
        NodeKind::ExprTuple { ctx, .. } => ctx == ExprContext::Load,
        NodeKind::ExprStarred
        | NodeKind::ExprSlice
        | NodeKind::ExprIpyEscapeCommand
        | NodeKind::ExprCallableType
        | NodeKind::ExprProtocolType
        | NodeKind::ExprProtocolMethod
        | NodeKind::ExprStatement => false,
        _ => true,
    }
}

/// The expression the selection covers exactly, ignoring surrounding
/// whitespace and allowing parentheses around it, and the range selected.
pub open spec fn selection_at(context: RefactorContext, range: TextRange) -> Option<
    (Node, TextRange),
> {
    match trimmed_range(context.source@, range) {
        Some(range) => if may_hold(context.module, range) {
            match expression_among(context.module.children@, range) {
                Some(expr) => if extractable(expr) {
                    Some((expr, range))
                } else {
                    None
                },
                None => None,
            }
        } else {
            None
        },
        None => None,
    }
}

proof fn lemma_expression_in(text: Seq<char>, node: Node, range: TextRange)
    requires
        placed(text, node),
    ensures
        expression_in(node, range) matches Some(expr) ==> placed(text, expr),
    decreases node, 1int,
{
    lemma_expression_among(text, node.children@, range);
}

proof fn lemma_expression_among(text: Seq<char>, nodes: Seq<Node>, range: TextRange)
    requires
        forall|i: int| 0 <= i < nodes.len() ==> placed(text, #[trigger] nodes[i]),
    ensures
        expression_among(nodes, range) matches Some(expr) ==> placed(text, expr),
    decreases nodes, 0int,
{
    if nodes.len() > 0 {
        assert(placed(text, nodes[nodes.len() - 1]));
        assert forall|i: int| 0 <= i < nodes.drop_last().len() implies placed(
            text,
            #[trigger] nodes.drop_last()[i],
        ) by {
            assert(nodes.drop_last()[i] == nodes[i]);
        }
        lemma_expression_among(text, nodes.drop_last(), range);
        lemma_expression_in(text, nodes.last(), range);
    }
}

proof fn lemma_expression_stays(nodes: Seq<Node>, upto: int, range: TextRange)
    requires
        0 <= upto <= nodes.len(),
        expression_among(nodes.take(upto), range) is Some,
    ensures
        expression_among(nodes, range) == expression_among(nodes.take(upto), range),
    decreases nodes.len() - upto,
{
    if upto < nodes.len() {
        assert(nodes.take(upto + 1).drop_last() =~= nodes.take(upto));
        lemma_expression_stays(nodes, upto + 1, range);
    } else {
        assert(nodes.take(upto) =~= nodes);
    }
}

fn holds_selection(node: &Node, range: TextRange) -> (holds: bool)
    ensures
        holds == may_hold(*node, range),
{
    matches!(node.kind, NodeKind::Suite) || node.range.contains_range(range)
        || range.contains_range(node.range)
}

/// The first expression at `range`, in `nodes`.
fn find_expression<'a>(nodes: &'a Vec<Node>, range: TextRange) -> (found: Option<&'a Node>)
    ensures
        node_in(found) == expression_among(nodes@, range),
    decreases nodes@,
{
    let mut i: usize = 0;
    while i < nodes.len()
        invariant
            i <= nodes.len(),
            expression_among(nodes@.take(i as int), range) is None,
        decreases nodes.len() - i,
    {
        assert(nodes@.take(i + 1).drop_last() =~= nodes@.take(i as int));
        assert(nodes@.take(i + 1).last() == nodes@[i as int]);
        let node = &nodes[i];
        let found = if node.kind.is_expression() && (node.range == range || node.outer == range) {
            Some(node)
        } else if holds_selection(node, range) {
            find_expression(&node.children, range)
        } else {
            None
        };
        assert(node_in(found) == expression_in(*node, range));
        if found.is_some() {
            proof {
                lemma_expression_stays(nodes@, i + 1, range);
            }
            return found;
        }
        i += 1;
    }
    assert(nodes@.take(i as int) =~= nodes@);
    None
}

fn is_extractable(expr: &Node) -> (is_extractable: bool)
    ensures
        is_extractable == extractable(*expr),
{
    match &expr.kind {
        NodeKind::ExprName { ctx, .. } => *ctx == ExprContext::Load,
        NodeKind::ExprAttribute { ctx, .. } => *ctx == ExprContext::Load,
        NodeKind::ExprSubscript { ctx, .. } => *ctx == ExprContext::Load,
        NodeKind::ExprList { ctx } => *ctx == ExprContext::Load,
        NodeKind::ExprTuple { ctx, .. } => *ctx == ExprContext::Load,
        NodeKind::ExprStarred
        | NodeKind::ExprSlice
        | NodeKind::ExprIpyEscapeCommand
        | NodeKind::ExprCallableType
        | NodeKind::ExprProtocolType
        | NodeKind::ExprProtocolMethod
        | NodeKind::ExprStatement => false,
        _ => true,
    }
}

/// An expression, and the range the name replaces: the expression, with the parentheses the
/// selection included.
struct Selection<'a> {
    expr: &'a Node,
    replaced: TextRange,
}

/// The expression the selection covers exactly, ignoring surrounding
/// whitespace and allowing parentheses around it.
fn selected_expression<'a>(context: &'a RefactorContext, range: TextRange) -> (found: Option<
    Selection<'a>,
>)
    requires
        context.wf(),
    ensures
        match found {
            Some(selection) => selection_at(*context, range) == Some(
                (*selection.expr, selection.replaced),
            ) && placed(context.source@, *selection.expr),
            None => selection_at(*context, range) is None,
        },
{
    let range = match trim_range(context.source.as_str(), range) {
        Some(range) => range,
        None => {
            return None;
        },
    };
    if !holds_selection(&context.module, range) {
        return None;
    }
    let expr = match find_expression(&context.module.children, range) {
        Some(expr) => expr,
        None => {
            return None;
        },
    };
    proof {
        lemma_expression_among(context.source@, context.module.children@, range);
    }
    if is_extractable(expr) {
        Some(Selection { expr, replaced: range })
    } else {
        None
    }
}

/// Whether `expr` is written between brackets of its own.
pub open spec fn is_bracketed(expr: Node) -> bool {
    match expr.kind {
        NodeKind::ExprList { .. }
        | NodeKind::ExprListComp
        | NodeKind::ExprDict
        | NodeKind::ExprDictComp
        | NodeKind::ExprSet
        | NodeKind::ExprSetComp => true,
        NodeKind::ExprTuple { parenthesized, .. } => parenthesized,
        _ => false,
    }
}

pub open spec fn is_bare_generator(expr: Node) -> bool {
    match expr.kind {
        NodeKind::ExprGenerator { parenthesized } => !parenthesized,
        _ => false,
    }
}

/// The source of `expr` as the value of an assignment, parenthesized where its
/// text would not parse there on its own.
pub open spec fn assigned_text(text: Seq<char>, expr: Node) -> Seq<char> {
    if is_bare_generator(expr) || (!is_bracketed(expr) && breaks_line(text, expr.range)) {
        "("@ + text_of(text, expr.range) + ")"@
    } else {
        text_of(text, expr.range)
    }
}

/// Whether `expr` is written between brackets of its own.
pub fn bracketed(expr: &Node) -> (bracketed: bool)
    ensures
        bracketed == is_bracketed(*expr),
{
    match &expr.kind {
        NodeKind::ExprList { .. }
        | NodeKind::ExprListComp
        | NodeKind::ExprDict
        | NodeKind::ExprDictComp
        | NodeKind::ExprSet
        | NodeKind::ExprSetComp => true,
        NodeKind::ExprTuple { parenthesized, .. } => *parenthesized,
        _ => false,
    }
}

/// The source of `expr` as the value of an assignment, parenthesized where its
/// text would not parse there on its own.
fn expression_source(context: &RefactorContext, expr: &Node) -> (source: String)
    requires
        context.wf(),
        is_span(context.source@, expr.range),
    ensures
        source@ == assigned_text(context.source@, *expr),
{
    let text = context.expression_text(expr);
    let bare_generator = match &expr.kind {
        NodeKind::ExprGenerator { parenthesized } => !*parenthesized,
        _ => false,
    };
    if bare_generator || (!bracketed(expr) && context.is_multiline(expr.range)) {
        join3("(", text, ")")
    } else {
        owned(text)
    }
}

/// Whether `expr` is made only of literals and evaluates to an immutable value without raising.
///
/// Made only of literals so that the constant, read at the top of the module, reads nothing that
/// might not be bound there yet.
///
/// Without raising because a constant is evaluated as the module loads, and the expression it is
/// made from need not have been evaluated at all where it was written — `1 / 0` in a branch that
/// never runs, or an expression under an `assert` that python skips with `-O`. Hoisting one of
/// those would turn a program that runs into one that fails to import.
///
/// Whether an operation over literals raises is not something to read off its spelling, so each
/// one is asked of the checker instead: it folds an operation to the literal it produces exactly
/// when it has carried it out, which makes a folded type the proof that evaluating it yields a
/// value.
pub open spec fn constant(context: RefactorContext, expr: Node) -> bool
    decreases height(expr),
{
    match expr.kind {
        NodeKind::ExprStringLiteral { .. }
        | NodeKind::ExprBytesLiteral { .. }
        | NodeKind::ExprNumberLiteral
        | NodeKind::ExprBooleanLiteral
        | NodeKind::ExprNoneLiteral
        | NodeKind::ExprEllipsisLiteral => true,
        NodeKind::ExprUnaryOp { op } => {
            &&& op == UnaryOp::USub || op == UnaryOp::UAdd || op == UnaryOp::Invert || op
                == UnaryOp::Not
            &&& child_of(expr, Field::Operand) matches Some(operand)
            &&& constant(context, operand)
            &&& context.checker.literal_folds@.contains(expr.id)
        },
        NodeKind::ExprBinOp { op } => {
            &&& op != Operator::Coalesce && op != Operator::Result
            &&& child_of(expr, Field::Left) matches Some(left)
            &&& child_of(expr, Field::Right) matches Some(right)
            &&& constant(context, left) && constant(context, right)
            &&& context.checker.literal_folds@.contains(expr.id)
        },
        // a tuple display of constants builds a tuple, which cannot fail
        NodeKind::ExprTuple { ctx, is_special, .. } => {
            &&& ctx == ExprContext::Load
            &&& !is_special
            &&& forall|i: int|
                0 <= i < children_of(expr, Field::Elt).len() ==> constant(
                    context,
                    #[trigger] children_of(expr, Field::Elt)[i],
                )
        },
        _ => false,
    }
}

#[verifier::loop_isolation(false)]
fn is_constant(context: &RefactorContext, expr: &Node) -> (is_constant: bool)
    ensures
        is_constant == constant(*context, *expr),
    decreases height(*expr),
{
    match &expr.kind {
        NodeKind::ExprStringLiteral { .. }
        | NodeKind::ExprBytesLiteral { .. }
        | NodeKind::ExprNumberLiteral
        | NodeKind::ExprBooleanLiteral
        | NodeKind::ExprNoneLiteral
        | NodeKind::ExprEllipsisLiteral => true,
        NodeKind::ExprUnaryOp { op } => {
            (*op == UnaryOp::USub || *op == UnaryOp::UAdd || *op == UnaryOp::Invert || *op
                == UnaryOp::Not) && match expr.child(Field::Operand) {
                Some(operand) => is_constant(context, operand),
                None => false,
            } && holds(&context.checker.literal_folds, expr.id)
        },
        NodeKind::ExprBinOp { op } => {
            *op != Operator::Coalesce && *op != Operator::Result && match expr.child(
                Field::Left,
            ) {
                Some(left) => is_constant(context, left),
                None => false,
            } && match expr.child(Field::Right) {
                Some(right) => is_constant(context, right),
                None => false,
            } && holds(&context.checker.literal_folds, expr.id)
        },
        NodeKind::ExprTuple { ctx, is_special, .. } => {
            if *ctx != ExprContext::Load || *is_special {
                return false;
            }
            let elements = expr.children_filling(Field::Elt);
            let ghost all = children_of(*expr, Field::Elt);
            let mut i: usize = 0;
            while i < elements.len()
                invariant
                    i <= elements.len(),
                    elements@.unref() == all,
                    all == children_of(*expr, Field::Elt),
                    forall|j: int| 0 <= j < i ==> constant(*context, #[trigger] all[j]),
                decreases elements.len() - i,
            {
                assert(all[i as int] == *elements@[i as int]);
                if !is_constant(context, elements[i]) {
                    assert(!constant(*context, children_of(*expr, Field::Elt)[i as int]));
                    return false;
                }
                i += 1;
            }
            true
        },
        _ => false,
    }
}

/// The name to make the new one from.
pub open spec fn base_name(context: RefactorContext, expr: Node, target: Target) -> Seq<char> {
    let base = suggested(expr, context.python_version_minor);
    match target {
        Target::Variable => base,
        Target::Constant => uppered(base),
    }
}

pub open spec fn variable_title(target: Target, name: Seq<char>) -> Seq<char> {
    match target {
        Target::Variable => "Extract variable `"@ + name + "`"@,
        Target::Constant => "Introduce constant `"@ + name + "`"@,
    }
}

/// Whether `statement` is the expression at `range` on its own.
pub open spec fn is_whole_statement(statement: Node, range: TextRange) -> bool {
    &&& statement.kind is StmtExpr
    &&& child_of(statement, Field::Value) matches Some(value)
    &&& value.range == range
}

/// Binding a variable called `name` to `expr` above its statement, or why that is another
/// program.
pub open spec fn variable_binding(
    context: RefactorContext,
    expr: Node,
    ancestors: Seq<Node>,
    name: Seq<char>,
) -> Result<EditModel, Seq<char>> {
    let text = context.source@;
    let statement = ancestors.last();
    let start = statement.range.start as int;
    match placement(statement, expr.id, expr.range) {
        Placement::Once { effects_before: true } => Err(
            "something with effects is evaluated before the expression, which would now run after it"@,
        ),
        Placement::NotOnce(reason) => Err(
            "the expression can't be evaluated before its statement: "@ + reason.description(),
        ),
        Placement::Once { effects_before: false } => if last_definition(
            ancestors.drop_last(),
        ) matches Some(owner) && owner.kind is StmtClassDef {
            Err("a variable bound in a class body would become an attribute of the class"@)
        } else if located(context.spec_suite()->0, statement) is None || !all_space(
            before_on_line(text, start),
        ) {
            Err("the statement shares its line with the one it belongs to"@)
        } else {
            Ok(
                inserting(
                    before_on_line(text, start) + name + " = "@ + assigned_text(text, expr)
                        + context.style.line_ending@,
                    line_start_of(text, start),
                ),
            )
        },
    }
}

/// Binding a constant called `name` to `expr` at the top level of the module, or why that is
/// another program.
pub open spec fn constant_binding(
    context: RefactorContext,
    expr: Node,
    ancestors: Seq<Node>,
    name: Seq<char>,
) -> Result<EditModel, Seq<char>> {
    let text = context.source@;
    let ending = context.style.line_ending@;
    let top_level = ancestors[0];
    let found = placement(ancestors.last(), expr.id, expr.range);
    if found == Placement::NotOnce(NotOnce::Annotation) || found == Placement::NotOnce(
        NotOnce::Opaque,
    ) {
        Err("the expression can't be moved to the module: "@ + found->NotOnce_0.description())
    } else {
        let separation = if top_level.kind is StmtFunctionDef || top_level.kind is StmtClassDef {
            ending + ending
        } else {
            ""@
        };
        Ok(
            inserting(
                name + " = "@ + assigned_text(text, expr) + ending + separation,
                leading_comments(text, top_level.range.start as int),
            ),
        )
    }
}

/// What binding the expression at `range` to a name comes to.
pub open spec fn extract_variable_at(
    context: RefactorContext,
    range: TextRange,
    target: Target,
) -> Result<PlanModel, RefusalModel> {
    match selection_at(context, range) {
        None => not_applicable(),
        Some((expr, replaced)) => {
            let ancestors = ancestors_in(context.spec_suite()->0, expr.range);
            let base = base_name(context, expr, target);
            let names = file_names(context.index);
            let name = fresh(base, names);
            let title = variable_title(target, name);
            if target == Target::Constant && !constant(context, expr) {
                not_applicable()
            } else if context.spec_suite() is None || ancestors.len() == 0 || is_whole_statement(
                ancestors.last(),
                expr.range,
            ) {
                not_applicable()
            } else if !is_nameable(base, names) {
                not_applicable()
            } else {
                match context_dependent(context, expr) {
                    Some(reason) => refused(title, "the expression can't be moved: "@ + reason),
                    None => if has_walrus(expr) {
                        refused(title, "the expression binds a name with `:=`"@)
                    } else {
                        let binding = match target {
                            Target::Variable => variable_binding(context, expr, ancestors, name),
                            Target::Constant => constant_binding(context, expr, ancestors, name),
                        };
                        match binding {
                            Err(reason) => refused(title, reason),
                            Ok(insertion) => planned(
                                title,
                                seq![insertion, replacing(name, replaced)],
                            ),
                        }
                    },
                }
            }
        },
    }
}

fn bind_variable(
    context: &RefactorContext,
    expr: &Node,
    ancestors: &Vec<&Node>,
    suite: &Node,
    name: &str,
) -> (binding: Result<Edit, String>)
    requires
        context.wf(),
        context.spec_suite() == Some(*suite),
        ancestors.len() > 0,
        is_span(context.source@, ancestors@.unref().last().range),
        is_span(context.source@, expr.range),
    ensures
        match binding {
            Ok(edit) => variable_binding(*context, *expr, ancestors@.unref(), name@) == Ok::<
                EditModel,
                Seq<char>,
            >(edit@),
            Err(reason) => variable_binding(*context, *expr, ancestors@.unref(), name@) == Err::<
                EditModel,
                Seq<char>,
            >(reason@),
        },
{
    let statement = ancestors[ancestors.len() - 1];
    let ghost around = ancestors@.unref();
    assert(around.last() == *statement);
    match placement_in_statement(statement, expr) {
        Placement::Once { effects_before } => {
            if effects_before {
                return Err(
                    owned(
                        "something with effects is evaluated before the expression, which would now run after it",
                    ),
                );
            }
        },
        Placement::NotOnce(reason) => {
            return Err(
                join2(
                    "the expression can't be evaluated before its statement: ",
                    reason.describe(),
                ),
            );
        },
    }
    assert(around.take(around.len() - 1) =~= around.drop_last());
    if let Some(owner) = find_last_definition(ancestors, ancestors.len() - 1) {
        if matches!(owner.kind, NodeKind::StmtClassDef { .. }) {
            return Err(
                owned("a variable bound in a class body would become an attribute of the class"),
            );
        }
    }
    if suite_of(suite, statement).is_none() || indentation_at_offset(
        context.source.as_str(),
        statement.range.start,
    ).is_none() {
        return Err(owned("the statement shares its line with the one it belongs to"));
    }
    let indentation = context.indentation(statement.range);
    let text = expression_source(context, expr);
    let line = join5(indentation, name, " = ", text.as_str(), context.style.line_ending.as_str());
    Ok(Edit::insertion(line, line_start(context.source.as_str(), statement.range.start)))
}

fn bind_constant(
    context: &RefactorContext,
    expr: &Node,
    ancestors: &Vec<&Node>,
    name: &str,
) -> (binding: Result<Edit, String>)
    requires
        context.wf(),
        ancestors.len() > 0,
        is_span(context.source@, ancestors@.unref()[0].range),
        is_span(context.source@, expr.range),
    ensures
        match binding {
            Ok(edit) => constant_binding(*context, *expr, ancestors@.unref(), name@) == Ok::<
                EditModel,
                Seq<char>,
            >(edit@),
            Err(reason) => constant_binding(*context, *expr, ancestors@.unref(), name@) == Err::<
                EditModel,
                Seq<char>,
            >(reason@),
        },
{
    let statement = ancestors[ancestors.len() - 1];
    let top_level = ancestors[0];
    assert(ancestors@.unref().last() == *statement);
    assert(ancestors@.unref()[0] == *top_level);
    if let Placement::NotOnce(reason) = placement_in_statement(statement, expr) {
        if reason == NotOnce::Annotation || reason == NotOnce::Opaque {
            return Err(
                join2("the expression can't be moved to the module: ", reason.describe()),
            );
        }
    }
    let ending = context.style.line_ending.as_str();
    let at = leading_comments_start(context.source.as_str(), top_level.range.start);
    let separation = if matches!(top_level.kind, NodeKind::StmtFunctionDef { .. }) || matches!(
        top_level.kind,
        NodeKind::StmtClassDef { .. }
    ) {
        join2(ending, ending)
    } else {
        owned("")
    };
    let text = expression_source(context, expr);
    let line = join5(name, " = ", text.as_str(), ending, separation.as_str());
    Ok(Edit::insertion(line, at))
}

/// Plans binding the expression at `range` to a new name.
pub fn plan(context: &RefactorContext, range: TextRange, target: Target) -> (plan: Result<
    Plan,
    Refusal,
>)
    requires
        context.wf(),
    ensures
        outcome(plan) == extract_variable_at(*context, range, target),
{
    let selection = match selected_expression(context, range) {
        Some(selection) => selection,
        None => {
            return Err(Refusal::NotApplicable);
        },
    };
    let expr = selection.expr;
    if target == Target::Constant && !is_constant(context, expr) {
        return Err(Refusal::NotApplicable);
    }
    let suite = match context.suite() {
        Some(suite) => suite,
        None => {
            return Err(Refusal::NotApplicable);
        },
    };
    let ancestors = statement_ancestors(suite, expr.range);
    let ghost around = ancestors_in(*suite, expr.range);
    proof {
        lemma_ancestors(context.source@, *suite, expr.range);
    }
    if ancestors.len() == 0 {
        return Err(Refusal::NotApplicable);
    }
    let statement = ancestors[ancestors.len() - 1];
    assert(around.last() == *statement);
    assert(placed(context.source@, around[around.len() - 1]));
    assert(placed(context.source@, around[0]));
    // the statement already is the expression on its own
    if matches!(statement.kind, NodeKind::StmtExpr) {
        if let Some(value) = statement.child(Field::Value) {
            if value.range == expr.range {
                return Err(Refusal::NotApplicable);
            }
        }
    }
    let names = names_in_file(&context.index);
    let suggestion = suggest_for_expression(expr, context.python_version_minor);
    let base = match target {
        Target::Variable => suggestion,
        Target::Constant => to_uppercase(suggestion.as_str()),
    };
    let name = match find_fresh_name(base.as_str(), &names) {
        Some(name) => name,
        None => {
            return Err(Refusal::NotApplicable);
        },
    };
    let title = match target {
        Target::Variable => join3("Extract variable `", name.as_str(), "`"),
        Target::Constant => join3("Introduce constant `", name.as_str(), "`"),
    };
    if let Some(reason) = context_dependent_construct(context, expr) {
        let reason = join2("the expression can't be moved: ", reason.as_str());
        return Err(Refusal::Refused { title, reason });
    }
    if contains_named_expression(expr) {
        return Err(
            Refusal::Refused { title, reason: owned("the expression binds a name with `:=`") },
        );
    }
    let binding = match target {
        Target::Variable => bind_variable(context, expr, &ancestors, suite, name.as_str()),
        Target::Constant => bind_constant(context, expr, &ancestors, name.as_str()),
    };
    match binding {
        Ok(insertion) => Ok(
            plan_two(title, insertion, Edit::range_replacement(name, selection.replaced)),
        ),
        Err(reason) => Err(Refusal::Refused { title, reason }),
    }
}

/// A variable is only extracted when its expression is evaluated exactly once whenever its
/// statement runs, with nothing that has an effect evaluated before it.
pub proof fn law_extracted_where_evaluated_once(context: RefactorContext, range: TextRange)
    requires
        extract_variable_at(context, range, Target::Variable) is Ok,
    ensures
        ({
            let expr = (selection_at(context, range)->0).0;
            let statement = ancestors_in(context.spec_suite()->0, expr.range).last();
            &&& selection_at(context, range) is Some
            &&& placement(statement, expr.id, expr.range) == Placement::Once {
                effects_before: false,
            }
        }),
{
}

/// A constant is only introduced for an expression that is made of literals and cannot raise.
pub proof fn law_introduced_where_constant(context: RefactorContext, range: TextRange)
    requires
        extract_variable_at(context, range, Target::Constant) is Ok,
    ensures
        selection_at(context, range) matches Some((expr, _)) && constant(context, expr),
{
}

/// The name an expression is bound to is used nowhere in the file, and stands where the
/// expression stood.
pub proof fn law_bound_name_is_new(context: RefactorContext, range: TextRange, target: Target)
    requires
        extract_variable_at(context, range, target) is Ok,
    ensures
        ({
            let (expr, replaced) = selection_at(context, range)->0;
            let name = fresh(base_name(context, expr, target), file_names(context.index));
            let edits = (extract_variable_at(context, range, target)->Ok_0).edits;
            &&& is_usable(name, file_names(context.index))
            &&& !file_names(context.index).contains(name)
            &&& edits.len() == 2
            &&& edits[1] == replacing(name, replaced)
        }),
{
    let (expr, replaced) = selection_at(context, range)->0;
    lemma_file_names_finite(context.index);
    law_fresh_name_is_unused(base_name(context, expr, target), file_names(context.index));
}

/// An expression that is moved means where it goes what it meant where it was: nothing in it is
/// resolved against its surroundings, and it binds no name.
pub proof fn law_moved_expression_means_the_same(
    context: RefactorContext,
    range: TextRange,
    target: Target,
)
    requires
        extract_variable_at(context, range, target) is Ok,
    ensures
        selection_at(context, range) matches Some((expr, _)) && means_the_same_anywhere(
            context,
            expr,
        ) && !has_walrus(expr),
{
    let (expr, replaced) = selection_at(context, range)->0;
    law_no_hazard_is_missed(context, expr);
}

/// A variable is only extracted from where its expression is sure to be evaluated: nothing between
/// the statement and the expression is evaluated only under a condition, again and again, or later.
pub proof fn law_extracted_is_never_skipped(
    context: RefactorContext,
    range: TextRange,
    path: Seq<Node>,
)
    requires
        extract_variable_at(context, range, Target::Variable) is Ok,
        is_path(path),
        is_all_made_up(path[0]),
        are_ids_apart(path[0]),
        path.last() == (selection_at(context, range)->0).0,
        path[0] == ancestors_in(context.spec_suite()->0, path.last().range).last(),
    ensures
        forall|k: int| #![trigger path[k]]
            0 <= k < path.len() - 1 ==> !may_be_skipped(path[k], path[k + 1]) && !is_not_modelled(
                path[k],
            ),
{
    law_extracted_where_evaluated_once(context, range);
    law_once_is_never_skipped(path);
}

/// Whether what follows `path[k]` is an operand or an element of it.
pub open spec fn is_operand_link(path: Seq<Node>, k: int) -> bool {
    match path[k].kind {
        NodeKind::ExprTuple { .. } => path[k + 1].field == Field::Elt,
        NodeKind::ExprUnaryOp { .. } => child_of(path[k], Field::Operand) == Some(path[k + 1]),
        NodeKind::ExprBinOp { .. } => child_of(path[k], Field::Left) == Some(path[k + 1])
            || child_of(path[k], Field::Right) == Some(path[k + 1]),
        _ => false,
    }
}

/// Whether `expr` reads nothing, builds nothing that can change and cannot raise, as far as it
/// says itself: it is a literal, a tuple, or an operation that the checker has carried out.
pub open spec fn is_safe_operation(context: RefactorContext, expr: Node) -> bool {
    match expr.kind {
        NodeKind::ExprStringLiteral { .. }
        | NodeKind::ExprBytesLiteral { .. }
        | NodeKind::ExprNumberLiteral
        | NodeKind::ExprBooleanLiteral
        | NodeKind::ExprNoneLiteral
        | NodeKind::ExprEllipsisLiteral => true,
        NodeKind::ExprTuple { ctx, .. } => ctx == ExprContext::Load,
        NodeKind::ExprUnaryOp { op } => op != UnaryOp::Optional && op != UnaryOp::Propagate && op
            != UnaryOp::Force && context.checker.literal_folds@.contains(expr.id),
        NodeKind::ExprBinOp { op } => op != Operator::Coalesce && op != Operator::Result
            && context.checker.literal_folds@.contains(expr.id),
        _ => false,
    }
}

/// A constant is safe to evaluate as the module loads: every operand in it, however deep, is a
/// literal, a tuple, or an operation that the checker has carried out.
pub proof fn law_constants_are_made_of_literals(context: RefactorContext, path: Seq<Node>)
    requires
        constant(context, path[0]),
        is_path(path),
        forall|k: int| 0 <= k < path.len() - 1 ==> #[trigger] is_operand_link(path, k),
    ensures
        is_safe_operation(context, path.last()),
    decreases path.len(),
{
    if path.len() > 1 {
        lemma_path_rest(path);
        let rest = path.skip(1);
        assert(is_operand_link(path, 0));
        assert forall|k: int| 0 <= k < rest.len() - 1 implies #[trigger] is_operand_link(
            rest,
            k,
        ) by {
            assert(is_operand_link(path, k + 1));
            assert(rest[k] == path[k + 1]);
            assert(rest[k + 1] == path[k + 2]);
        }
        if path[0].kind is ExprTuple {
            let at = path[0].children@.index_of(path[1]);
            let j = lemma_is_filling(path[0].children@, Field::Elt, at);
            assert(children_of(path[0], Field::Elt)[j] == path[1]);
        }
        law_constants_are_made_of_literals(context, rest);
    }
}

/// What a name is bound to is the expression as it was written: as it stands, or in parentheses
/// where a line break in it, or what a generator leaves to the call around it, would end it early.
pub proof fn law_bound_text_is_the_expression(text: Seq<char>, expr: Node)
    ensures
        ({
            let bare = text_of(text, expr.range);
            let enclosed = seq!['('] + bare + seq![')'];
            let is_in_brackets = match expr.kind {
                NodeKind::ExprList { .. }
                | NodeKind::ExprListComp
                | NodeKind::ExprSet
                | NodeKind::ExprSetComp
                | NodeKind::ExprDict
                | NodeKind::ExprDictComp => true,
                NodeKind::ExprTuple { parenthesized, .. } => parenthesized,
                _ => false,
            };
            let written = assigned_text(text, expr);
            &&& written == bare || written == enclosed
            &&& breaks_line(text, expr.range) && !is_in_brackets ==> written == enclosed
            &&& expr.kind matches NodeKind::ExprGenerator { parenthesized } ==> (!parenthesized
                ==> written == enclosed)
            &&& is_in_brackets ==> written == bare
            &&& !breaks_line(text, expr.range) && !(expr.kind is ExprGenerator) ==> written == bare
        }),
{
    reveal_strlit("(");
    reveal_strlit(")");
    assert("("@ =~= seq!['(']);
    assert(")"@ =~= seq![')']);
}

} // verus!
