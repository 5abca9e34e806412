//! When an expression is evaluated, relative to the statement it is part of.
//!
//! Moving an expression — hoisting it into a variable above its statement, or
//! inlining a variable's value into the place that reads it — keeps the program
//! meaning the same only when the expression is evaluated exactly once each time
//! its statement runs, and when nothing evaluated before it could observe the
//! move. This module answers both, following python's evaluation order.
//!
//! The order is written down as a table: for each kind of statement, target and
//! expression, the [`Step`]s its evaluation takes. A placement is what running
//! the steps comes to.

use crate::node::{
    all_filling, are_ids_apart, child_of, children_of, first_filling, height, holds_id, is_link,
    is_nested, is_path,
    lemma_all_filling_in, lemma_filling_field, lemma_first_filling_in, lemma_height_child,
    lemma_is_filling,
    lemma_height_child_of, lemma_height_children_of, lemma_one_path, lemma_path_joined,
    lemma_path_rest, node_in, ExprContext, Field, Node, NodeKind, Operator, UnaryOp,
};
use crate::text_size::{is_before, TextRange};
use vstd::prelude::*;

verus! {

broadcast use {lemma_height_child_of, lemma_height_children_of};

/// Where a target expression sits in the evaluation of its statement.
#[derive(Debug, Clone, Copy, PartialEq, Eq, Structural)]
pub enum Placement {
    /// The target is evaluated exactly once whenever the statement runs.
    /// `effects_before` says whether something evaluated before it may have an
    /// effect: call a function, run a dunder, bind a name.
    Once { effects_before: bool },
    /// The target is not evaluated exactly once per run of the statement.
    NotOnce(NotOnce),
}

/// Why an expression is not evaluated exactly once per run of its statement.
#[derive(Debug, Clone, Copy, PartialEq, Eq, Structural)]
pub enum NotOnce {
    Conditional,
    Loop,
    Deferred,
    Comprehension,
    Body,
    Annotation,
    Assertion,
    OptionalChain,
    Opaque,
}

impl NotOnce {
    pub open spec fn description(self) -> Seq<char> {
        match self {
            NotOnce::Conditional => "it is only evaluated when a condition holds"@,
            NotOnce::Loop => "it is evaluated again on every iteration of the loop"@,
            NotOnce::Deferred => "it is evaluated later, when the enclosing function is called"@,
            NotOnce::Comprehension => "it is evaluated once per element of a comprehension"@,
            NotOnce::Body => "it is inside the body of a compound statement"@,
            NotOnce::Annotation => "it is part of an annotation"@,
            NotOnce::Assertion => "an `assert` is not evaluated when python runs with `-O`"@,
            NotOnce::OptionalChain =>
                "it is a link of an optional chain, which is evaluated as a whole"@,
            NotOnce::Opaque => "it is part of a construct whose evaluation order is not modelled"@,
        }
    }

    pub fn describe(self) -> (description: &'static str)
        ensures
            description@ == self.description(),
    {
        match self {
            NotOnce::Conditional => "it is only evaluated when a condition holds",
            NotOnce::Loop => "it is evaluated again on every iteration of the loop",
            NotOnce::Deferred => "it is evaluated later, when the enclosing function is called",
            NotOnce::Comprehension => "it is evaluated once per element of a comprehension",
            NotOnce::Body => "it is inside the body of a compound statement",
            NotOnce::Annotation => "it is part of an annotation",
            NotOnce::Assertion => "an `assert` is not evaluated when python runs with `-O`",
            NotOnce::OptionalChain =>
                "it is a link of an optional chain, which is evaluated as a whole",
            NotOnce::Opaque => "it is part of a construct whose evaluation order is not modelled",
        }
    }
}

/// Whether evaluating `expr` is free of effects and gives the same value no
/// matter where it is evaluated, as long as the names it reads are not rebound.
///
/// This is deliberately narrow: a name, an immutable literal, a negated number
/// and a tuple of those. An attribute can be a property, an operator can be a
/// dunder, and a list display makes a new list each time it is evaluated.
pub open spec fn pure(expr: Node) -> bool
    decreases height(expr),
{
    match expr.kind {
        NodeKind::ExprName { ctx, .. } => ctx == ExprContext::Load,
        NodeKind::ExprStringLiteral { .. } => true,
        NodeKind::ExprBytesLiteral { .. } => true,
        NodeKind::ExprNumberLiteral => true,
        NodeKind::ExprBooleanLiteral => true,
        NodeKind::ExprNoneLiteral => true,
        NodeKind::ExprEllipsisLiteral => true,
        NodeKind::ExprUnaryOp { op } => {
            &&& op == UnaryOp::USub || op == UnaryOp::UAdd || op == UnaryOp::Invert
            &&& child_of(expr, Field::Operand) matches Some(operand)
            &&& operand.kind is ExprNumberLiteral
        },
        NodeKind::ExprTuple { ctx, is_special, .. } => {
            &&& ctx == ExprContext::Load
            &&& !is_special
            &&& forall|i: int|
                0 <= i < children_of(expr, Field::Elt).len() ==> pure(
                    #[trigger] children_of(expr, Field::Elt)[i],
                )
        },
        _ => false,
    }
}

#[verifier::loop_isolation(false)]
pub fn is_pure(expr: &Node) -> (is_pure: bool)
    ensures
        is_pure == pure(*expr),
    decreases height(*expr),
{
    match &expr.kind {
        NodeKind::ExprName { ctx, .. } => *ctx == ExprContext::Load,
        NodeKind::ExprStringLiteral { .. }
        | NodeKind::ExprBytesLiteral { .. }
        | NodeKind::ExprNumberLiteral
        | NodeKind::ExprBooleanLiteral
        | NodeKind::ExprNoneLiteral
        | NodeKind::ExprEllipsisLiteral => true,
        NodeKind::ExprUnaryOp { op } => {
            (*op == UnaryOp::USub || *op == UnaryOp::UAdd || *op == UnaryOp::Invert)
                && match expr.child(Field::Operand) {
                    Some(operand) => matches!(operand.kind, NodeKind::ExprNumberLiteral),
                    None => false,
                }
        },
        NodeKind::ExprTuple { ctx, is_special, .. } => {
            if *ctx != ExprContext::Load || *is_special {
                return false;
            }
            let elements = expr.children_filling(Field::Elt);
            let ghost all = children_of(*expr, Field::Elt);
            let mut i: usize = 0;
            while i < elements.len()
                invariant
                    i <= elements.len(),
                    elements@.unref() == all,
                    all == children_of(*expr, Field::Elt),
                    forall|j: int| 0 <= j < i ==> pure(#[trigger] all[j]),
                decreases elements.len() - i,
            {
                assert(all[i as int] == *elements@[i as int]);
                if !is_pure(elements[i]) {
                    assert(!pure(children_of(*expr, Field::Elt)[i as int]));
                    return false;
                }
                i += 1;
            }
            true
        },
        _ => false,
    }
}

/// Whether `expr` is part of a basedpython optional chain: a `?.` access, or a
/// trailer applied to one. A chain is evaluated as a whole — an absent receiver
/// skips every trailer after it — so no link of it is evaluated on its own.
pub open spec fn optional_chain(expr: Node) -> bool
    decreases height(expr),
{
    match expr.kind {
        NodeKind::ExprAttribute { optional, .. } => optional || match child_of(expr, Field::Value) {
            Some(value) => optional_chain(value),
            None => false,
        },
        NodeKind::ExprCall { .. } => match child_of(expr, Field::Func) {
            Some(func) => optional_chain(func),
            None => false,
        },
        NodeKind::ExprSubscript { .. } => match child_of(expr, Field::Value) {
            Some(value) => optional_chain(value),
            None => false,
        },
        _ => false,
    }
}

fn is_optional_chain(expr: &Node) -> (is_chain: bool)
    ensures
        is_chain == optional_chain(*expr),
    decreases height(*expr),
{
    let inner = match &expr.kind {
        NodeKind::ExprAttribute { optional, .. } => {
            if *optional {
                return true;
            }
            expr.child(Field::Value)
        },
        NodeKind::ExprCall { .. } => expr.child(Field::Func),
        NodeKind::ExprSubscript { .. } => expr.child(Field::Value),
        _ => None,
    };
    match inner {
        Some(inner) => is_optional_chain(inner),
        None => false,
    }
}

/// The values a call passes, in the order it writes them: the argument itself, or a keyword's
/// value.
pub open spec fn passed_values(arguments: Seq<Node>) -> Seq<Node>
    decreases arguments.len(),
{
    if arguments.len() == 0 {
        Seq::empty()
    } else {
        let before = passed_values(arguments.drop_last());
        let last = arguments.last();
        if last.kind is Keyword {
            match child_of(last, Field::Value) {
                Some(value) => before.push(value),
                None => before,
            }
        } else {
            before.push(last)
        }
    }
}

/// The values `call` passes, in the order it writes them.
pub open spec fn call_values(call: Node) -> Seq<Node> {
    match child_of(call, Field::Arguments) {
        Some(arguments) => passed_values(arguments.children@),
        None => Seq::empty(),
    }
}

proof fn lemma_passed_values_height(arguments: Seq<Node>, bound: nat)
    requires
        forall|i: int| 0 <= i < arguments.len() ==> height(#[trigger] arguments[i]) < bound,
    ensures
        forall|i: int|
            0 <= i < passed_values(arguments).len() ==> height(
                #[trigger] passed_values(arguments)[i],
            ) < bound,
    decreases arguments.len(),
{
    if arguments.len() > 0 {
        assert forall|i: int| 0 <= i < arguments.drop_last().len() implies height(
            #[trigger] arguments.drop_last()[i],
        ) < bound by {
            assert(arguments.drop_last()[i] == arguments[i]);
        }
        lemma_passed_values_height(arguments.drop_last(), bound);
        assert(height(arguments[arguments.len() - 1]) < bound);
        let before = passed_values(arguments.drop_last());
        assert forall|i: int| 0 <= i < passed_values(arguments).len() implies height(
            #[trigger] passed_values(arguments)[i],
        ) < bound by {
            if i < before.len() {
                assert(passed_values(arguments)[i] == before[i]);
            } else {
                lemma_height_child_of(arguments.last(), Field::Value);
            }
        }
    }
}

pub broadcast proof fn lemma_call_values_height(call: Node, i: int)
    requires
        0 <= i < call_values(call).len(),
    ensures
        height(#[trigger] call_values(call)[i]) < height(call),
{
    let arguments = child_of(call, Field::Arguments)->0;
    assert forall|j: int| 0 <= j < arguments.children@.len() implies height(
        #[trigger] arguments.children@[j],
    ) < height(call) by {
        lemma_height_child(arguments, j);
        lemma_height_child_of(call, Field::Arguments);
    }
    lemma_passed_values_height(arguments.children@, height(call));
}

/// The values `call` passes, in the order it writes them.
pub fn call_argument_values(call: &Node) -> (values: Vec<&Node>)
    ensures
        values@.unref() == call_values(*call),
{
    let mut values: Vec<&Node> = Vec::new();
    if let Some(arguments) = call.child(Field::Arguments) {
        let children = &arguments.children;
        let mut i: usize = 0;
        assert(values@.unref() =~= passed_values(children@.take(0)));
        while i < children.len()
            invariant
                i <= children.len(),
                values@.unref() == passed_values(children@.take(i as int)),
            decreases children.len() - i,
        {
            let ghost upto = children@.take(i + 1);
            assert(upto.drop_last() =~= children@.take(i as int));
            assert(upto.last() == children@[i as int]);
            let ghost before = values@;
            let child = &children[i];
            if matches!(child.kind, NodeKind::Keyword) {
                if let Some(value) = child.child(Field::Value) {
                    values.push(value);
                    assert(values@.unref() =~= before.unref().push(*value));
                }
            } else {
                values.push(child);
                assert(values@.unref() =~= before.unref().push(*child));
            }
            i += 1;
        }
        assert(children@.take(i as int) =~= children@);
    } else {
        assert(values@.unref() =~= call_values(*call));
    }
    values
}

/// One step of an evaluation.
#[derive(Debug, Clone, Copy)]
pub enum Step<'a> {
    /// The expression is evaluated, once.
    Eval(&'a Node),
    /// The parts of an assignment target that are evaluated before the store, and the store.
    Store(&'a Node),
    /// The expression is not evaluated exactly once, for this reason.
    Maybe(&'a Node, NotOnce),
    /// What lies in the range is not evaluated exactly once, for this reason.
    Within(TextRange, NotOnce),
    /// Something that may have an effect happens.
    Effect,
}

/// A [`Step`] as a mathematical value.
pub ghost enum StepModel {
    Eval(Node),
    Store(Node),
    Maybe(Node, NotOnce),
    Within(TextRange, NotOnce),
    Effect,
}

impl<'a> View for Step<'a> {
    type V = StepModel;

    open spec fn view(&self) -> StepModel {
        match *self {
            Step::Eval(node) => StepModel::Eval(*node),
            Step::Store(node) => StepModel::Store(*node),
            Step::Maybe(node, reason) => StepModel::Maybe(*node, reason),
            Step::Within(range, reason) => StepModel::Within(range, reason),
            Step::Effect => StepModel::Effect,
        }
    }
}

pub open spec fn step_models(steps: Seq<Step<'_>>) -> Seq<StepModel> {
    steps.map_values(|step: Step<'_>| step@)
}

pub open spec fn eval_if_any(node: Option<Node>) -> Seq<StepModel> {
    match node {
        Some(node) => seq![StepModel::Eval(node)],
        None => Seq::empty(),
    }
}

pub open spec fn maybe_if_any(node: Option<Node>, reason: NotOnce) -> Seq<StepModel> {
    match node {
        Some(node) => seq![StepModel::Maybe(node, reason)],
        None => Seq::empty(),
    }
}

pub open spec fn store_if_any(node: Option<Node>) -> Seq<StepModel> {
    match node {
        Some(node) => seq![StepModel::Store(node)],
        None => Seq::empty(),
    }
}

pub open spec fn within_if_any(node: Option<Node>, reason: NotOnce) -> Seq<StepModel> {
    match node {
        Some(node) => seq![StepModel::Within(node.range, reason)],
        None => Seq::empty(),
    }
}

pub open spec fn eval_each(nodes: Seq<Node>) -> Seq<StepModel> {
    Seq::new(nodes.len(), |i: int| StepModel::Eval(nodes[i]))
}

pub open spec fn store_each(nodes: Seq<Node>) -> Seq<StepModel> {
    Seq::new(nodes.len(), |i: int| StepModel::Store(nodes[i]))
}

/// The first of `nodes` is evaluated, and whether the rest are depends on what came before.
pub open spec fn eval_first(nodes: Seq<Node>) -> Seq<StepModel> {
    Seq::new(
        nodes.len(),
        |i: int|
            if i == 0 {
                StepModel::Eval(nodes[i])
            } else {
                StepModel::Maybe(nodes[i], NotOnce::Conditional)
            },
    )
}

/// Not evaluated in an order the module models: a target inside is refused, and a target after
/// it has an effect before it.
pub open spec fn opaque(node: Node, reason: NotOnce) -> Seq<StepModel> {
    seq![StepModel::Within(node.range, reason), StepModel::Effect]
}

/// Only the first iterable of a comprehension is evaluated in the enclosing
/// scope, once; everything else is evaluated per element.
pub open spec fn comprehension_steps(expr: Node) -> Seq<StepModel> {
    match child_of(expr, Field::Generator) {
        Some(first) => eval_if_any(child_of(first, Field::Iter)) + seq![
            StepModel::Within(expr.range, NotOnce::Comprehension),
        ],
        None => Seq::empty(),
    }
}

/// A chained comparison stops at the first comparison that fails.
pub open spec fn compare_steps(comparators: Seq<Node>) -> Seq<StepModel> {
    if comparators.len() == 0 {
        Seq::empty()
    } else {
        seq![StepModel::Eval(comparators[0]), StepModel::Effect] + Seq::new(
            (comparators.len() - 1) as nat,
            |i: int| StepModel::Maybe(comparators[i + 1], NotOnce::Conditional),
        )
    }
}

/// The steps evaluating `expr` takes.
pub open spec fn expr_steps(expr: Node) -> Seq<StepModel> {
    match expr.kind {
        NodeKind::ExprBoolOp => eval_first(children_of(expr, Field::Value)),
        NodeKind::ExprNamed
        | NodeKind::ExprAwait
        | NodeKind::ExprYield
        | NodeKind::ExprYieldFrom
        | NodeKind::ExprStarred => eval_if_any(child_of(expr, Field::Value)).push(
            StepModel::Effect,
        ),
        NodeKind::ExprBinOp { op } => match op {
            Operator::Coalesce => eval_if_any(child_of(expr, Field::Left)) + maybe_if_any(
                child_of(expr, Field::Right),
                NotOnce::Conditional,
            ),
            Operator::Result => opaque(expr, NotOnce::Opaque),
            _ => (eval_if_any(child_of(expr, Field::Left)) + eval_if_any(
                child_of(expr, Field::Right),
            )).push(StepModel::Effect),
        },
        NodeKind::ExprUnaryOp { op } => match op {
            UnaryOp::Optional | UnaryOp::Propagate | UnaryOp::Force => opaque(
                expr,
                NotOnce::Opaque,
            ),
            _ => eval_if_any(child_of(expr, Field::Operand)).push(StepModel::Effect),
        },
        NodeKind::ExprLambda => seq![StepModel::Within(expr.range, NotOnce::Deferred)],
        NodeKind::ExprIf => eval_if_any(child_of(expr, Field::Test)) + maybe_if_any(
            child_of(expr, Field::Body),
            NotOnce::Conditional,
        ) + maybe_if_any(child_of(expr, Field::Orelse), NotOnce::Conditional),
        // a dict display's children are its keys and values, in turn
        NodeKind::ExprDict | NodeKind::ExprSlice => eval_each(expr.children@),
        NodeKind::ExprSet | NodeKind::ExprList { .. } => eval_each(children_of(expr, Field::Elt)),
        NodeKind::ExprTuple { is_special, .. } => if is_special {
            opaque(expr, NotOnce::Opaque)
        } else {
            eval_each(children_of(expr, Field::Elt))
        },
        NodeKind::ExprListComp
        | NodeKind::ExprSetComp
        | NodeKind::ExprDictComp
        | NodeKind::ExprGenerator { .. } => comprehension_steps(expr),
        NodeKind::ExprCompare => eval_if_any(child_of(expr, Field::Left)) + compare_steps(
            children_of(expr, Field::Comparator),
        ),
        NodeKind::ExprCall { is_cast, is_string_tag } => if is_cast || is_string_tag {
            opaque(expr, NotOnce::Opaque)
        } else if optional_chain(expr) {
            opaque(expr, NotOnce::OptionalChain)
        } else {
            (eval_if_any(child_of(expr, Field::Func)) + eval_each(call_values(expr))).push(
                StepModel::Effect,
            )
        },
        NodeKind::ExprAttribute { .. } => if optional_chain(expr) {
            opaque(expr, NotOnce::OptionalChain)
        } else {
            eval_if_any(child_of(expr, Field::Value)).push(StepModel::Effect)
        },
        NodeKind::ExprSubscript { is_special, .. } => if is_special {
            opaque(expr, NotOnce::Opaque)
        } else if optional_chain(expr) {
            opaque(expr, NotOnce::OptionalChain)
        } else {
            (eval_if_any(child_of(expr, Field::Value)) + eval_if_any(
                child_of(expr, Field::Slice),
            )).push(StepModel::Effect)
        },
        // a leaf that contains the target is the target
        NodeKind::ExprName { .. }
        | NodeKind::ExprStringLiteral { .. }
        | NodeKind::ExprBytesLiteral { .. }
        | NodeKind::ExprNumberLiteral
        | NodeKind::ExprBooleanLiteral
        | NodeKind::ExprNoneLiteral
        | NodeKind::ExprEllipsisLiteral => Seq::empty(),
        // an f-string's interpolations are formatted as they are reached, but the target inside
        // one is left where it is
        _ => opaque(expr, NotOnce::Opaque),
    }
}

/// The steps storing to `target` takes.
pub open spec fn target_steps(target: Node) -> Seq<StepModel> {
    match target.kind {
        // the store binds the name before any later target is evaluated
        NodeKind::ExprName { .. } => seq![StepModel::Effect],
        NodeKind::ExprAttribute { optional, .. } => if optional {
            opaque(target, NotOnce::Opaque)
        } else {
            eval_if_any(child_of(target, Field::Value)).push(StepModel::Effect)
        },
        NodeKind::ExprSubscript { is_special, .. } => if is_special {
            opaque(target, NotOnce::Opaque)
        } else {
            (eval_if_any(child_of(target, Field::Value)) + eval_if_any(
                child_of(target, Field::Slice),
            )).push(StepModel::Effect)
        },
        NodeKind::ExprTuple { .. } | NodeKind::ExprList { .. } => seq![StepModel::Effect]
            + store_each(children_of(target, Field::Elt)),
        NodeKind::ExprStarred => store_if_any(child_of(target, Field::Value)),
        _ => opaque(target, NotOnce::Opaque),
    }
}

pub open spec fn decorated(stmt: Node) -> bool {
    child_of(stmt, Field::Decorator) is Some
}

/// The later conditions of an `if` are evaluated only when the earlier ones fail.
pub open spec fn elif_steps(clauses: Seq<Node>) -> Seq<StepModel>
    decreases clauses.len(),
{
    if clauses.len() == 0 {
        Seq::empty()
    } else {
        elif_steps(clauses.drop_last()) + within_if_any(
            child_of(clauses.last(), Field::Test),
            NotOnce::Conditional,
        )
    }
}

/// `__enter__` runs before the next item is evaluated.
pub open spec fn with_steps(items: Seq<Node>) -> Seq<StepModel>
    decreases items.len(),
{
    if items.len() == 0 {
        Seq::empty()
    } else {
        let item = items.last();
        with_steps(items.drop_last()) + eval_if_any(child_of(item, Field::ContextExpr)) + seq![
            StepModel::Effect,
        ] + within_if_any(child_of(item, Field::OptionalVars), NotOnce::Opaque)
    }
}

/// The steps running `stmt` takes, up to its suites.
pub open spec fn stmt_steps(stmt: Node) -> Seq<StepModel> {
    let body = seq![StepModel::Within(stmt.range, NotOnce::Body)];
    match stmt.kind {
        NodeKind::StmtExpr | NodeKind::StmtReturn => eval_if_any(child_of(stmt, Field::Value)),
        NodeKind::StmtAssign => if decorated(stmt) {
            opaque(stmt, NotOnce::Opaque)
        } else {
            eval_if_any(child_of(stmt, Field::Value)) + store_each(
                children_of(stmt, Field::Target),
            )
        },
        // the target is read, the value evaluated, the operator run and the result stored.
        // reading a name has no effect; reading an attribute or an item does
        NodeKind::StmtAugAssign => {
            let target = child_of(stmt, Field::Target);
            let read = match target {
                Some(target) if target.kind is ExprName => Seq::empty(),
                _ => store_if_any(target).push(StepModel::Effect),
            };
            (read + eval_if_any(child_of(stmt, Field::Value))).push(StepModel::Effect)
        },
        NodeKind::StmtAnnAssign { is_context } => if decorated(stmt) || is_context {
            opaque(stmt, NotOnce::Opaque)
        } else {
            within_if_any(child_of(stmt, Field::Annotation), NotOnce::Annotation) + eval_if_any(
                child_of(stmt, Field::Value),
            ) + store_if_any(child_of(stmt, Field::Target))
        },
        NodeKind::StmtIf { has_pattern } => if has_pattern {
            opaque(stmt, NotOnce::Opaque)
        } else {
            eval_if_any(child_of(stmt, Field::Test)) + elif_steps(
                children_of(stmt, Field::ElifElse),
            ) + body
        },
        NodeKind::StmtWhile => within_if_any(child_of(stmt, Field::Test), NotOnce::Loop) + body,
        NodeKind::StmtFor { .. } => eval_if_any(child_of(stmt, Field::Iter)) + body,
        NodeKind::StmtWith { .. } => with_steps(children_of(stmt, Field::Item)) + body,
        NodeKind::StmtMatch => eval_if_any(child_of(stmt, Field::Subject)) + body,
        NodeKind::StmtRaise => eval_if_any(child_of(stmt, Field::Exc)) + eval_if_any(
            child_of(stmt, Field::Cause),
        ),
        NodeKind::StmtAssert => seq![StepModel::Within(stmt.range, NotOnce::Assertion)],
        NodeKind::StmtDelete => store_each(children_of(stmt, Field::Target)),
        _ => opaque(stmt, NotOnce::Opaque),
    }
}

/// What running steps came to: the placement of the target once it is reached, and whether
/// anything so far may have had an effect.
pub ghost struct Ran {
    pub found: Option<Placement>,
    pub effects: bool,
}

/// Evaluates `expr`, looking for the node `id` at `range`.
pub open spec fn evaluated(expr: Node, id: u32, range: TextRange, effects: bool) -> Ran
    decreases height(expr), 1int, 0int,
{
    if expr.id == id {
        Ran { found: Some(Placement::Once { effects_before: effects }), effects }
    } else if !expr.range.spec_contains_range(range) {
        Ran { found: None, effects: effects || !pure(expr) }
    } else {
        ran(expr_steps(expr), height(expr), id, range, effects)
    }
}

/// Stores to `target`, looking for the node `id` at `range`.
pub open spec fn stored(target: Node, id: u32, range: TextRange, effects: bool) -> Ran
    decreases height(target), 1int, 0int,
{
    ran(target_steps(target), height(target), id, range, effects)
}

/// Takes `steps` one after the other until one comes to the target. Steps over nodes `below`
/// which do not lie are passed over; no table holds one.
pub open spec fn ran(
    steps: Seq<StepModel>,
    below: nat,
    id: u32,
    range: TextRange,
    effects: bool,
) -> Ran
    decreases below, 0int, steps.len(),
{
    if steps.len() == 0 {
        Ran { found: None, effects }
    } else {
        let first = match steps[0] {
            StepModel::Eval(node) => if height(node) < below {
                evaluated(node, id, range, effects)
            } else {
                Ran { found: None, effects }
            },
            StepModel::Store(node) => if height(node) < below {
                stored(node, id, range, effects)
            } else {
                Ran { found: None, effects }
            },
            StepModel::Maybe(node, reason) => if node.range.spec_contains_range(range) {
                Ran { found: Some(Placement::NotOnce(reason)), effects }
            } else {
                Ran { found: None, effects: effects || !pure(node) }
            },
            StepModel::Within(within, reason) => if within.spec_contains_range(range) {
                Ran { found: Some(Placement::NotOnce(reason)), effects }
            } else {
                Ran { found: None, effects }
            },
            StepModel::Effect => Ran { found: None, effects: true },
        };
        if first.found is Some {
            first
        } else {
            ran(steps.skip(1), below, id, range, first.effects)
        }
    }
}

/// Where the node `id` at `range` sits in the evaluation of `stmt`.
pub open spec fn placement(stmt: Node, id: u32, range: TextRange) -> Placement {
    match ran(stmt_steps(stmt), height(stmt), id, range, false).found {
        Some(placement) => placement,
        None => Placement::NotOnce(NotOnce::Opaque),
    }
}

/// Whether the node a step goes into, if it goes into one, is less deep than `below`.
spec fn goes_below(step: StepModel, below: nat) -> bool {
    match step {
        StepModel::Eval(node) => height(node) < below,
        StepModel::Store(node) => height(node) < below,
        _ => true,
    }
}

#[verifier::opaque]
spec fn all_go_below(steps: Seq<StepModel>, below: nat) -> bool {
    forall|i: int| 0 <= i < steps.len() ==> goes_below(#[trigger] steps[i], below)
}

broadcast proof fn lemma_none_go_below(below: nat)
    ensures
        #[trigger] all_go_below(Seq::empty(), below),
{
    reveal(all_go_below);
}

broadcast proof fn lemma_pushed_goes_below(steps: Seq<StepModel>, step: StepModel, below: nat)
    requires
        all_go_below(steps, below),
        goes_below(step, below),
    ensures
        #[trigger] all_go_below(steps.push(step), below),
{
    reveal(all_go_below);
}

broadcast proof fn lemma_joined_go_below(a: Seq<StepModel>, b: Seq<StepModel>, below: nat)
    requires
        all_go_below(a, below),
        all_go_below(b, below),
    ensures
        #[trigger] all_go_below(a + b, below),
{
    reveal(all_go_below);
    assert forall|i: int| 0 <= i < (a + b).len() implies goes_below(
        #[trigger] (a + b)[i],
        below,
    ) by {
        if i < a.len() {
            assert((a + b)[i] == a[i]);
        } else {
            assert((a + b)[i] == b[i - a.len()]);
        }
    }
}

broadcast proof fn lemma_child_goes_below(node: Node, field: Field)
    ensures
        all_go_below(#[trigger] eval_if_any(child_of(node, field)), height(node)),
{
    reveal(all_go_below);
    lemma_height_child_of(node, field);
}

broadcast proof fn lemma_stored_child_goes_below(node: Node, field: Field)
    ensures
        all_go_below(#[trigger] store_if_any(child_of(node, field)), height(node)),
{
    reveal(all_go_below);
    lemma_height_child_of(node, field);
}

broadcast proof fn lemma_maybes_go_below(node: Option<Node>, reason: NotOnce, below: nat)
    ensures
        #[trigger] all_go_below(maybe_if_any(node, reason), below),
{
    reveal(all_go_below);
}

broadcast proof fn lemma_ranges_go_below(node: Option<Node>, reason: NotOnce, below: nat)
    ensures
        #[trigger] all_go_below(within_if_any(node, reason), below),
{
    reveal(all_go_below);
}

broadcast proof fn lemma_opaque_goes_below(node: Node, reason: NotOnce, below: nat)
    ensures
        #[trigger] all_go_below(opaque(node, reason), below),
{
    reveal(all_go_below);
}

broadcast proof fn lemma_children_go_below(node: Node, field: Field)
    ensures
        all_go_below(#[trigger] eval_each(children_of(node, field)), height(node)),
{
    reveal(all_go_below);
}

broadcast proof fn lemma_stored_children_go_below(node: Node, field: Field)
    ensures
        all_go_below(#[trigger] store_each(children_of(node, field)), height(node)),
{
    reveal(all_go_below);
}

broadcast group group_below {
    lemma_none_go_below,
    lemma_pushed_goes_below,
    lemma_joined_go_below,
    lemma_child_goes_below,
    lemma_stored_child_goes_below,
    lemma_maybes_go_below,
    lemma_ranges_go_below,
    lemma_opaque_goes_below,
    lemma_children_go_below,
    lemma_stored_children_go_below,
}

proof fn lemma_with_steps_below(items: Seq<Node>, below: nat)
    requires
        forall|i: int| 0 <= i < items.len() ==> height(#[trigger] items[i]) < below,
    ensures
        all_go_below(with_steps(items), below),
    decreases items.len(),
{
    broadcast use group_below;

    if items.len() > 0 {
        assert forall|i: int| 0 <= i < items.drop_last().len() implies height(
            #[trigger] items.drop_last()[i],
        ) < below by {
            assert(items.drop_last()[i] == items[i]);
        }
        lemma_with_steps_below(items.drop_last(), below);
        assert(height(items[items.len() - 1]) < below);
        assert(all_go_below(eval_if_any(child_of(items.last(), Field::ContextExpr)), below)) by {
            reveal(all_go_below);
            lemma_height_child_of(items.last(), Field::ContextExpr);
        }
    }
}

proof fn lemma_elif_steps_below(clauses: Seq<Node>, below: nat)
    ensures
        all_go_below(elif_steps(clauses), below),
    decreases clauses.len(),
{
    broadcast use group_below;

    if clauses.len() > 0 {
        lemma_elif_steps_below(clauses.drop_last(), below);
    }
}

proof fn lemma_expr_steps_below(expr: Node)
    ensures
        all_go_below(expr_steps(expr), height(expr)),
{
    broadcast use group_below;

    let below = height(expr);
    match expr.kind {
        NodeKind::ExprDict | NodeKind::ExprSlice => {
            broadcast use lemma_height_child;

            reveal(all_go_below);
        },
        NodeKind::ExprCall { .. } => {
            assert(all_go_below(eval_each(call_values(expr)), below)) by {
                broadcast use lemma_call_values_height;

                reveal(all_go_below);
            }
        },
        NodeKind::ExprBoolOp => {
            reveal(all_go_below);
        },
        NodeKind::ExprCompare => {
            assert(all_go_below(compare_steps(children_of(expr, Field::Comparator)), below)) by {
                reveal(all_go_below);
            }
        },
        NodeKind::ExprListComp
        | NodeKind::ExprSetComp
        | NodeKind::ExprDictComp
        | NodeKind::ExprGenerator { .. } => {
            if let Some(first) = child_of(expr, Field::Generator) {
                assert(all_go_below(eval_if_any(child_of(first, Field::Iter)), below)) by {
                    reveal(all_go_below);
                    lemma_height_child_of(first, Field::Iter);
                }
            }
        },
        _ => {},
    }
}

proof fn lemma_target_steps_below(target: Node)
    ensures
        all_go_below(target_steps(target), height(target)),
{
    broadcast use group_below;

}

proof fn lemma_stmt_steps_below(stmt: Node)
    ensures
        all_go_below(stmt_steps(stmt), height(stmt)),
{
    broadcast use group_below;

    lemma_elif_steps_below(children_of(stmt, Field::ElifElse), height(stmt));
    lemma_with_steps_below(children_of(stmt, Field::Item), height(stmt));
}

fn eval_optional<'a>(steps: &mut Vec<Step<'a>>, node: Option<&'a Node>)
    ensures
        step_models(final(steps)@) == step_models(old(steps)@) + eval_if_any(node_in(node)),
{
    if let Some(node) = node {
        steps.push(Step::Eval(node));
    }
    assert(step_models(steps@) =~= step_models(old(steps)@) + eval_if_any(node_in(node)));
}

fn maybe_optional<'a>(steps: &mut Vec<Step<'a>>, node: Option<&'a Node>, reason: NotOnce)
    ensures
        step_models(final(steps)@) == step_models(old(steps)@) + maybe_if_any(
            node_in(node),
            reason,
        ),
{
    if let Some(node) = node {
        steps.push(Step::Maybe(node, reason));
    }
    assert(step_models(steps@) =~= step_models(old(steps)@) + maybe_if_any(node_in(node), reason));
}

fn store_optional<'a>(steps: &mut Vec<Step<'a>>, node: Option<&'a Node>)
    ensures
        step_models(final(steps)@) == step_models(old(steps)@) + store_if_any(node_in(node)),
{
    if let Some(node) = node {
        steps.push(Step::Store(node));
    }
    assert(step_models(steps@) =~= step_models(old(steps)@) + store_if_any(node_in(node)));
}

fn within_optional<'a>(steps: &mut Vec<Step<'a>>, node: Option<&'a Node>, reason: NotOnce)
    ensures
        step_models(final(steps)@) == step_models(old(steps)@) + within_if_any(
            node_in(node),
            reason,
        ),
{
    if let Some(node) = node {
        steps.push(Step::Within(node.range, reason));
    }
    assert(step_models(steps@) =~= step_models(old(steps)@) + within_if_any(node_in(node), reason));
}

fn push_step<'a>(steps: &mut Vec<Step<'a>>, step: Step<'a>)
    ensures
        step_models(final(steps)@) == step_models(old(steps)@).push(step@),
{
    steps.push(step);
    assert(step_models(steps@) =~= step_models(old(steps)@).push(step@));
}

fn push_opaque<'a>(steps: &mut Vec<Step<'a>>, node: &'a Node, reason: NotOnce)
    ensures
        step_models(final(steps)@) == step_models(old(steps)@) + opaque(*node, reason),
{
    steps.push(Step::Within(node.range, reason));
    steps.push(Step::Effect);
    assert(step_models(steps@) =~= step_models(old(steps)@) + opaque(*node, reason));
}

fn push_evals<'a>(steps: &mut Vec<Step<'a>>, nodes: &Vec<&'a Node>)
    ensures
        step_models(final(steps)@) == step_models(old(steps)@) + eval_each(nodes@.unref()),
{
    let mut i: usize = 0;
    while i < nodes.len()
        invariant
            i <= nodes.len(),
            step_models(steps@) =~= step_models(old(steps)@) + eval_each(
                nodes@.unref().take(i as int),
            ),
        decreases nodes.len() - i,
    {
        push_step(steps, Step::Eval(nodes[i]));
        i += 1;
    }
    assert(nodes@.unref().take(i as int) =~= nodes@.unref());
}

fn push_stores<'a>(steps: &mut Vec<Step<'a>>, nodes: &Vec<&'a Node>)
    ensures
        step_models(final(steps)@) == step_models(old(steps)@) + store_each(nodes@.unref()),
{
    let mut i: usize = 0;
    while i < nodes.len()
        invariant
            i <= nodes.len(),
            step_models(steps@) =~= step_models(old(steps)@) + store_each(
                nodes@.unref().take(i as int),
            ),
        decreases nodes.len() - i,
    {
        push_step(steps, Step::Store(nodes[i]));
        i += 1;
    }
    assert(nodes@.unref().take(i as int) =~= nodes@.unref());
}

/// Every child is evaluated, in order.
fn push_children<'a>(steps: &mut Vec<Step<'a>>, node: &'a Node)
    ensures
        step_models(final(steps)@) == step_models(old(steps)@) + eval_each(node.children@),
{
    let mut i: usize = 0;
    while i < node.children.len()
        invariant
            i <= node.children.len(),
            step_models(steps@) =~= step_models(old(steps)@) + eval_each(
                node.children@.take(i as int),
            ),
        decreases node.children.len() - i,
    {
        push_step(steps, Step::Eval(&node.children[i]));
        i += 1;
    }
    assert(node.children@.take(i as int) =~= node.children@);
}

/// The first of `nodes` is evaluated, and the rest only when what came before lets them.
fn push_first_and_rest<'a>(steps: &mut Vec<Step<'a>>, nodes: &Vec<&'a Node>)
    ensures
        step_models(final(steps)@) == step_models(old(steps)@) + eval_first(nodes@.unref()),
{
    let mut i: usize = 0;
    while i < nodes.len()
        invariant
            i <= nodes.len(),
            step_models(steps@) =~= step_models(old(steps)@) + eval_first(
                nodes@.unref().take(i as int),
            ),
        decreases nodes.len() - i,
    {
        if i == 0 {
            push_step(steps, Step::Eval(nodes[i]));
        } else {
            push_step(steps, Step::Maybe(nodes[i], NotOnce::Conditional));
        }
        i += 1;
    }
    assert(nodes@.unref().take(i as int) =~= nodes@.unref());
}

fn push_comparators<'a>(steps: &mut Vec<Step<'a>>, nodes: &Vec<&'a Node>)
    ensures
        step_models(final(steps)@) == step_models(old(steps)@) + compare_steps(nodes@.unref()),
{
    let ghost start = step_models(steps@);
    if nodes.len() == 0 {
        assert(step_models(steps@) =~= start + compare_steps(nodes@.unref()));
        return;
    }
    push_step(steps, Step::Eval(nodes[0]));
    push_step(steps, Step::Effect);
    let mut i: usize = 1;
    while i < nodes.len()
        invariant
            1 <= i <= nodes.len(),
            step_models(steps@) =~= start + compare_steps(nodes@.unref().take(i as int)),
        decreases nodes.len() - i,
    {
        push_step(steps, Step::Maybe(nodes[i], NotOnce::Conditional));
        i += 1;
    }
    assert(nodes@.unref().take(i as int) =~= nodes@.unref());
}

fn push_comprehension<'a>(steps: &mut Vec<Step<'a>>, expr: &'a Node)
    ensures
        step_models(final(steps)@) == step_models(old(steps)@) + comprehension_steps(*expr),
{
    let ghost start = step_models(steps@);
    if let Some(first) = expr.child(Field::Generator) {
        eval_optional(steps, first.child(Field::Iter));
        push_step(steps, Step::Within(expr.range, NotOnce::Comprehension));
    }
    assert(step_models(steps@) =~= start + comprehension_steps(*expr));
}

/// The steps evaluating `expr` takes.
fn steps_of_expr<'a>(expr: &'a Node) -> (steps: Vec<Step<'a>>)
    ensures
        step_models(steps@) == expr_steps(*expr),
{
    let mut steps: Vec<Step<'a>> = Vec::new();
    assert(step_models(steps@) =~= Seq::empty());
    match &expr.kind {
        NodeKind::ExprBoolOp => {
            push_first_and_rest(&mut steps, &expr.children_filling(Field::Value));
        },
        NodeKind::ExprNamed
        | NodeKind::ExprAwait
        | NodeKind::ExprYield
        | NodeKind::ExprYieldFrom
        | NodeKind::ExprStarred => {
            eval_optional(&mut steps, expr.child(Field::Value));
            push_step(&mut steps, Step::Effect);
        },
        NodeKind::ExprBinOp { op } => match op {
            Operator::Coalesce => {
                eval_optional(&mut steps, expr.child(Field::Left));
                maybe_optional(&mut steps, expr.child(Field::Right), NotOnce::Conditional);
            },
            Operator::Result => push_opaque(&mut steps, expr, NotOnce::Opaque),
            _ => {
                eval_optional(&mut steps, expr.child(Field::Left));
                eval_optional(&mut steps, expr.child(Field::Right));
                push_step(&mut steps, Step::Effect);
            },
        },
        NodeKind::ExprUnaryOp { op } => match op {
            UnaryOp::Optional | UnaryOp::Propagate | UnaryOp::Force => {
                push_opaque(&mut steps, expr, NotOnce::Opaque)
            },
            _ => {
                eval_optional(&mut steps, expr.child(Field::Operand));
                push_step(&mut steps, Step::Effect);
            },
        },
        NodeKind::ExprLambda => {
            push_step(&mut steps, Step::Within(expr.range, NotOnce::Deferred));
        },
        NodeKind::ExprIf => {
            eval_optional(&mut steps, expr.child(Field::Test));
            maybe_optional(&mut steps, expr.child(Field::Body), NotOnce::Conditional);
            maybe_optional(&mut steps, expr.child(Field::Orelse), NotOnce::Conditional);
        },
        NodeKind::ExprDict | NodeKind::ExprSlice => push_children(&mut steps, expr),
        NodeKind::ExprSet | NodeKind::ExprList { .. } => {
            push_evals(&mut steps, &expr.children_filling(Field::Elt));
        },
        NodeKind::ExprTuple { is_special, .. } => {
            if *is_special {
                push_opaque(&mut steps, expr, NotOnce::Opaque);
            } else {
                push_evals(&mut steps, &expr.children_filling(Field::Elt));
            }
        },
        NodeKind::ExprListComp
        | NodeKind::ExprSetComp
        | NodeKind::ExprDictComp
        | NodeKind::ExprGenerator { .. } => push_comprehension(&mut steps, expr),
        NodeKind::ExprCompare => {
            eval_optional(&mut steps, expr.child(Field::Left));
            push_comparators(&mut steps, &expr.children_filling(Field::Comparator));
        },
        NodeKind::ExprCall { is_cast, is_string_tag } => {
            if *is_cast || *is_string_tag {
                push_opaque(&mut steps, expr, NotOnce::Opaque);
            } else if is_optional_chain(expr) {
                push_opaque(&mut steps, expr, NotOnce::OptionalChain);
            } else {
                eval_optional(&mut steps, expr.child(Field::Func));
                push_evals(&mut steps, &call_argument_values(expr));
                push_step(&mut steps, Step::Effect);
            }
        },
        NodeKind::ExprAttribute { .. } => {
            if is_optional_chain(expr) {
                push_opaque(&mut steps, expr, NotOnce::OptionalChain);
            } else {
                eval_optional(&mut steps, expr.child(Field::Value));
                push_step(&mut steps, Step::Effect);
            }
        },
        NodeKind::ExprSubscript { is_special, .. } => {
            if *is_special {
                push_opaque(&mut steps, expr, NotOnce::Opaque);
            } else if is_optional_chain(expr) {
                push_opaque(&mut steps, expr, NotOnce::OptionalChain);
            } else {
                eval_optional(&mut steps, expr.child(Field::Value));
                eval_optional(&mut steps, expr.child(Field::Slice));
                push_step(&mut steps, Step::Effect);
            }
        },
        NodeKind::ExprName { .. }
        | NodeKind::ExprStringLiteral { .. }
        | NodeKind::ExprBytesLiteral { .. }
        | NodeKind::ExprNumberLiteral
        | NodeKind::ExprBooleanLiteral
        | NodeKind::ExprNoneLiteral
        | NodeKind::ExprEllipsisLiteral => {},
        _ => push_opaque(&mut steps, expr, NotOnce::Opaque),
    }
    assert(step_models(steps@) =~= expr_steps(*expr));
    steps
}

/// The steps storing to `target` takes.
fn steps_of_target<'a>(target: &'a Node) -> (steps: Vec<Step<'a>>)
    ensures
        step_models(steps@) == target_steps(*target),
{
    let mut steps: Vec<Step<'a>> = Vec::new();
    assert(step_models(steps@) =~= Seq::empty());
    match &target.kind {
        NodeKind::ExprName { .. } => push_step(&mut steps, Step::Effect),
        NodeKind::ExprAttribute { optional, .. } => {
            if *optional {
                push_opaque(&mut steps, target, NotOnce::Opaque);
            } else {
                eval_optional(&mut steps, target.child(Field::Value));
                push_step(&mut steps, Step::Effect);
            }
        },
        NodeKind::ExprSubscript { is_special, .. } => {
            if *is_special {
                push_opaque(&mut steps, target, NotOnce::Opaque);
            } else {
                eval_optional(&mut steps, target.child(Field::Value));
                eval_optional(&mut steps, target.child(Field::Slice));
                push_step(&mut steps, Step::Effect);
            }
        },
        NodeKind::ExprTuple { .. } | NodeKind::ExprList { .. } => {
            push_step(&mut steps, Step::Effect);
            push_stores(&mut steps, &target.children_filling(Field::Elt));
        },
        NodeKind::ExprStarred => store_optional(&mut steps, target.child(Field::Value)),
        _ => push_opaque(&mut steps, target, NotOnce::Opaque),
    }
    assert(step_models(steps@) =~= target_steps(*target));
    steps
}

fn push_elif_tests<'a>(steps: &mut Vec<Step<'a>>, clauses: &Vec<&'a Node>)
    ensures
        step_models(final(steps)@) == step_models(old(steps)@) + elif_steps(clauses@.unref()),
{
    let ghost start = step_models(steps@);
    let ghost all = clauses@.unref();
    let mut i: usize = 0;
    assert(step_models(steps@) =~= start + elif_steps(all.take(0)));
    while i < clauses.len()
        invariant
            i <= clauses.len(),
            all == clauses@.unref(),
            step_models(steps@) =~= start + elif_steps(all.take(i as int)),
        decreases clauses.len() - i,
    {
        assert(all.take(i + 1).drop_last() =~= all.take(i as int));
        assert(all.take(i + 1).last() == *clauses@[i as int]);
        within_optional(steps, clauses[i].child(Field::Test), NotOnce::Conditional);
        i += 1;
    }
    assert(all.take(i as int) =~= all);
}

fn push_with_items<'a>(steps: &mut Vec<Step<'a>>, items: &Vec<&'a Node>)
    ensures
        step_models(final(steps)@) == step_models(old(steps)@) + with_steps(items@.unref()),
{
    let ghost start = step_models(steps@);
    let ghost all = items@.unref();
    let mut i: usize = 0;
    assert(step_models(steps@) =~= start + with_steps(all.take(0)));
    while i < items.len()
        invariant
            i <= items.len(),
            all == items@.unref(),
            step_models(steps@) =~= start + with_steps(all.take(i as int)),
        decreases items.len() - i,
    {
        assert(all.take(i + 1).drop_last() =~= all.take(i as int));
        assert(all.take(i + 1).last() == *items@[i as int]);
        eval_optional(steps, items[i].child(Field::ContextExpr));
        push_step(steps, Step::Effect);
        within_optional(steps, items[i].child(Field::OptionalVars), NotOnce::Opaque);
        i += 1;
    }
    assert(all.take(i as int) =~= all);
}

/// The steps running `stmt` takes, up to its suites.
fn steps_of_stmt<'a>(stmt: &'a Node) -> (steps: Vec<Step<'a>>)
    ensures
        step_models(steps@) == stmt_steps(*stmt),
{
    let mut steps: Vec<Step<'a>> = Vec::new();
    assert(step_models(steps@) =~= Seq::empty());
    let body = Step::Within(stmt.range, NotOnce::Body);
    match &stmt.kind {
        NodeKind::StmtExpr | NodeKind::StmtReturn => {
            eval_optional(&mut steps, stmt.child(Field::Value));
        },
        NodeKind::StmtAssign => {
            if stmt.child(Field::Decorator).is_some() {
                push_opaque(&mut steps, stmt, NotOnce::Opaque);
            } else {
                eval_optional(&mut steps, stmt.child(Field::Value));
                push_stores(&mut steps, &stmt.children_filling(Field::Target));
            }
        },
        NodeKind::StmtAugAssign => {
            let target = stmt.child(Field::Target);
            let reads_a_name = match target {
                Some(target) => matches!(target.kind, NodeKind::ExprName { .. }),
                None => false,
            };
            if !reads_a_name {
                store_optional(&mut steps, target);
                push_step(&mut steps, Step::Effect);
            }
            eval_optional(&mut steps, stmt.child(Field::Value));
            push_step(&mut steps, Step::Effect);
        },
        NodeKind::StmtAnnAssign { is_context } => {
            if stmt.child(Field::Decorator).is_some() || *is_context {
                push_opaque(&mut steps, stmt, NotOnce::Opaque);
            } else {
                within_optional(
                    &mut steps,
                    stmt.child(Field::Annotation),
                    NotOnce::Annotation,
                );
                eval_optional(&mut steps, stmt.child(Field::Value));
                store_optional(&mut steps, stmt.child(Field::Target));
            }
        },
        NodeKind::StmtIf { has_pattern } => {
            if *has_pattern {
                push_opaque(&mut steps, stmt, NotOnce::Opaque);
            } else {
                eval_optional(&mut steps, stmt.child(Field::Test));
                push_elif_tests(&mut steps, &stmt.children_filling(Field::ElifElse));
                push_step(&mut steps, body);
            }
        },
        NodeKind::StmtWhile => {
            within_optional(&mut steps, stmt.child(Field::Test), NotOnce::Loop);
            push_step(&mut steps, body);
        },
        NodeKind::StmtFor { .. } => {
            eval_optional(&mut steps, stmt.child(Field::Iter));
            push_step(&mut steps, body);
        },
        NodeKind::StmtWith { .. } => {
            push_with_items(&mut steps, &stmt.children_filling(Field::Item));
            push_step(&mut steps, body);
        },
        NodeKind::StmtMatch => {
            eval_optional(&mut steps, stmt.child(Field::Subject));
            push_step(&mut steps, body);
        },
        NodeKind::StmtRaise => {
            eval_optional(&mut steps, stmt.child(Field::Exc));
            eval_optional(&mut steps, stmt.child(Field::Cause));
        },
        NodeKind::StmtAssert => {
            push_step(&mut steps, Step::Within(stmt.range, NotOnce::Assertion));
        },
        NodeKind::StmtDelete => {
            push_stores(&mut steps, &stmt.children_filling(Field::Target));
        },
        _ => push_opaque(&mut steps, stmt, NotOnce::Opaque),
    }
    assert(step_models(steps@) =~= stmt_steps(*stmt));
    steps
}

/// An evaluation under way, looking for a node.
struct Walk {
    id: u32,
    range: TextRange,
    effects: bool,
}

impl Walk {
    spec fn looks_for(self, other: Walk) -> bool {
        self.id == other.id && self.range == other.range
    }

    fn expr(&mut self, expr: &Node) -> (found: Option<Placement>)
        ensures
            final(self).looks_for(*old(self)),
            (Ran { found, effects: final(self).effects }) == evaluated(
                *expr,
                old(self).id,
                old(self).range,
                old(self).effects,
            ),
        decreases height(*expr), 1int,
    {
        if expr.id == self.id {
            return Some(Placement::Once { effects_before: self.effects });
        }
        if !expr.range.contains_range(self.range) {
            if !is_pure(expr) {
                self.effects = true;
            }
            return None;
        }
        let steps = steps_of_expr(expr);
        proof {
            lemma_expr_steps_below(*expr);
        }
        self.run(&steps, expr)
    }

    /// The parts of an assignment target that are evaluated before the store.
    fn target(&mut self, target: &Node) -> (found: Option<Placement>)
        ensures
            final(self).looks_for(*old(self)),
            (Ran { found, effects: final(self).effects }) == stored(
                *target,
                old(self).id,
                old(self).range,
                old(self).effects,
            ),
        decreases height(*target), 1int,
    {
        let steps = steps_of_target(target);
        proof {
            lemma_target_steps_below(*target);
        }
        self.run(&steps, target)
    }

    /// Takes `steps`, which are those of `node`, until one comes to the target.
    fn run(&mut self, steps: &Vec<Step<'_>>, node: &Node) -> (found: Option<Placement>)
        requires
            all_go_below(step_models(steps@), height(*node)),
        ensures
            final(self).looks_for(*old(self)),
            (Ran { found, effects: final(self).effects }) == ran(
                step_models(steps@),
                height(*node),
                old(self).id,
                old(self).range,
                old(self).effects,
            ),
        decreases height(*node), 0int,
    {
        let ghost models = step_models(steps@);
        let ghost below = height(*node);
        let mut i: usize = 0;
        assert(models.skip(0) =~= models);
        while i < steps.len()
            invariant
                i <= steps.len(),
                models == step_models(steps@),
                below == height(*node),
                all_go_below(models, below),
                self.looks_for(*old(self)),
                ran(models.skip(i as int), below, self.id, self.range, self.effects) == ran(
                    models,
                    below,
                    old(self).id,
                    old(self).range,
                    old(self).effects,
                ),
            decreases steps.len() - i,
        {
            let ghost rest = models.skip(i as int);
            assert(rest[0] == models[i as int]);
            assert(models[i as int] == steps@[i as int]@);
            assert(goes_below(models[i as int], below)) by {
                reveal(all_go_below);
            }
            assert(rest.skip(1) =~= models.skip(i + 1));
            match steps[i] {
                Step::Eval(node) => {
                    let found = self.expr(node);
                    if found.is_some() {
                        return found;
                    }
                },
                Step::Store(node) => {
                    let found = self.target(node);
                    if found.is_some() {
                        return found;
                    }
                },
                Step::Maybe(node, reason) => {
                    if node.range.contains_range(self.range) {
                        return Some(Placement::NotOnce(reason));
                    }
                    if !is_pure(node) {
                        self.effects = true;
                    }
                },
                Step::Within(range, reason) => {
                    if range.contains_range(self.range) {
                        return Some(Placement::NotOnce(reason));
                    }
                },
                Step::Effect => {
                    self.effects = true;
                },
            }
            i += 1;
        }
        None
    }
}

/// Where the expression `target` sits in the evaluation of `statement`. `target`
/// must be a node of `statement`'s tree, since it is found by identity.
pub fn placement_in_statement(statement: &Node, target: &Node) -> (found: Placement)
    ensures
        found == placement(*statement, target.id, target.range),
{
    let steps = steps_of_stmt(statement);
    proof {
        lemma_stmt_steps_below(*statement);
    }
    let mut walk = Walk { id: target.id, range: target.range, effects: false };
    match walk.run(&steps, statement) {
        Some(found) => found,
        None => Placement::NotOnce(NotOnce::Opaque),
    }
}

/// Whether `child` is a part of `parent` that may be passed over, or gone through again, or comes
/// later, when `parent` is evaluated or run: an operand of `and` and `or` after the first, an arm
/// of a conditional, a comparison after the first, anything of a comprehension but what it goes
/// through first, the inside of a lambda, of a loop or of another compound statement.
pub open spec fn may_be_skipped(parent: Node, child: Node) -> bool {
    match parent.kind {
        NodeKind::ExprBoolOp => child_of(parent, Field::Value) != Some(child),
        NodeKind::ExprBinOp { op } => op == Operator::Coalesce && child.field == Field::Right,
        NodeKind::ExprIf => child.field == Field::Body || child.field == Field::Orelse,
        NodeKind::ExprCompare => child.field == Field::Comparator && child_of(
            parent,
            Field::Comparator,
        ) != Some(child),
        NodeKind::ExprLambda => true,
        NodeKind::ExprListComp
        | NodeKind::ExprSetComp
        | NodeKind::ExprDictComp
        | NodeKind::ExprGenerator { .. } => child_of(parent, Field::Generator) != Some(child),
        NodeKind::Comprehension { .. } => child.field != Field::Iter,
        NodeKind::StmtIf { .. } => child.field != Field::Test,
        NodeKind::StmtWhile => true,
        NodeKind::StmtFor { .. } => child.field != Field::Iter,
        NodeKind::StmtWith { .. } => child.field != Field::Item,
        NodeKind::WithItem => child.field != Field::ContextExpr,
        NodeKind::StmtMatch => child.field != Field::Subject,
        NodeKind::StmtAnnAssign { .. } => child.field == Field::Annotation,
        NodeKind::StmtAssert
        | NodeKind::StmtTry
        | NodeKind::StmtFunctionDef { .. }
        | NodeKind::StmtClassDef { .. } => true,
        _ => false,
    }
}

/// Whether the parts of `parent` are not evaluated in an order that is known: what basedpython
/// writes its own way, a string with values in it, a declaration.
pub open spec fn is_not_modelled(parent: Node) -> bool {
    match parent.kind {
        NodeKind::ExprBinOp { op } => op == Operator::Result,
        NodeKind::ExprUnaryOp { op } => op == UnaryOp::Optional || op == UnaryOp::Propagate || op
            == UnaryOp::Force,
        NodeKind::ExprCall { is_cast, is_string_tag } => is_cast || is_string_tag
            || optional_chain(parent),
        NodeKind::ExprAttribute { optional, .. } => optional,
        NodeKind::ExprFString { .. }
        | NodeKind::ExprTString { .. }
        | NodeKind::ExprStatement
        | NodeKind::ExprCallableType
        | NodeKind::ExprProtocolType
        | NodeKind::ExprProtocolMethod
        | NodeKind::ExprIpyEscapeCommand => true,
        NodeKind::StmtIf { has_pattern } => has_pattern,
        NodeKind::StmtAnnAssign { is_context } => is_context || child_of(
            parent,
            Field::Decorator,
        ) is Some,
        NodeKind::StmtAssign => child_of(parent, Field::Decorator) is Some,
        NodeKind::StmtTypeAlias
        | NodeKind::StmtLet
        | NodeKind::StmtImport
        | NodeKind::StmtImportFrom { .. }
        | NodeKind::StmtGlobal
        | NodeKind::StmtNonlocal
        | NodeKind::StmtIpyEscapeCommand => true,
        _ => false,
    }
}

/// Whether `path` goes into a part of `path[k]` that is evaluated exactly once whenever that is.
pub open spec fn is_sure_link(path: Seq<Node>, k: int) -> bool {
    !may_be_skipped(path[k], path[k + 1]) && !is_not_modelled(path[k])
}

/// Whether `path` only goes into parts that are evaluated exactly once.
pub open spec fn is_sure_path(path: Seq<Node>) -> bool {
    &&& is_path(path)
    &&& forall|k: int| 0 <= k < path.len() - 1 ==> #[trigger] is_sure_link(path, k)
}

/// Whether a sure path leads from `node` to `part`.
spec fn is_sure_part(node: Node, part: Node) -> bool {
    exists|path: Seq<Node>| #[trigger]
        is_sure_path(path) && path[0] == node && path.last() == part
}

proof fn lemma_sure_child(node: Node, child: Node)
    requires
        node.children@.contains(child),
        !may_be_skipped(node, child),
        !is_not_modelled(node),
    ensures
        is_sure_part(node, child),
{
    let path = seq![node, child];
    assert(is_link(path, 0));
    assert(is_sure_link(path, 0));
    assert(is_sure_path(path));
}

proof fn lemma_sure_parts(node: Node, part: Node, inner: Node)
    requires
        is_sure_part(node, part),
        is_sure_part(part, inner),
    ensures
        is_sure_part(node, inner),
{
    let path = choose|path: Seq<Node>| #[trigger]
        is_sure_path(path) && path[0] == node && path.last() == part;
    let rest = choose|path: Seq<Node>| #[trigger]
        is_sure_path(path) && path[0] == part && path.last() == inner;
    let joined = path + rest.skip(1);
    lemma_path_joined(path, rest);
    assert forall|k: int| 0 <= k < joined.len() - 1 implies #[trigger] is_sure_link(joined, k) by {
        if k < path.len() - 1 {
            assert(is_sure_link(path, k));
        } else {
            let m = k - (path.len() - 1);
            assert(is_sure_link(rest, m));
            assert(joined[k] == rest[m]);
            assert(joined[k + 1] == rest[m + 1]);
        }
    }
    assert(is_sure_path(joined));
}

/// Whether the node a step goes into is a sure part of `node`.
spec fn goes_surely(step: StepModel, node: Node) -> bool {
    match step {
        StepModel::Eval(part) => is_sure_part(node, part),
        StepModel::Store(part) => is_sure_part(node, part),
        _ => true,
    }
}

#[verifier::opaque]
spec fn all_go_surely(steps: Seq<StepModel>, node: Node) -> bool {
    forall|i: int| 0 <= i < steps.len() ==> goes_surely(#[trigger] steps[i], node)
}

broadcast proof fn lemma_none_go_surely(node: Node)
    ensures
        #[trigger] all_go_surely(Seq::empty(), node),
{
    reveal(all_go_surely);
}

broadcast proof fn lemma_pushed_goes_surely(steps: Seq<StepModel>, step: StepModel, node: Node)
    requires
        all_go_surely(steps, node),
        goes_surely(step, node),
    ensures
        #[trigger] all_go_surely(steps.push(step), node),
{
    reveal(all_go_surely);
}

broadcast proof fn lemma_joined_go_surely(a: Seq<StepModel>, b: Seq<StepModel>, node: Node)
    requires
        all_go_surely(a, node),
        all_go_surely(b, node),
    ensures
        #[trigger] all_go_surely(a + b, node),
{
    reveal(all_go_surely);
    assert forall|i: int| 0 <= i < (a + b).len() implies goes_surely(
        #[trigger] (a + b)[i],
        node,
    ) by {
        if i < a.len() {
            assert((a + b)[i] == a[i]);
        } else {
            assert((a + b)[i] == b[i - a.len()]);
        }
    }
}

broadcast proof fn lemma_child_goes_surely(node: Node, field: Field)
    requires
        !is_not_modelled(node),
        child_of(node, field) matches Some(child) ==> !may_be_skipped(node, child),
    ensures
        #[trigger] all_go_surely(eval_if_any(child_of(node, field)), node),
{
    reveal(all_go_surely);
    if let Some(child) = child_of(node, field) {
        let i = lemma_first_filling_in(node.children@, field);
        lemma_sure_child(node, child);
    }
}

broadcast proof fn lemma_stored_child_goes_surely(node: Node, field: Field)
    requires
        !is_not_modelled(node),
        child_of(node, field) matches Some(child) ==> !may_be_skipped(node, child),
    ensures
        #[trigger] all_go_surely(store_if_any(child_of(node, field)), node),
{
    reveal(all_go_surely);
    if let Some(child) = child_of(node, field) {
        let i = lemma_first_filling_in(node.children@, field);
        lemma_sure_child(node, child);
    }
}

proof fn lemma_sure_children(node: Node, field: Field)
    requires
        !is_not_modelled(node),
        forall|child: Node| child.field == field ==> !#[trigger] may_be_skipped(node, child),
    ensures
        forall|j: int|
            0 <= j < children_of(node, field).len() ==> is_sure_part(
                node,
                #[trigger] children_of(node, field)[j],
            ),
{
    assert forall|j: int| 0 <= j < children_of(node, field).len() implies is_sure_part(
        node,
        #[trigger] children_of(node, field)[j],
    ) by {
        let i = lemma_all_filling_in(node.children@, field, j);
        assert(!may_be_skipped(node, node.children@[i]));
        lemma_sure_child(node, node.children@[i]);
    }
}

broadcast proof fn lemma_children_go_surely(node: Node, field: Field)
    requires
        !is_not_modelled(node),
        forall|child: Node| child.field == field ==> !#[trigger] may_be_skipped(node, child),
    ensures
        #[trigger] all_go_surely(eval_each(children_of(node, field)), node),
{
    reveal(all_go_surely);
    lemma_sure_children(node, field);
}

broadcast proof fn lemma_stored_children_go_surely(node: Node, field: Field)
    requires
        !is_not_modelled(node),
        forall|child: Node| child.field == field ==> !#[trigger] may_be_skipped(node, child),
    ensures
        #[trigger] all_go_surely(store_each(children_of(node, field)), node),
{
    reveal(all_go_surely);
    lemma_sure_children(node, field);
}

broadcast proof fn lemma_maybes_go_surely(part: Option<Node>, reason: NotOnce, node: Node)
    ensures
        #[trigger] all_go_surely(maybe_if_any(part, reason), node),
{
    reveal(all_go_surely);
}

broadcast proof fn lemma_ranges_go_surely(part: Option<Node>, reason: NotOnce, node: Node)
    ensures
        #[trigger] all_go_surely(within_if_any(part, reason), node),
{
    reveal(all_go_surely);
}

broadcast proof fn lemma_opaque_goes_surely(part: Node, reason: NotOnce, node: Node)
    ensures
        #[trigger] all_go_surely(opaque(part, reason), node),
{
    reveal(all_go_surely);
}

broadcast group group_surely {
    lemma_none_go_surely,
    lemma_pushed_goes_surely,
    lemma_joined_go_surely,
    lemma_child_goes_surely,
    lemma_stored_child_goes_surely,
    lemma_children_go_surely,
    lemma_stored_children_go_surely,
    lemma_maybes_go_surely,
    lemma_ranges_go_surely,
    lemma_opaque_goes_surely,
}

proof fn lemma_first_of_all(nodes: Seq<Node>, field: Field)
    ensures
        all_filling(nodes, field).len() > 0 ==> first_filling(nodes, field) == Some(
            all_filling(nodes, field)[0],
        ),
        all_filling(nodes, field).len() == 0 ==> first_filling(nodes, field) is None,
    decreases nodes.len(),
{
    if nodes.len() > 0 {
        lemma_first_of_all(nodes.drop_last(), field);
        lemma_first_of_longer(nodes.drop_last(), nodes.last(), field);
        assert(nodes.drop_last().push(nodes.last()) =~= nodes);
    }
}

proof fn lemma_first_of_longer(nodes: Seq<Node>, last: Node, field: Field)
    ensures
        first_filling(nodes.push(last), field) == match first_filling(nodes, field) {
            Some(node) => Some(node),
            None => if last.field == field {
                Some(last)
            } else {
                None
            },
        },
    decreases nodes.len(),
{
    let all = nodes.push(last);
    if nodes.len() > 0 {
        assert(all.skip(1) =~= nodes.skip(1).push(last));
        lemma_first_of_longer(nodes.skip(1), last, field);
    } else {
        assert(all.skip(1) =~= Seq::empty());
        assert(first_filling(Seq::<Node>::empty(), field) is None);
    }
}

proof fn lemma_passed_values_are_sure(arguments: Node, upto: int)
    requires
        arguments.kind is Arguments,
        0 <= upto <= arguments.children@.len(),
    ensures
        forall|i: int|
            0 <= i < passed_values(arguments.children@.take(upto)).len() ==> is_sure_part(
                arguments,
                #[trigger] passed_values(arguments.children@.take(upto))[i],
            ),
    decreases upto,
{
    if upto > 0 {
        lemma_passed_values_are_sure(arguments, upto - 1);
        let some = arguments.children@.take(upto);
        assert(some.drop_last() =~= arguments.children@.take(upto - 1));
        let last = arguments.children@[upto - 1];
        assert(some.last() == last);
        assert(arguments.children@.contains(last));
        lemma_sure_child(arguments, last);
        if last.kind is Keyword {
            if let Some(value) = child_of(last, Field::Value) {
                let i = lemma_first_filling_in(last.children@, Field::Value);
                lemma_sure_child(last, value);
                lemma_sure_parts(arguments, last, value);
            }
        }
        let before = passed_values(some.drop_last());
        assert forall|i: int| 0 <= i < passed_values(some).len() implies is_sure_part(
            arguments,
            #[trigger] passed_values(some)[i],
        ) by {
            if i < before.len() {
                assert(passed_values(some)[i] == before[i]);
            }
        }
    }
}

proof fn lemma_call_values_go_surely(call: Node)
    requires
        call.kind is ExprCall,
        !is_not_modelled(call),
        child_of(call, Field::Arguments) matches Some(arguments) ==> arguments.kind is Arguments,
    ensures
        all_go_surely(eval_each(call_values(call)), call),
{
    reveal(all_go_surely);
    if let Some(arguments) = child_of(call, Field::Arguments) {
        let i = lemma_first_filling_in(call.children@, Field::Arguments);
        lemma_sure_child(call, arguments);
        let all = arguments.children@;
        lemma_passed_values_are_sure(arguments, all.len() as int);
        assert(all.take(all.len() as int) =~= all);
        assert forall|j: int| 0 <= j < call_values(call).len() implies is_sure_part(
            call,
            #[trigger] call_values(call)[j],
        ) by {
            lemma_sure_parts(call, arguments, call_values(call)[j]);
        }
    }
}

/// Whether the fields of `node` are filled by what belongs there, as far as its evaluation goes
/// through it: a call by arguments, a comprehension by what it goes through, a `with` by items.
pub open spec fn is_made_up(node: Node) -> bool {
    &&& node.kind is ExprCall ==> (child_of(node, Field::Arguments) matches Some(arguments)
        ==> arguments.kind is Arguments)
    &&& child_of(node, Field::Generator) matches Some(generator) ==> generator.kind is Comprehension
    &&& forall|i: int|
        0 <= i < children_of(node, Field::Item).len() ==> (#[trigger] children_of(
            node,
            Field::Item,
        )[i]).kind is WithItem
}

/// Whether everything under `node` is made up of what belongs there.
pub open spec fn is_all_made_up(node: Node) -> bool
    decreases node,
{
    &&& is_made_up(node)
    &&& forall|i: int|
        0 <= i < node.children@.len() ==> is_all_made_up(#[trigger] node.children@[i])
}

proof fn lemma_made_up_along(path: Seq<Node>)
    requires
        is_path(path),
        is_all_made_up(path[0]),
    ensures
        is_all_made_up(path.last()),
    decreases path.len(),
{
    if path.len() > 1 {
        lemma_path_rest(path);
        let i = path[0].children@.index_of(path[1]);
        assert(is_all_made_up(path[0].children@[i]));
        lemma_made_up_along(path.skip(1));
    }
}

proof fn lemma_expr_goes_surely(expr: Node)
    requires
        is_made_up(expr),
    ensures
        all_go_surely(expr_steps(expr), expr),
{
    broadcast use group_surely;

    broadcast use lemma_filling_field;

    match expr.kind {
        NodeKind::ExprDict | NodeKind::ExprSlice => {
            reveal(all_go_surely);
            assert forall|i: int| 0 <= i < expr.children@.len() implies is_sure_part(
                expr,
                #[trigger] expr.children@[i],
            ) by {
                lemma_sure_child(expr, expr.children@[i]);
            }
        },
        NodeKind::ExprCall { .. } => {
            if !is_not_modelled(expr) {
                lemma_call_values_go_surely(expr);
            }
        },
        NodeKind::ExprBoolOp => {
            reveal(all_go_surely);
            lemma_first_of_all(expr.children@, Field::Value);
            if children_of(expr, Field::Value).len() > 0 {
                let i = lemma_first_filling_in(expr.children@, Field::Value);
                lemma_sure_child(expr, expr.children@[i]);
            }
        },
        NodeKind::ExprCompare => {
            lemma_first_of_all(expr.children@, Field::Comparator);
            assert(all_go_surely(compare_steps(children_of(expr, Field::Comparator)), expr)) by {
                reveal(all_go_surely);
                if children_of(expr, Field::Comparator).len() > 0 {
                    let i = lemma_first_filling_in(expr.children@, Field::Comparator);
                    lemma_sure_child(expr, expr.children@[i]);
                }
            }
        },
        NodeKind::ExprListComp
        | NodeKind::ExprSetComp
        | NodeKind::ExprDictComp
        | NodeKind::ExprGenerator { .. } => {
            if let Some(first) = child_of(expr, Field::Generator) {
                let i = lemma_first_filling_in(expr.children@, Field::Generator);
                lemma_sure_child(expr, first);
                assert(all_go_surely(eval_if_any(child_of(first, Field::Iter)), expr)) by {
                    reveal(all_go_surely);
                    if let Some(iter) = child_of(first, Field::Iter) {
                        let j = lemma_first_filling_in(first.children@, Field::Iter);
                        lemma_sure_child(first, iter);
                        lemma_sure_parts(expr, first, iter);
                    }
                }
                assert(all_go_surely(
                    seq![StepModel::Within(expr.range, NotOnce::Comprehension)],
                    expr,
                )) by {
                    reveal(all_go_surely);
                }
            }
        },
        NodeKind::ExprLambda => {
            reveal(all_go_surely);
        },
        _ => {},
    }
}

proof fn lemma_target_goes_surely(target: Node)
    ensures
        all_go_surely(target_steps(target), target),
{
    broadcast use group_surely;

    broadcast use lemma_filling_field;

    assert(all_go_surely(seq![StepModel::Effect], target)) by {
        reveal(all_go_surely);
    }
}

proof fn lemma_with_goes_surely(stmt: Node, upto: int)
    requires
        stmt.kind is StmtWith,
        is_made_up(stmt),
        0 <= upto <= children_of(stmt, Field::Item).len(),
    ensures
        all_go_surely(with_steps(children_of(stmt, Field::Item).take(upto)), stmt),
    decreases upto,
{
    broadcast use group_surely;

    if upto > 0 {
        let some = children_of(stmt, Field::Item).take(upto);
        lemma_with_goes_surely(stmt, upto - 1);
        assert(some.drop_last() =~= children_of(stmt, Field::Item).take(upto - 1));
        let item = children_of(stmt, Field::Item)[upto - 1];
        assert(some.last() == item);
        let i = lemma_all_filling_in(stmt.children@, Field::Item, upto - 1);
        lemma_sure_child(stmt, item);
        assert(all_go_surely(eval_if_any(child_of(item, Field::ContextExpr)), stmt)) by {
            reveal(all_go_surely);
            if let Some(value) = child_of(item, Field::ContextExpr) {
                let j = lemma_first_filling_in(item.children@, Field::ContextExpr);
                lemma_sure_child(item, value);
                lemma_sure_parts(stmt, item, value);
            }
        }
        assert(all_go_surely(seq![StepModel::Effect], stmt)) by {
            reveal(all_go_surely);
        }
    } else {
        assert(children_of(stmt, Field::Item).take(0) =~= Seq::empty());
    }
}

proof fn lemma_elifs_go_surely(clauses: Seq<Node>, stmt: Node)
    ensures
        all_go_surely(elif_steps(clauses), stmt),
    decreases clauses.len(),
{
    broadcast use group_surely;

    if clauses.len() > 0 {
        lemma_elifs_go_surely(clauses.drop_last(), stmt);
    }
}

#[verifier::spinoff_prover]
#[verifier::rlimit(60)]
proof fn lemma_stmt_goes_surely(stmt: Node)
    requires
        is_made_up(stmt),
    ensures
        all_go_surely(stmt_steps(stmt), stmt),
{
    broadcast use group_surely;

    broadcast use lemma_filling_field;

    let items = children_of(stmt, Field::Item);
    if stmt.kind is StmtWith {
        lemma_with_goes_surely(stmt, items.len() as int);
        assert(items.take(items.len() as int) =~= items);
    }
    lemma_elifs_go_surely(children_of(stmt, Field::ElifElse), stmt);
    assert(all_go_surely(seq![StepModel::Within(stmt.range, NotOnce::Body)], stmt)) by {
        reveal(all_go_surely);
    }
    assert(all_go_surely(seq![StepModel::Within(stmt.range, NotOnce::Assertion)], stmt)) by {
        reveal(all_go_surely);
    }
}

/// When steps come to the target, evaluated once, they do in one that goes into a node.
proof fn lemma_ran_once(steps: Seq<StepModel>, below: nat, id: u32, range: TextRange, effects: bool) -> (
    found: (int, bool))
    requires
        ran(steps, below, id, range, effects).found matches Some(placement) && placement is Once,
    ensures
        0 <= found.0 < steps.len(),
        match steps[found.0] {
            StepModel::Eval(node) => height(node) < below && (evaluated(
                node,
                id,
                range,
                found.1,
            ).found matches Some(placement) && placement is Once),
            StepModel::Store(node) => height(node) < below && (stored(
                node,
                id,
                range,
                found.1,
            ).found matches Some(placement) && placement is Once),
            _ => false,
        },
    decreases steps.len(),
{
    let first = match steps[0] {
        StepModel::Eval(node) => if height(node) < below {
            evaluated(node, id, range, effects)
        } else {
            Ran { found: None, effects }
        },
        StepModel::Store(node) => if height(node) < below {
            stored(node, id, range, effects)
        } else {
            Ran { found: None, effects }
        },
        StepModel::Maybe(node, reason) => if node.range.spec_contains_range(range) {
            Ran { found: Some(Placement::NotOnce(reason)), effects }
        } else {
            Ran { found: None, effects: effects || !pure(node) }
        },
        StepModel::Within(within, reason) => if within.spec_contains_range(range) {
            Ran { found: Some(Placement::NotOnce(reason)), effects }
        } else {
            Ran { found: None, effects }
        },
        StepModel::Effect => Ran { found: None, effects: true },
    };
    if first.found is Some {
        (0, effects)
    } else {
        let found = lemma_ran_once(steps.skip(1), below, id, range, first.effects);
        assert(steps.skip(1)[found.0] == steps[found.0 + 1]);
        (found.0 + 1, found.1)
    }
}

/// What is evaluated once is reached by a sure path.
proof fn lemma_evaluated_surely(expr: Node, id: u32, range: TextRange, effects: bool) -> (path: Seq<Node>)
    requires
        is_all_made_up(expr),
        evaluated(expr, id, range, effects).found matches Some(placement) && placement is Once,
    ensures
        is_sure_path(path),
        path[0] == expr,
        path.last().id == id,
    decreases height(expr), 1int,
{
    if expr.id == id {
        let path = seq![expr];
        assert(path.last() == expr);
        path
    } else {
        lemma_expr_goes_surely(expr);
        lemma_ran_surely(expr, expr_steps(expr), id, range, effects)
    }
}

proof fn lemma_stored_surely(target: Node, id: u32, range: TextRange, effects: bool) -> (path: Seq<Node>)
    requires
        is_all_made_up(target),
        stored(target, id, range, effects).found matches Some(placement) && placement is Once,
    ensures
        is_sure_path(path),
        path[0] == target,
        path.last().id == id,
    decreases height(target), 1int,
{
    lemma_target_goes_surely(target);
    lemma_ran_surely(target, target_steps(target), id, range, effects)
}

proof fn lemma_ran_surely(
    node: Node,
    steps: Seq<StepModel>,
    id: u32,
    range: TextRange,
    effects: bool,
) -> (path: Seq<Node>)
    requires
        is_all_made_up(node),
        all_go_surely(steps, node),
        ran(steps, height(node), id, range, effects).found matches Some(placement) && placement
            is Once,
    ensures
        is_sure_path(path),
        path[0] == node,
        path.last().id == id,
    decreases height(node), 0int,
{
    let found = lemma_ran_once(steps, height(node), id, range, effects);
    let part = match steps[found.0] {
        StepModel::Eval(part) => part,
        StepModel::Store(part) => part,
        _ => node,
    };
    assert(goes_surely(steps[found.0], node)) by {
        reveal(all_go_surely);
    }
    let first = choose|path: Seq<Node>| #[trigger]
        is_sure_path(path) && path[0] == node && path.last() == part;
    lemma_made_up_along(first);
    let rest = match steps[found.0] {
        StepModel::Eval(part) => lemma_evaluated_surely(part, id, range, found.1),
        _ => lemma_stored_surely(part, id, range, found.1),
    };
    let joined = first + rest.skip(1);
    lemma_path_joined(first, rest);
    assert forall|k: int| 0 <= k < joined.len() - 1 implies #[trigger] is_sure_link(joined, k) by {
        if k < first.len() - 1 {
            assert(is_sure_link(first, k));
        } else {
            let m = k - (first.len() - 1);
            assert(is_sure_link(rest, m));
            assert(joined[k] == rest[m]);
            assert(joined[k + 1] == rest[m + 1]);
        }
    }
    joined
}

/// What is placed as evaluated exactly once is: nothing between the statement and it is evaluated
/// only under a condition, again and again, or later.
pub proof fn law_once_is_never_skipped(path: Seq<Node>)
    requires
        is_path(path),
        is_all_made_up(path[0]),
        are_ids_apart(path[0]),
        placement(path[0], path.last().id, path.last().range) is Once,
    ensures
        forall|k: int| #![trigger path[k]]
            0 <= k < path.len() - 1 ==> !may_be_skipped(path[k], path[k + 1]) && !is_not_modelled(
                path[k],
            ),
{
    let stmt = path[0];
    let target = path.last();
    lemma_stmt_goes_surely(stmt);
    let found = lemma_ran_surely(stmt, stmt_steps(stmt), target.id, target.range, false);
    lemma_one_path(path, found);
    assert forall|k: int| #![trigger path[k]] 0 <= k < path.len() - 1 implies !may_be_skipped(
        path[k],
        path[k + 1],
    ) && !is_not_modelled(path[k]) by {
        assert(is_sure_link(found, k));
    }
}

/// What taking `step` comes to.
spec fn took(step: StepModel, below: nat, id: u32, range: TextRange, effects: bool) -> Ran {
    match step {
        StepModel::Eval(node) => if height(node) < below {
            evaluated(node, id, range, effects)
        } else {
            Ran { found: None, effects }
        },
        StepModel::Store(node) => if height(node) < below {
            stored(node, id, range, effects)
        } else {
            Ran { found: None, effects }
        },
        StepModel::Maybe(node, reason) => if node.range.spec_contains_range(range) {
            Ran { found: Some(Placement::NotOnce(reason)), effects }
        } else {
            Ran { found: None, effects: effects || !pure(node) }
        },
        StepModel::Within(within, reason) => if within.spec_contains_range(range) {
            Ran { found: Some(Placement::NotOnce(reason)), effects }
        } else {
            Ran { found: None, effects }
        },
        StepModel::Effect => Ran { found: None, effects: true },
    }
}

/// Whether the target is not in what `step` goes through.
spec fn is_passed(step: StepModel, below: nat, id: u32, range: TextRange) -> bool {
    forall|effects: bool| (#[trigger] took(step, below, id, range, effects)).found is None
}

/// Whether `step` has no effect.
spec fn is_silent(step: StepModel, below: nat, id: u32, range: TextRange) -> bool {
    !took(step, below, id, range, false).effects
}

/// Steps the target is not in are passed, and what the first one it is in says is what is found.
/// Nothing has had an effect by then exactly when nothing had one before and no step does.
proof fn lemma_ran_reaches(
    steps: Seq<StepModel>,
    below: nat,
    id: u32,
    range: TextRange,
    effects: bool,
    i: int,
) -> (before: bool)
    requires
        0 <= i < steps.len(),
        forall|j: int| 0 <= j < i ==> is_passed(#[trigger] steps[j], below, id, range),
    ensures
        took(steps[i], below, id, range, before).found is Some ==> ran(
            steps,
            below,
            id,
            range,
            effects,
        ).found == took(steps[i], below, id, range, before).found,
        !before <==> !effects && forall|j: int|
            0 <= j < i ==> is_silent(#[trigger] steps[j], below, id, range),
    decreases i,
{
    let first = took(steps[0], below, id, range, effects);
    if i == 0 {
        effects
    } else {
        let rest = steps.skip(1);
        assert(is_passed(steps[0], below, id, range));
        assert(first.found is None);
        assert forall|j: int| 0 <= j < i - 1 implies is_passed(
            #[trigger] rest[j],
            below,
            id,
            range,
        ) by {
            assert(rest[j] == steps[j + 1]);
        }
        let before = lemma_ran_reaches(rest, below, id, range, first.effects, i - 1);
        assert(rest[i - 1] == steps[i]);
        assert(ran(steps, below, id, range, effects) == ran(rest, below, id, range, first.effects));
        if effects {
            match steps[0] {
                StepModel::Eval(node) => {
                    law_effects_stay(node, id, range);
                },
                StepModel::Store(node) => {
                    law_effects_stay(node, id, range);
                },
                _ => {},
            }
        }
        if !before {
            assert(is_silent(steps[0], below, id, range));
            assert forall|j: int| 0 <= j < i implies is_silent(
                #[trigger] steps[j],
                below,
                id,
                range,
            ) by {
                if j > 0 {
                    assert(rest[j - 1] == steps[j]);
                }
            }
        } else if !effects && forall|j: int|
            0 <= j < i ==> is_silent(#[trigger] steps[j], below, id, range) {
            assert(is_silent(steps[0], below, id, range));
            assert forall|j: int| 0 <= j < i - 1 implies is_silent(
                #[trigger] rest[j],
                below,
                id,
                range,
            ) by {
                assert(rest[j] == steps[j + 1]);
            }
        }
        before
    }
}

proof fn lemma_nested_along(path: Seq<Node>)
    requires
        is_path(path),
        is_nested(path[0]),
    ensures
        is_nested(path.last()),
        path[0].range.spec_contains_range(path.last().range),
    decreases path.len(),
{
    if path.len() > 1 {
        lemma_path_rest(path);
        let i = path[0].children@.index_of(path[1]);
        assert(is_nested(path[0].children@[i]));
        assert(path[0].range.spec_contains_range(path[0].children@[i].range));
        lemma_nested_along(path.skip(1));
    }
}

/// Whether the target is neither `node` nor in it.
spec fn is_elsewhere(node: Node, id: u32, range: TextRange) -> bool {
    is_nested(node) && !holds_id(node, id) && !node.range.spec_contains_range(range)
}

proof fn lemma_part_elsewhere(node: Node, part: Node, id: u32, range: TextRange)
    requires
        is_elsewhere(node, id, range),
        is_sure_part(node, part),
    ensures
        is_elsewhere(part, id, range),
{
    let path = choose|path: Seq<Node>| #[trigger]
        is_sure_path(path) && path[0] == node && path.last() == part;
    lemma_nested_along(path);
    if holds_id(part, id) {
        let rest = choose|rest: Seq<Node>| #[trigger]
            is_path(rest) && rest[0] == part && rest.last().id == id;
        lemma_path_joined(path, rest);
        assert(holds_id(node, id));
    }
}

proof fn lemma_evaluated_elsewhere(node: Node, id: u32, range: TextRange, effects: bool)
    requires
        is_elsewhere(node, id, range),
    ensures
        evaluated(node, id, range, effects) == (Ran { found: None, effects: effects || !pure(node) }),
{
    let path = seq![node];
    assert(is_path(path));
    assert(path.last().id == node.id);
    assert(holds_id(node, node.id));
}

proof fn lemma_stored_elsewhere(target: Node, id: u32, range: TextRange, effects: bool)
    requires
        is_elsewhere(target, id, range),
    ensures
        stored(target, id, range, effects).found is None,
    decreases height(target), 1int, 0nat,
{
    lemma_target_goes_surely(target);
    assert forall|i: int| 0 <= i < target_steps(target).len() implies is_step_elsewhere(
        #[trigger] target_steps(target)[i],
        target,
        id,
        range,
    ) by {
        assert(goes_surely(target_steps(target)[i], target)) by {
            reveal(all_go_surely);
        }
        match target_steps(target)[i] {
            StepModel::Eval(part) => lemma_part_elsewhere(target, part, id, range),
            StepModel::Store(part) => lemma_part_elsewhere(target, part, id, range),
            StepModel::Maybe(part, reason) => {
                lemma_no_maybe_in_target(target, i);
            },
            StepModel::Within(within, reason) => {
                lemma_range_in_target(target, i);
            },
            StepModel::Effect => {},
        }
    }
    lemma_ran_elsewhere(target, target_steps(target), id, range, effects);
}

proof fn lemma_no_maybe_in_target(target: Node, i: int)
    requires
        0 <= i < target_steps(target).len(),
    ensures
        !(target_steps(target)[i] is Maybe),
{
}

proof fn lemma_range_in_target(target: Node, i: int)
    requires
        0 <= i < target_steps(target).len(),
        target_steps(target)[i] is Within,
    ensures
        target_steps(target)[i]->Within_0 == target.range,
{
}

/// Whether the target is in nothing that `step`, one of `node`, goes through.
spec fn is_step_elsewhere(step: StepModel, node: Node, id: u32, range: TextRange) -> bool {
    match step {
        StepModel::Eval(part) => is_elsewhere(part, id, range),
        StepModel::Store(part) => is_elsewhere(part, id, range),
        StepModel::Maybe(part, _) => !part.range.spec_contains_range(range),
        StepModel::Within(within, _) => !within.spec_contains_range(range),
        StepModel::Effect => true,
    }
}

proof fn lemma_ran_elsewhere(
    node: Node,
    steps: Seq<StepModel>,
    id: u32,
    range: TextRange,
    effects: bool,
)
    requires
        forall|i: int| 0 <= i < steps.len() ==> is_step_elsewhere(#[trigger] steps[i], node, id, range),
    ensures
        ran(steps, height(node), id, range, effects).found is None,
    decreases height(node), 0int, steps.len(),
{
    if steps.len() > 0 {
        assert(is_step_elsewhere(steps[0], node, id, range));
        match steps[0] {
            StepModel::Eval(part) => {
                lemma_evaluated_elsewhere(part, id, range, effects);
            },
            StepModel::Store(part) => {
                if height(part) < height(node) {
                    lemma_stored_elsewhere(part, id, range, effects);
                }
            },
            _ => {},
        }
        let first = took(steps[0], height(node), id, range, effects);
        assert forall|i: int| 0 <= i < steps.skip(1).len() implies is_step_elsewhere(
            #[trigger] steps.skip(1)[i],
            node,
            id,
            range,
        ) by {
            assert(steps.skip(1)[i] == steps[i + 1]);
        }
        lemma_ran_elsewhere(node, steps.skip(1), id, range, first.effects);
    }
}

proof fn lemma_step_passed(step: StepModel, node: Node, below: nat, id: u32, range: TextRange)
    requires
        is_step_elsewhere(step, node, id, range),
    ensures
        is_passed(step, below, id, range),
        step matches StepModel::Eval(part) ==> height(part) < below ==> is_silent(
            step,
            below,
            id,
            range,
        ) == pure(part),
        step is Effect ==> !is_silent(step, below, id, range),
{
    assert forall|effects: bool| (#[trigger] took(
        step,
        below,
        id,
        range,
        effects,
    )).found is None by {
        match step {
            StepModel::Eval(part) => lemma_evaluated_elsewhere(part, id, range, effects),
            StepModel::Store(part) => lemma_stored_elsewhere(part, id, range, effects),
            _ => {},
        }
    }
    if let StepModel::Eval(part) = step {
        lemma_evaluated_elsewhere(part, id, range, false);
    }
}

/// Whether a target can be looked for at the end of `path`: the parts of the tree are one after
/// the other, none is there twice, and the target is written.
pub open spec fn can_be_looked_for(path: Seq<Node>) -> bool {
    &&& is_path(path)
    &&& is_nested(path[0])
    &&& are_ids_apart(path[0])
    &&& is_all_made_up(path[0])
    &&& path.last().range.start < path.last().range.end
}

proof fn lemma_looked_for_rest(path: Seq<Node>)
    requires
        can_be_looked_for(path),
        path.len() > 1,
    ensures
        can_be_looked_for(path.skip(1)),
        path.skip(1)[0] == path[1],
        path.skip(1).last() == path.last(),
        path[0].children@.contains(path[1]),
        path[1].range.spec_contains_range(path.last().range),
        holds_id(path[1], path.last().id),
        path[0].id != path.last().id,
        path[0].range.spec_contains_range(path.last().range),
{
    lemma_path_rest(path);
    let i = path[0].children@.index_of(path[1]);
    let child = path[0].children@[i];
    assert(is_nested(child));
    assert(are_ids_apart(child));
    assert(is_all_made_up(child));
    lemma_nested_along(path.skip(1));
    lemma_nested_along(path);
    assert(holds_id(child, path.last().id));
}

/// A child that is not on the path to the target is elsewhere.
proof fn lemma_sibling_elsewhere(path: Seq<Node>, sibling: Node)
    requires
        can_be_looked_for(path),
        path.len() > 1,
        path[0].children@.contains(sibling),
        sibling != path[1],
    ensures
        is_elsewhere(sibling, path.last().id, path.last().range),
{
    lemma_looked_for_rest(path);
    let node = path[0];
    let i = node.children@.index_of(sibling);
    let j = node.children@.index_of(path[1]);
    assert(is_nested(node.children@[i]));
    assert(holds_id(node.children@[j], path.last().id));
    if i < j {
        assert(is_before(node.children@[i].range, node.children@[j].range));
        assert(!(holds_id(node.children@[i], path.last().id)));
    } else {
        assert(is_before(node.children@[j].range, node.children@[i].range));
        assert(!(holds_id(node.children@[i], path.last().id)));
    }
}

/// What a part of a node that is elsewhere holds is elsewhere.
proof fn lemma_child_elsewhere(node: Node, child: Node, id: u32, range: TextRange)
    requires
        is_elsewhere(node, id, range),
        node.children@.contains(child),
    ensures
        is_elsewhere(child, id, range),
{
    let path = seq![node, child];
    assert(is_link(path, 0));
    assert(is_path(path));
    lemma_nested_along(path);
    if holds_id(child, id) {
        let rest = choose|rest: Seq<Node>| #[trigger]
            is_path(rest) && rest[0] == child && rest.last().id == id;
        lemma_path_joined(path, rest);
        assert(holds_id(node, id));
    }
}

/// Whether `child` is a part of `parent` that is evaluated exactly once whenever `parent` is, when
/// nothing that comes before it leaves: an operand, an element, an argument, what is called,
/// subscripted or looked into, the first thing a condition or a comparison looks at, and what a
/// statement evaluates before anything else of it runs.
pub open spec fn is_always_evaluated(parent: Node, child: Node) -> bool {
    match parent.kind {
        NodeKind::ExprBoolOp
        | NodeKind::ExprNamed
        | NodeKind::ExprAwait
        | NodeKind::ExprYield
        | NodeKind::ExprYieldFrom
        | NodeKind::ExprStarred
        | NodeKind::Keyword
        | NodeKind::StmtExpr
        | NodeKind::StmtReturn
        | NodeKind::StmtAugAssign => child_of(parent, Field::Value) == Some(child),
        NodeKind::ExprBinOp { op } => match op {
            Operator::Coalesce => child_of(parent, Field::Left) == Some(child),
            Operator::Result => false,
            _ => child_of(parent, Field::Left) == Some(child) || child_of(parent, Field::Right)
                == Some(child),
        },
        NodeKind::ExprUnaryOp { op } => child_of(parent, Field::Operand) == Some(child) && (op
            == UnaryOp::Not || op == UnaryOp::Invert || op == UnaryOp::UAdd || op == UnaryOp::USub),
        NodeKind::ExprIf => child_of(parent, Field::Test) == Some(child),
        NodeKind::ExprDict | NodeKind::ExprSlice | NodeKind::Arguments => true,
        NodeKind::ExprSet | NodeKind::ExprList { .. } => child.field == Field::Elt,
        NodeKind::ExprTuple { is_special, .. } => child.field == Field::Elt && !is_special,
        NodeKind::ExprListComp
        | NodeKind::ExprSetComp
        | NodeKind::ExprDictComp
        | NodeKind::ExprGenerator { .. } => child_of(parent, Field::Generator) == Some(child),
        NodeKind::Comprehension { .. } => child_of(parent, Field::Iter) == Some(child),
        NodeKind::ExprCompare => child_of(parent, Field::Left) == Some(child) || child_of(
            parent,
            Field::Comparator,
        ) == Some(child),
        NodeKind::ExprCall { is_cast, is_string_tag } => !is_cast && !is_string_tag
            && !optional_chain(parent) && (child_of(parent, Field::Func) == Some(child) || child_of(
            parent,
            Field::Arguments,
        ) == Some(child)),
        NodeKind::ExprAttribute { .. } => !optional_chain(parent) && child_of(parent, Field::Value)
            == Some(child),
        NodeKind::ExprSubscript { is_special, .. } => !is_special && !optional_chain(parent) && (
        child_of(parent, Field::Value) == Some(child) || child_of(parent, Field::Slice) == Some(
            child,
        )),
        NodeKind::StmtAssign => child_of(parent, Field::Decorator) is None && child_of(
            parent,
            Field::Value,
        ) == Some(child),
        NodeKind::StmtAnnAssign { is_context } => !is_context && child_of(
            parent,
            Field::Decorator,
        ) is None && child_of(parent, Field::Value) == Some(child),
        NodeKind::StmtIf { has_pattern } => !has_pattern && child_of(parent, Field::Test) == Some(
            child,
        ),
        NodeKind::StmtFor { .. } => child_of(parent, Field::Iter) == Some(child),
        NodeKind::StmtMatch => child_of(parent, Field::Subject) == Some(child),
        NodeKind::StmtRaise => child_of(parent, Field::Exc) == Some(child) || child_of(
            parent,
            Field::Cause,
        ) == Some(child),
        _ => false,
    }
}

/// Whether `sibling` is evaluated before `child` when `parent` is: what is written to the left of
/// an operator, a comparison or a bracket is before what is written to its right, what is called
/// before what is passed, and of elements and arguments the earlier ones.
pub open spec fn is_evaluated_first(parent: Node, sibling: Node, child: Node) -> bool {
    match parent.kind {
        NodeKind::ExprBinOp { .. } => child_of(parent, Field::Left) == Some(sibling)
            && child.field == Field::Right,
        NodeKind::ExprCompare => child_of(parent, Field::Left) == Some(sibling) && child.field
            == Field::Comparator,
        NodeKind::ExprSubscript { .. } => child_of(parent, Field::Value) == Some(sibling)
            && child.field == Field::Slice,
        NodeKind::ExprCall { .. } => child_of(parent, Field::Func) == Some(sibling) && child.field
            == Field::Arguments,
        NodeKind::StmtRaise => child_of(parent, Field::Exc) == Some(sibling) && child.field
            == Field::Cause,
        NodeKind::ExprDict | NodeKind::ExprSlice => comes_before(parent.children@, sibling, child),
        NodeKind::Arguments => exists|argument: Node|
            #[trigger] comes_before(parent.children@, argument, child) && is_what_is_passed(
                argument,
                sibling,
            ),
        NodeKind::ExprSet | NodeKind::ExprList { .. } | NodeKind::ExprTuple { .. } => comes_before(
            children_of(parent, Field::Elt),
            sibling,
            child,
        ),
        _ => false,
    }
}

/// Whether `value` is what `argument` passes: itself, or what a keyword says.
pub open spec fn is_what_is_passed(argument: Node, value: Node) -> bool {
    if argument.kind is Keyword {
        child_of(argument, Field::Value) == Some(value)
    } else {
        argument == value
    }
}

pub open spec fn comes_before(nodes: Seq<Node>, first: Node, second: Node) -> bool {
    exists|i: int, j: int|
        0 <= i < j < nodes.len() && #[trigger] nodes[i] == first && #[trigger] nodes[j] == second
}

/// Whether, going along `path`, nothing that has an effect is evaluated before what it leads to, as
/// far as `path[k]` goes: what is evaluated first is without effects.
pub open spec fn is_first_effect(path: Seq<Node>, k: int) -> bool {
    forall|sibling: Node| #[trigger]
        is_evaluated_first(path[k], sibling, path[k + 1]) ==> pure(sibling)
}

proof fn lemma_first_index(steps: Seq<StepModel>, step: StepModel) -> (i: int)
    requires
        steps.contains(step),
    ensures
        0 <= i < steps.len(),
        steps[i] == step,
        forall|j: int| 0 <= j < i ==> #[trigger] steps[j] != step,
    decreases steps.len(),
{
    if steps[0] == step {
        0
    } else {
        let k = steps.index_of(step);
        assert(steps.skip(1)[k - 1] == step);
        let i = lemma_first_index(steps.skip(1), step);
        assert(steps.skip(1)[i] == steps[i + 1]);
        assert forall|j: int| 0 <= j < i + 1 implies #[trigger] steps[j] != step by {
            if j > 0 {
                assert(steps.skip(1)[j - 1] == steps[j]);
            }
        }
        i + 1
    }
}

/// Whether, of the steps of `path[0]`, step `i` goes on along `path`, to `path[m]`, the target is
/// elsewhere in every step before it, and what is evaluated before the next node of `path` is.
spec fn leads_on(steps: Seq<StepModel>, path: Seq<Node>, i: int, m: int) -> bool {
    &&& 0 <= i < steps.len()
    &&& 0 < m < path.len()
    &&& steps[i] == StepModel::Eval(path[m])
    &&& height(path[m]) < height(path[0])
    &&& forall|j: int|
        0 <= j < i ==> is_step_elsewhere(
            #[trigger] steps[j],
            path[0],
            path.last().id,
            path.last().range,
        )
    &&& forall|k: int, sibling: Node|
        0 <= k < m && #[trigger] is_evaluated_first(path[k], sibling, path[k + 1]) ==> height(
            sibling,
        ) < height(path[0]) && exists|j: int|
            0 <= j < i && #[trigger] steps[j] == StepModel::Eval(sibling)
}

proof fn lemma_children_differ(node: Node)
    requires
        are_ids_apart(node),
    ensures
        forall|i: int, j: int|
            0 <= i < j < node.children@.len() ==> #[trigger] node.children@[i]
                != #[trigger] node.children@[j],
{
    assert forall|i: int, j: int| 0 <= i < j < node.children@.len() implies #[trigger] node.children@[i]
        != #[trigger] node.children@[j] by {
        let child = node.children@[i];
        let path = seq![child];
        assert(is_path(path));
        assert(path.last().id == child.id);
        assert(holds_id(node.children@[i], child.id));
        if node.children@[j] == child {
            assert(holds_id(node.children@[j], child.id));
        }
    }
}

proof fn lemma_filling_differ(nodes: Seq<Node>, field: Field)
    requires
        forall|i: int, j: int|
            0 <= i < j < nodes.len() ==> #[trigger] nodes[i] != #[trigger] nodes[j],
    ensures
        forall|i: int, j: int|
            0 <= i < j < all_filling(nodes, field).len() ==> #[trigger] all_filling(nodes, field)[i]
                != #[trigger] all_filling(nodes, field)[j],
    decreases nodes.len(),
{
    if nodes.len() > 0 {
        let rest = nodes.drop_last();
        assert forall|i: int, j: int| 0 <= i < j < rest.len() implies #[trigger] rest[i]
            != #[trigger] rest[j] by {
            assert(rest[i] == nodes[i] && rest[j] == nodes[j]);
        }
        lemma_filling_differ(rest, field);
        let before = all_filling(rest, field);
        let all = all_filling(nodes, field);
        assert forall|i: int, j: int| 0 <= i < j < all.len() implies #[trigger] all[i]
            != #[trigger] all[j] by {
            if j < before.len() {
                assert(all[i] == before[i] && all[j] == before[j]);
            } else {
                let k = lemma_all_filling_in(rest, field, i);
                assert(rest[k] == nodes[k]);
            }
        }
    }
}

proof fn lemma_each_leads_on(nodes: Seq<Node>, path: Seq<Node>, at: int)
    requires
        can_be_looked_for(path),
        path.len() > 1,
        0 <= at < nodes.len(),
        nodes[at] == path[1],
        forall|j: int|
            0 <= j < nodes.len() ==> path[0].children@.contains(#[trigger] nodes[j]) && height(
                nodes[j],
            ) < height(path[0]),
        forall|i: int, j: int|
            0 <= i < j < nodes.len() ==> #[trigger] nodes[i] != #[trigger] nodes[j],
        forall|sibling: Node| #[trigger]
            is_evaluated_first(path[0], sibling, path[1]) ==> comes_before(nodes, sibling, path[1]),
    ensures
        leads_on(eval_each(nodes), path, at, 1),
{
    let steps = eval_each(nodes);
    assert forall|j: int| 0 <= j < at implies is_step_elsewhere(
        #[trigger] steps[j],
        path[0],
        path.last().id,
        path.last().range,
    ) by {
        assert(nodes[j] != nodes[at]);
        lemma_sibling_elsewhere(path, nodes[j]);
    }
    assert forall|k: int, sibling: Node|
        0 <= k < 1 && #[trigger] is_evaluated_first(path[k], sibling, path[k + 1]) implies height(
        sibling,
    ) < height(path[0]) && exists|j: int|
        0 <= j < at && #[trigger] steps[j] == StepModel::Eval(sibling) by {
        let (i, j) = choose|i: int, j: int|
            0 <= i < j < nodes.len() && #[trigger] nodes[i] == sibling && #[trigger] nodes[j]
                == path[1];
        assert(j == at) by {
            if j < at {
                assert(nodes[j] != nodes[at]);
            } else if at < j {
                assert(nodes[at] != nodes[j]);
            }
        }
        assert(steps[i] == StepModel::Eval(sibling));
    }
}

/// How an expression's steps go on along a path through a part of it that is always evaluated.
#[verifier::spinoff_prover]
#[verifier::rlimit(60)]
proof fn lemma_expr_leads_on(path: Seq<Node>) -> (found: (int, int))
    requires
        can_be_looked_for(path),
        path.len() > 1,
        is_always_evaluated(path[0], path[1]),
        path[0].kind.spec_is_expression(),
        !(path[0].kind is ExprCall && path[1].field == Field::Arguments),
        path[0].kind is ExprListComp || path[0].kind is ExprSetComp || path[0].kind is ExprDictComp
            || path[0].kind is ExprGenerator ==> path.len() > 2 && child_of(path[1], Field::Iter)
            == Some(path[2]),
    ensures
        leads_on(expr_steps(path[0]), path, found.0, found.1),
        found.1 == 1 || found.1 == 2 && path[1].kind is Comprehension,
{
    broadcast use lemma_filling_field;

    let expr = path[0];
    let steps = expr_steps(expr);
    lemma_looked_for_rest(path);
    lemma_children_differ(expr);
    let at = expr.children@.index_of(path[1]);
    lemma_height_child(expr, at);
    match expr.kind {
        NodeKind::ExprDict | NodeKind::ExprSlice => {
            assert forall|j: int| 0 <= j < expr.children@.len() implies height(
                #[trigger] expr.children@[j],
            ) < height(expr) by {
                lemma_height_child(expr, j);
            }
            lemma_each_leads_on(expr.children@, path, at);
            (at, 1)
        },
        NodeKind::ExprSet | NodeKind::ExprList { .. } | NodeKind::ExprTuple { .. } => {
            let j = lemma_is_filling(expr.children@, Field::Elt, at);
            let elements = children_of(expr, Field::Elt);
            lemma_filling_differ(expr.children@, Field::Elt);
            assert forall|k: int| 0 <= k < elements.len() implies expr.children@.contains(
                #[trigger] elements[k],
            ) && height(elements[k]) < height(expr) by {
                let i = lemma_all_filling_in(expr.children@, Field::Elt, k);
                lemma_height_child(expr, i);
            }
            lemma_each_leads_on(elements, path, j);
            (j, 1)
        },
        NodeKind::ExprBoolOp => {
            lemma_first_of_all(expr.children@, Field::Value);
            assert(children_of(expr, Field::Value).len() > 0) by {
                let i = lemma_first_filling_in(expr.children@, Field::Value);
                let j = lemma_is_filling(expr.children@, Field::Value, i);
            }
            assert(steps[0] == StepModel::Eval(path[1]));
            (0, 1)
        },
        NodeKind::ExprListComp
        | NodeKind::ExprSetComp
        | NodeKind::ExprDictComp
        | NodeKind::ExprGenerator { .. } => {
            let k = path[1].children@.index_of(path[2]);
            let i = lemma_first_filling_in(path[1].children@, Field::Iter);
            lemma_height_child(path[1], i);
            assert(steps[0] == StepModel::Eval(path[2]));
            (0, 2)
        },
        NodeKind::ExprCompare => {
            lemma_first_of_all(expr.children@, Field::Comparator);
            if child_of(expr, Field::Left) == Some(path[1]) {
                assert(steps[0] == StepModel::Eval(path[1]));
                (0, 1)
            } else {
                assert(children_of(expr, Field::Comparator).len() > 0) by {
                    let i = lemma_first_filling_in(expr.children@, Field::Comparator);
                    let j = lemma_is_filling(expr.children@, Field::Comparator, i);
                }
                lemma_after_first(expr, Field::Left, path);
                let rest = compare_steps(children_of(expr, Field::Comparator));
                assert(rest[0] == StepModel::Eval(path[1]));
                if child_of(expr, Field::Left) is Some {
                    assert(steps[1] == rest[0]);
                    (1, 1)
                } else {
                    assert(steps[0] == rest[0]);
                    (0, 1)
                }
            }
        },
        NodeKind::ExprBinOp { op } => {
            if child_of(expr, Field::Left) == Some(path[1]) {
                assert(steps[0] == StepModel::Eval(path[1]));
                (0, 1)
            } else {
                lemma_after_first(expr, Field::Left, path);
                if child_of(expr, Field::Left) is Some {
                    assert(steps[1] == StepModel::Eval(path[1]));
                    (1, 1)
                } else {
                    assert(steps[0] == StepModel::Eval(path[1]));
                    (0, 1)
                }
            }
        },
        NodeKind::ExprSubscript { .. } => {
            if child_of(expr, Field::Value) == Some(path[1]) {
                assert(steps[0] == StepModel::Eval(path[1]));
                (0, 1)
            } else {
                lemma_after_first(expr, Field::Value, path);
                if child_of(expr, Field::Value) is Some {
                    assert(steps[1] == StepModel::Eval(path[1]));
                    (1, 1)
                } else {
                    assert(steps[0] == StepModel::Eval(path[1]));
                    (0, 1)
                }
            }
        },
        _ => {
            assert(steps[0] == StepModel::Eval(path[1]));
            (0, 1)
        },
    }
}

/// What fills a field the path does not go through is elsewhere.
proof fn lemma_after_first(node: Node, field: Field, path: Seq<Node>)
    requires
        can_be_looked_for(path),
        path.len() > 1,
        path[0] == node,
        child_of(node, field) != Some(path[1]),
    ensures
        child_of(node, field) matches Some(child) ==> height(child) < height(node)
            && is_elsewhere(child, path.last().id, path.last().range),
{
    if let Some(child) = child_of(node, field) {
        let i = lemma_first_filling_in(node.children@, field);
        lemma_height_child(node, i);
        lemma_sibling_elsewhere(path, child);
    }
}

/// Whether `child` is of the kind that fills its place in `parent`.
pub open spec fn is_of_its_kind(parent: Node, child: Node) -> bool {
    if parent.kind is ExprCall && child.field == Field::Arguments {
        child.kind is Arguments
    } else {
        match parent.kind {
            NodeKind::Arguments => child.kind is Keyword || child.kind.spec_is_expression(),
            NodeKind::ExprListComp
            | NodeKind::ExprSetComp
            | NodeKind::ExprDictComp
            | NodeKind::ExprGenerator { .. } => child.kind is Comprehension,
            _ => child.kind.spec_is_expression(),
        }
    }
}

pub open spec fn is_always_link(path: Seq<Node>, k: int) -> bool {
    is_always_evaluated(path[k], path[k + 1]) && is_of_its_kind(path[k], path[k + 1])
}

/// Whether `path` only goes into parts that are always evaluated, down to the expression that is
/// `path[n]`.
pub open spec fn is_always_upto(path: Seq<Node>, n: int) -> bool {
    &&& is_path(path)
    &&& 0 <= n < path.len()
    &&& path[n].kind.spec_is_expression()
    &&& forall|k: int| 0 <= k < n ==> #[trigger] is_always_link(path, k)
}

proof fn lemma_always_rest(path: Seq<Node>, n: int)
    requires
        is_always_upto(path, n),
        n > 0,
    ensures
        is_always_upto(path.skip(1), n - 1),
        path.skip(1)[0] == path[1],
        path.skip(1).last() == path.last(),
        is_always_evaluated(path[0], path[1]),
        is_of_its_kind(path[0], path[1]),
{
    lemma_path_rest(path);
    assert(is_always_link(path, 0));
    let rest = path.skip(1);
    assert(rest[n - 1] == path[n]);
    assert forall|k: int| 0 <= k < n - 1 implies #[trigger] is_always_link(rest, k) by {
        assert(is_always_link(path, k + 1));
        assert(rest[k] == path[k + 1]);
        assert(rest[k + 1] == path[k + 2]);
    }
}

/// Whether one of the first `a` of `arguments` passes `value`.
spec fn is_passed_before(arguments: Seq<Node>, a: int, value: Node) -> bool {
    exists|b: int| 0 <= b < a && is_what_is_passed(#[trigger] arguments[b], value)
}

/// Where what an argument passes is among what all of them do.
proof fn lemma_passed_at(arguments: Seq<Node>, a: int, value: Node) -> (v: int)
    requires
        0 <= a < arguments.len(),
        is_what_is_passed(arguments[a], value),
    ensures
        0 <= v < passed_values(arguments).len(),
        passed_values(arguments)[v] == value,
        forall|w: int|
            0 <= w < v ==> is_passed_before(arguments, a, #[trigger] passed_values(arguments)[w]),
        forall|b: int, other: Node|
            0 <= b < a && #[trigger] is_what_is_passed(arguments[b], other) ==> exists|w: int|
                0 <= w < v && #[trigger] passed_values(arguments)[w] == other,
    decreases arguments.len(),
{
    let rest = arguments.drop_last();
    let before = passed_values(rest);
    let all = passed_values(arguments);
    if a < arguments.len() - 1 {
        assert(rest[a] == arguments[a]);
        let v = lemma_passed_at(rest, a, value);
        assert(all[v] == before[v]);
        assert forall|w: int| 0 <= w < v implies is_passed_before(
            arguments,
            a,
            #[trigger] all[w],
        ) by {
            assert(all[w] == before[w]);
            assert(is_passed_before(rest, a, before[w]));
            let b = choose|b: int|
                0 <= b < a && is_what_is_passed(#[trigger] rest[b], before[w]);
            assert(arguments[b] == rest[b]);
        }
        assert forall|b: int, other: Node|
            0 <= b < a && #[trigger] is_what_is_passed(arguments[b], other) implies exists|w: int|
            0 <= w < v && #[trigger] all[w] == other by {
            assert(rest[b] == arguments[b]);
            assert(is_what_is_passed(rest[b], other));
            let w = choose|w: int| 0 <= w < v && #[trigger] before[w] == other;
            assert(all[w] == other);
        }
        v
    } else {
        let v = before.len() as int;
        assert(all[v] == value);
        assert forall|w: int| 0 <= w < v implies is_passed_before(
            arguments,
            a,
            #[trigger] all[w],
        ) by {
            assert(all[w] == before[w]);
            let b = lemma_passed_by(rest, w);
            assert(arguments[b] == rest[b]);
        }
        assert forall|b: int, other: Node|
            0 <= b < a && #[trigger] is_what_is_passed(arguments[b], other) implies exists|w: int|
            0 <= w < v && #[trigger] all[w] == other by {
            assert(rest[b] == arguments[b]);
            let w = lemma_passed_at(rest, b, other);
            assert(all[w] == before[w]);
        }
        v
    }
}

/// What is passed is passed by one of the arguments.
proof fn lemma_passed_by(arguments: Seq<Node>, w: int) -> (b: int)
    requires
        0 <= w < passed_values(arguments).len(),
    ensures
        0 <= b < arguments.len(),
        is_what_is_passed(arguments[b], passed_values(arguments)[w]),
    decreases arguments.len(),
{
    let before = passed_values(arguments.drop_last());
    if w < before.len() {
        let b = lemma_passed_by(arguments.drop_last(), w);
        assert(arguments.drop_last()[b] == arguments[b]);
        assert(passed_values(arguments)[w] == before[w]);
        b
    } else {
        arguments.len() - 1
    }
}

/// How a call's steps go on along a path through one of its arguments.
#[verifier::spinoff_prover]
#[verifier::rlimit(60)]
proof fn lemma_call_leads_on(path: Seq<Node>, n: int) -> (found: (int, int))
    requires
        can_be_looked_for(path),
        is_always_upto(path, n),
        n > 0,
        path[0].kind is ExprCall,
        path[1].field == Field::Arguments,
    ensures
        leads_on(expr_steps(path[0]), path, found.0, found.1),
        found.1 <= n,
        path[found.1].kind.spec_is_expression(),
{
    broadcast use lemma_filling_field;

    let call = path[0];
    let steps = expr_steps(call);
    lemma_looked_for_rest(path);
    lemma_always_rest(path, n);
    let arguments = path[1];
    let at = call.children@.index_of(arguments);
    lemma_height_child(call, at);
    assert(child_of(call, Field::Arguments) == Some(arguments));
    let rest = path.skip(1);
    assert(n > 1);
    lemma_looked_for_rest(rest);
    lemma_always_rest(rest, n - 1);
    assert(path[2] == rest[1]);
    let argument = path[2];
    let a = arguments.children@.index_of(argument);
    lemma_height_child(arguments, a);
    let last = rest.skip(1);
    if argument.kind is Keyword {
        assert(n > 2);
        lemma_looked_for_rest(last);
        lemma_always_rest(last, n - 2);
        assert(path[3] == last[1]);
        let i = lemma_first_filling_in(argument.children@, Field::Value);
        lemma_height_child(argument, i);
    }
    let m: int = if argument.kind is Keyword {
        3
    } else {
        2
    };
    let value = path[m];
    assert(is_what_is_passed(argument, value));
    let v = lemma_passed_at(arguments.children@, a, value);
    let values = call_values(call);
    let func = child_of(call, Field::Func);
    let first: int = if func is Some {
        1
    } else {
        0
    };
    let i = first + v;
    assert(steps[i] == StepModel::Eval(value)) by {
        assert(eval_each(values)[v] == StepModel::Eval(value));
    }
    lemma_after_first(call, Field::Func, path);
    lemma_children_differ(arguments);
    assert forall|j: int| 0 <= j < i implies is_step_elsewhere(
        #[trigger] steps[j],
        call,
        path.last().id,
        path.last().range,
    ) by {
        if j < first {
            assert(steps[0] == StepModel::Eval(func->0));
        } else {
            let w = j - first;
            assert(steps[j] == eval_each(values)[w]);
            assert(values[w] == passed_values(arguments.children@)[w]);
            assert(is_passed_before(
                arguments.children@,
                a,
                passed_values(arguments.children@)[w],
            ));
            let b = choose|b: int|
                0 <= b < a && is_what_is_passed(
                    #[trigger] arguments.children@[b],
                    passed_values(arguments.children@)[w],
                );
            let other = arguments.children@[b];
            assert(other != arguments.children@[a]);
            lemma_sibling_elsewhere(rest, other);
            if other.kind is Keyword {
                let k = lemma_first_filling_in(other.children@, Field::Value);
                lemma_child_elsewhere(other, values[w], path.last().id, path.last().range);
            }
        }
    }
    assert forall|k: int, sibling: Node|
        0 <= k < m && #[trigger] is_evaluated_first(path[k], sibling, path[k + 1]) implies height(
        sibling,
    ) < height(call) && exists|j: int|
        0 <= j < i && #[trigger] steps[j] == StepModel::Eval(sibling) by {
        if k == 0 {
            assert(func == Some(sibling));
            lemma_height_child_of(call, Field::Func);
            assert(steps[0] == StepModel::Eval(sibling));
        } else if k == 1 {
            let earlier = choose|earlier: Node|
                #[trigger] comes_before(arguments.children@, earlier, argument)
                    && is_what_is_passed(earlier, sibling);
            let (b, c) = choose|b: int, c: int|
                0 <= b < c < arguments.children@.len() && #[trigger] arguments.children@[b]
                    == earlier && #[trigger] arguments.children@[c] == argument;
            assert(c == a) by {
                if c < a {
                    assert(arguments.children@[c] != arguments.children@[a]);
                } else if a < c {
                    assert(arguments.children@[a] != arguments.children@[c]);
                }
            }
            assert(is_what_is_passed(arguments.children@[b], sibling));
            let w = choose|w: int|
                0 <= w < v && #[trigger] passed_values(arguments.children@)[w] == sibling;
            assert(values[w] == sibling);
            assert(steps[first + w] == eval_each(values)[w]);
            lemma_call_values_height(call, w);
        } else {
            assert(path[2].kind is Keyword);
        }
    }
    (i, m)
}

/// How a statement's steps go on along a path through a part of it that is always evaluated.
#[verifier::spinoff_prover]
#[verifier::rlimit(60)]
proof fn lemma_stmt_leads_on(path: Seq<Node>) -> (i: int)
    requires
        can_be_looked_for(path),
        path.len() > 1,
        is_always_link(path, 0),
        !path[0].kind.spec_is_expression(),
        !(path[0].kind is Arguments) && !(path[0].kind is Keyword) && !(path[0].kind
            is Comprehension),
    ensures
        leads_on(stmt_steps(path[0]), path, i, 1),
{
    broadcast use lemma_filling_field;

    let stmt = path[0];
    let steps = stmt_steps(stmt);
    lemma_looked_for_rest(path);
    let at = stmt.children@.index_of(path[1]);
    lemma_height_child(stmt, at);
    match stmt.kind {
        NodeKind::StmtAugAssign => {
            lemma_after_first(stmt, Field::Target, path);
            match child_of(stmt, Field::Target) {
                Some(target) => {
                    if target.kind is ExprName {
                        assert(steps[0] == StepModel::Eval(path[1]));
                        0
                    } else {
                        assert(steps[0] == StepModel::Store(target));
                        assert(steps[1] is Effect);
                        assert(steps[2] == StepModel::Eval(path[1]));
                        2
                    }
                },
                None => {
                    assert(steps[0] is Effect);
                    assert(steps[1] == StepModel::Eval(path[1]));
                    1
                },
            }
        },
        NodeKind::StmtAnnAssign { .. } => {
            lemma_after_first(stmt, Field::Annotation, path);
            match child_of(stmt, Field::Annotation) {
                Some(annotation) => {
                    assert(steps[0] == StepModel::Within(annotation.range, NotOnce::Annotation));
                    assert(steps[1] == StepModel::Eval(path[1]));
                    1
                },
                None => {
                    assert(steps[0] == StepModel::Eval(path[1]));
                    0
                },
            }
        },
        NodeKind::StmtRaise => {
            if child_of(stmt, Field::Exc) == Some(path[1]) {
                assert(steps[0] == StepModel::Eval(path[1]));
                0
            } else {
                lemma_after_first(stmt, Field::Exc, path);
                if child_of(stmt, Field::Exc) is Some {
                    assert(steps[1] == StepModel::Eval(path[1]));
                    1
                } else {
                    assert(steps[0] == StepModel::Eval(path[1]));
                    0
                }
            }
        },
        _ => {
            assert(steps[0] == StepModel::Eval(path[1]));
            0
        },
    }
}

/// What steps that lead on along a path come to, when going on from there comes to the target.
proof fn lemma_ran_along(steps: Seq<StepModel>, path: Seq<Node>, i: int, m: int, effects: bool) -> (
    before: bool)
    requires
        can_be_looked_for(path),
        leads_on(steps, path, i, m),
    ensures
        evaluated(path[m], path.last().id, path.last().range, before).found is Some ==> ran(
            steps,
            height(path[0]),
            path.last().id,
            path.last().range,
            effects,
        ).found == evaluated(path[m], path.last().id, path.last().range, before).found,
        !before ==> !effects && forall|k: int| 0 <= k < m ==> #[trigger] is_first_effect(path, k),
{
    let id = path.last().id;
    let range = path.last().range;
    let below = height(path[0]);
    assert forall|j: int| 0 <= j < i implies is_passed(#[trigger] steps[j], below, id, range) by {
        lemma_step_passed(steps[j], path[0], below, id, range);
    }
    let before = lemma_ran_reaches(steps, below, id, range, effects, i);
    assert(took(steps[i], below, id, range, before) == evaluated(path[m], id, range, before));
    if !before {
        assert forall|k: int| 0 <= k < m implies #[trigger] is_first_effect(path, k) by {
            assert forall|sibling: Node| #[trigger]
                is_evaluated_first(path[k], sibling, path[k + 1]) implies pure(sibling) by {
                let j = choose|j: int|
                    0 <= j < i && #[trigger] steps[j] == StepModel::Eval(sibling);
                lemma_step_passed(steps[j], path[0], below, id, range);
                assert(is_silent(steps[j], below, id, range));
            }
        }
    }
    before
}

proof fn lemma_looked_for_after(path: Seq<Node>, n: int, m: int)
    requires
        can_be_looked_for(path),
        is_always_upto(path, n),
        0 <= m <= n,
    ensures
        can_be_looked_for(path.skip(m)),
        is_always_upto(path.skip(m), n - m),
        path.skip(m)[0] == path[m],
        path.skip(m).last() == path.last(),
        path.skip(m)[n - m] == path[n],
    decreases m,
{
    if m == 0 {
        assert(path.skip(0) =~= path);
    } else {
        lemma_looked_for_rest(path);
        lemma_always_rest(path, n);
        lemma_looked_for_after(path.skip(1), n - 1, m - 1);
        assert(path.skip(1).skip(m - 1) =~= path.skip(m));
    }
}

/// What is found along a path through what is always evaluated is what is found where it leads.
proof fn lemma_evaluated_along(path: Seq<Node>, n: int, effects: bool) -> (before: bool)
    requires
        can_be_looked_for(path),
        is_always_upto(path, n),
        path[0].kind.spec_is_expression(),
    ensures
        evaluated(path[n], path.last().id, path.last().range, before).found is Some ==> evaluated(
            path[0],
            path.last().id,
            path.last().range,
            effects,
        ).found == evaluated(path[n], path.last().id, path.last().range, before).found,
        !before ==> !effects && forall|k: int| 0 <= k < n ==> #[trigger] is_first_effect(path, k),
    decreases n,
{
    if n > 0 {
        lemma_looked_for_rest(path);
        lemma_always_rest(path, n);
        let is_comprehension = path[0].kind is ExprListComp || path[0].kind is ExprSetComp
            || path[0].kind is ExprDictComp || path[0].kind is ExprGenerator;
        if is_comprehension {
            assert(n > 1);
            lemma_always_rest(path.skip(1), n - 1);
            assert(path.skip(1)[1] == path[2]);
        }
        let found = if path[0].kind is ExprCall && path[1].field == Field::Arguments {
            lemma_call_leads_on(path, n)
        } else {
            lemma_expr_leads_on(path)
        };
        let m = found.1;
        lemma_looked_for_after(path, n, m);
        assert(is_always_link(path, m - 1));
        let middle = lemma_ran_along(expr_steps(path[0]), path, found.0, m, effects);
        let before = lemma_evaluated_along(path.skip(m), n - m, middle);
        if !before {
            let rest = path.skip(m);
            assert forall|k: int| 0 <= k < n implies #[trigger] is_first_effect(path, k) by {
                if k >= m {
                    assert(is_first_effect(rest, k - m));
                    assert(rest[k - m] == path[k]);
                    assert(rest[k - m + 1] == path[k + 1]);
                }
            }
        }
        before
    } else {
        effects
    }
}

/// Whether `node` is a statement, as far as going along a path from it is concerned.
pub open spec fn is_start(node: Node) -> bool {
    !node.kind.spec_is_expression() && !(node.kind is Arguments) && !(node.kind is Keyword) && !(
    node.kind is Comprehension)
}

/// What is found along a path through what a statement always evaluates is what is found where it
/// leads.
proof fn lemma_placed_along(path: Seq<Node>, n: int) -> (before: bool)
    requires
        can_be_looked_for(path),
        is_always_upto(path, n),
        n > 0,
        is_start(path[0]),
    ensures
        evaluated(path[n], path.last().id, path.last().range, before).found matches Some(found)
            ==> placement(path[0], path.last().id, path.last().range) == found,
        !before ==> forall|k: int| 0 <= k < n ==> #[trigger] is_first_effect(path, k),
{
    lemma_looked_for_rest(path);
    lemma_always_rest(path, n);
    assert(is_always_link(path, 0));
    let i = lemma_stmt_leads_on(path);
    let middle = lemma_ran_along(stmt_steps(path[0]), path, i, 1, false);
    let rest = path.skip(1);
    let before = lemma_evaluated_along(rest, n - 1, middle);
    assert(rest[n - 1] == path[n]);
    if !before {
        assert forall|k: int| 0 <= k < n implies #[trigger] is_first_effect(path, k) by {
            if k >= 1 {
                assert(is_first_effect(rest, k - 1));
                assert(rest[k - 1] == path[k]);
                assert(rest[k] == path[k + 1]);
            }
        }
    }
    before
}

/// What is always evaluated is placed as evaluated exactly once, and nothing with an effect as
/// evaluated before it only where nothing that is evaluated first, anywhere between the statement
/// and it, has one.
pub proof fn law_what_is_always_evaluated_is_once(path: Seq<Node>)
    requires
        can_be_looked_for(path),
        path.len() > 1,
        is_always_upto(path, path.len() - 1),
        is_start(path[0]),
    ensures
        placement(path[0], path.last().id, path.last().range) is Once,
        placement(path[0], path.last().id, path.last().range) == (Placement::Once {
            effects_before: false,
        }) ==> forall|k: int, sibling: Node|
            0 <= k < path.len() - 1 && #[trigger] is_evaluated_first(path[k], sibling, path[k + 1])
                ==> pure(sibling),
{
    let before = lemma_placed_along(path, path.len() - 1);
    if !before {
        assert forall|k: int, sibling: Node|
            0 <= k < path.len() - 1 && #[trigger] is_evaluated_first(
                path[k],
                sibling,
                path[k + 1],
            ) implies pure(sibling) by {
            assert(is_first_effect(path, k));
        }
    }
}

/// Why `child`, a part of the expression `parent`, is not evaluated exactly once whenever that is,
/// when it is not.
pub open spec fn reason_of(parent: Node, child: Node) -> Option<NotOnce> {
    match parent.kind {
        NodeKind::ExprBoolOp => if child.field == Field::Value && child_of(parent, Field::Value)
            != Some(child) {
            Some(NotOnce::Conditional)
        } else {
            None
        },
        NodeKind::ExprBinOp { op } => if op == Operator::Coalesce && child_of(parent, Field::Right)
            == Some(child) {
            Some(NotOnce::Conditional)
        } else {
            None
        },
        NodeKind::ExprIf => if child_of(parent, Field::Body) == Some(child) || child_of(
            parent,
            Field::Orelse,
        ) == Some(child) {
            Some(NotOnce::Conditional)
        } else {
            None
        },
        NodeKind::ExprCompare => if child.field == Field::Comparator && child_of(
            parent,
            Field::Comparator,
        ) != Some(child) {
            Some(NotOnce::Conditional)
        } else {
            None
        },
        NodeKind::ExprLambda => Some(NotOnce::Deferred),
        NodeKind::ExprListComp
        | NodeKind::ExprSetComp
        | NodeKind::ExprDictComp
        | NodeKind::ExprGenerator { .. } => if child_of(parent, Field::Generator) matches Some(first)
            && first != child {
            Some(NotOnce::Comprehension)
        } else {
            None
        },
        NodeKind::ExprFString { .. } | NodeKind::ExprTString { .. } => Some(NotOnce::Opaque),
        _ => None,
    }
}

/// Steps that are elsewhere, and then one that sets the target apart, say why it is.
proof fn lemma_set_apart(path: Seq<Node>, i: int, reason: NotOnce, effects: bool)
    requires
        can_be_looked_for(path),
        path.len() > 1,
        0 <= i < expr_steps(path[0]).len(),
        forall|j: int|
            0 <= j < i ==> is_step_elsewhere(
                #[trigger] expr_steps(path[0])[j],
                path[0],
                path.last().id,
                path.last().range,
            ),
        match expr_steps(path[0])[i] {
            StepModel::Maybe(node, why) => why == reason && node.range.spec_contains_range(
                path.last().range,
            ),
            StepModel::Within(within, why) => why == reason && within.spec_contains_range(
                path.last().range,
            ),
            _ => false,
        },
    ensures
        evaluated(path[0], path.last().id, path.last().range, effects).found == Some(
            Placement::NotOnce(reason),
        ),
{
    let id = path.last().id;
    let range = path.last().range;
    let steps = expr_steps(path[0]);
    let below = height(path[0]);
    lemma_looked_for_rest(path);
    assert forall|j: int| 0 <= j < i implies is_passed(#[trigger] steps[j], below, id, range) by {
        lemma_step_passed(steps[j], path[0], below, id, range);
    }
    let before = lemma_ran_reaches(steps, below, id, range, effects, i);
}

#[verifier::spinoff_prover]
#[verifier::rlimit(60)]
proof fn lemma_reason_of(path: Seq<Node>, effects: bool)
    requires
        can_be_looked_for(path),
        path.len() > 1,
        reason_of(path[0], path[1]) is Some,
    ensures
        evaluated(path[0], path.last().id, path.last().range, effects).found == Some(
            Placement::NotOnce(reason_of(path[0], path[1])->0),
        ),
{
    broadcast use lemma_filling_field;

    let expr = path[0];
    let steps = expr_steps(expr);
    let id = path.last().id;
    let range = path.last().range;
    let reason = reason_of(expr, path[1])->0;
    lemma_looked_for_rest(path);
    lemma_children_differ(expr);
    let at = expr.children@.index_of(path[1]);
    match expr.kind {
        NodeKind::ExprBoolOp => {
            let values = children_of(expr, Field::Value);
            let i = lemma_is_filling(expr.children@, Field::Value, at);
            lemma_first_of_all(expr.children@, Field::Value);
            lemma_filling_differ(expr.children@, Field::Value);
            assert forall|j: int| 0 <= j < i implies is_step_elsewhere(
                #[trigger] steps[j],
                expr,
                id,
                range,
            ) by {
                let k = lemma_all_filling_in(expr.children@, Field::Value, j);
                assert(values[j] != values[i]);
                lemma_sibling_elsewhere(path, values[j]);
            }
            lemma_set_apart(path, i, reason, effects);
        },
        NodeKind::ExprBinOp { .. } => {
            lemma_after_first(expr, Field::Left, path);
            if child_of(expr, Field::Left) is Some {
                assert(steps[1] == StepModel::Maybe(path[1], reason));
                lemma_set_apart(path, 1, reason, effects);
            } else {
                assert(steps[0] == StepModel::Maybe(path[1], reason));
                lemma_set_apart(path, 0, reason, effects);
            }
        },
        NodeKind::ExprIf => {
            lemma_after_first(expr, Field::Test, path);
            let tested: int = if child_of(expr, Field::Test) is Some {
                1
            } else {
                0
            };
            if child_of(expr, Field::Body) == Some(path[1]) {
                assert(steps[tested] == StepModel::Maybe(path[1], reason));
                lemma_set_apart(path, tested, reason, effects);
            } else {
                lemma_after_first(expr, Field::Body, path);
                if child_of(expr, Field::Body) is Some {
                    assert(steps[tested] == StepModel::Maybe(
                        child_of(expr, Field::Body)->0,
                        reason,
                    ));
                    assert(steps[tested + 1] == StepModel::Maybe(path[1], reason));
                    lemma_set_apart(path, tested + 1, reason, effects);
                } else {
                    assert(steps[tested] == StepModel::Maybe(path[1], reason));
                    lemma_set_apart(path, tested, reason, effects);
                }
            }
        },
        NodeKind::ExprCompare => {
            let values = children_of(expr, Field::Comparator);
            let c = lemma_is_filling(expr.children@, Field::Comparator, at);
            lemma_first_of_all(expr.children@, Field::Comparator);
            lemma_filling_differ(expr.children@, Field::Comparator);
            lemma_after_first(expr, Field::Left, path);
            let left: int = if child_of(expr, Field::Left) is Some {
                1
            } else {
                0
            };
            assert(c > 0);
            let i = left + c + 1;
            let compared = compare_steps(values);
            assert(compared[c + 1] == StepModel::Maybe(path[1], reason));
            assert(steps[i] == compared[c + 1]);
            assert forall|j: int| 0 <= j < i implies is_step_elsewhere(
                #[trigger] steps[j],
                expr,
                id,
                range,
            ) by {
                if j >= left {
                    let m = j - left;
                    assert(steps[j] == compared[m]);
                    if m != 1 {
                        let w = if m == 0 {
                            0
                        } else {
                            m - 1
                        };
                        let k = lemma_all_filling_in(expr.children@, Field::Comparator, w);
                        assert(values[w] != values[c]);
                        lemma_sibling_elsewhere(path, values[w]);
                    }
                }
            }
            lemma_set_apart(path, i, reason, effects);
        },
        NodeKind::ExprListComp
        | NodeKind::ExprSetComp
        | NodeKind::ExprDictComp
        | NodeKind::ExprGenerator { .. } => {
            let first = child_of(expr, Field::Generator)->0;
            lemma_after_first(expr, Field::Generator, path);
            if let Some(iter) = child_of(first, Field::Iter) {
                let k = lemma_first_filling_in(first.children@, Field::Iter);
                lemma_child_elsewhere(first, iter, id, range);
                assert(steps[0] == StepModel::Eval(iter));
                assert(steps[1] == StepModel::Within(expr.range, reason));
                lemma_set_apart(path, 1, reason, effects);
            } else {
                assert(steps[0] == StepModel::Within(expr.range, reason));
                lemma_set_apart(path, 0, reason, effects);
            }
        },
        _ => {
            assert(steps[0] == StepModel::Within(expr.range, reason));
            lemma_set_apart(path, 0, reason, effects);
        },
    }
}

/// What is in a part of an expression that may be skipped, or is evaluated again and again or
/// later, is never placed as evaluated once, however deep in it, and the reason is the one of the
/// first such part on the way to it.
pub proof fn law_what_is_skipped_is_not_once(path: Seq<Node>, n: int)
    requires
        can_be_looked_for(path),
        0 < n < path.len() - 1,
        is_always_upto(path, n),
        is_start(path[0]),
        reason_of(path[n], path[n + 1]) is Some,
    ensures
        placement(path[0], path.last().id, path.last().range) == Placement::NotOnce(
            reason_of(path[n], path[n + 1])->0,
        ),
{
    let before = lemma_placed_along(path, n);
    lemma_looked_for_after(path, n, n);
    let rest = path.skip(n);
    assert(rest[1] == path[n + 1]);
    lemma_reason_of(rest, before);
}

/// Whether `value` is written as one thing that only says what it is: a name that is read, a
/// literal, or a number with a sign.
pub open spec fn is_plain_value(value: Node) -> bool {
    match value.kind {
        NodeKind::ExprName { ctx, .. } => ctx == ExprContext::Load,
        NodeKind::ExprStringLiteral { .. }
        | NodeKind::ExprBytesLiteral { .. }
        | NodeKind::ExprNumberLiteral
        | NodeKind::ExprBooleanLiteral
        | NodeKind::ExprNoneLiteral
        | NodeKind::ExprEllipsisLiteral => true,
        NodeKind::ExprUnaryOp { op } => (op == UnaryOp::USub || op == UnaryOp::UAdd || op
            == UnaryOp::Invert) && (child_of(value, Field::Operand) matches Some(operand)
            && operand.kind is ExprNumberLiteral),
        _ => false,
    }
}

/// What is taken to have no effect, and to be the same wherever it is evaluated, is a plain value
/// or a tuple of such, however deep: nothing that is called, looked into or built anew. Every
/// plain value is.
pub proof fn law_pure_values_are_plain(path: Seq<Node>)
    requires
        is_path(path),
        forall|k: int| 1 <= k < path.len() ==> (#[trigger] path[k]).field == Field::Elt,
        forall|k: int| 0 <= k < path.len() - 1 ==> (#[trigger] path[k]).kind is ExprTuple,
    ensures
        pure(path[0]) ==> is_plain_value(path.last()) || (path.last().kind matches NodeKind::ExprTuple {
            ctx,
            is_special,
            ..
        } && ctx == ExprContext::Load && !is_special),
        is_plain_value(path[0]) ==> pure(path[0]),
    decreases path.len(),
{
    if path.len() > 1 {
        lemma_path_rest(path);
        let rest = path.skip(1);
        assert forall|k: int| 1 <= k < rest.len() implies (#[trigger] rest[k]).field
            == Field::Elt by {
            assert(rest[k] == path[k + 1]);
        }
        assert forall|k: int| 0 <= k < rest.len() - 1 implies (#[trigger] rest[k]).kind
            is ExprTuple by {
            assert(rest[k] == path[k + 1]);
        }
        assert(path[0].kind is ExprTuple);
        assert(path[1].field == Field::Elt);
        let at = path[0].children@.index_of(path[1]);
        let j = lemma_is_filling(path[0].children@, Field::Elt, at);
        assert(children_of(path[0], Field::Elt)[j] == path[1]);
        law_pure_values_are_plain(rest);
    }
}

/// What has had an effect stays so: a target reached after something with an effect is never
/// said to be evaluated before anything has one.
pub proof fn law_effects_stay(expr: Node, id: u32, range: TextRange)
    ensures
        evaluated(expr, id, range, true).effects,
        stored(expr, id, range, true).effects,
        evaluated(expr, id, range, true).found != Some(Placement::Once { effects_before: false }),
        stored(expr, id, range, true).found != Some(Placement::Once { effects_before: false }),
    decreases height(expr), 1int, 0int,
{
    lemma_effects_stay(expr_steps(expr), height(expr), id, range);
    lemma_effects_stay(target_steps(expr), height(expr), id, range);
}

proof fn lemma_effects_stay(steps: Seq<StepModel>, below: nat, id: u32, range: TextRange)
    ensures
        ran(steps, below, id, range, true).effects,
        ran(steps, below, id, range, true).found != Some(
            Placement::Once { effects_before: false },
        ),
    decreases below, 0int, steps.len(),
{
    if steps.len() > 0 {
        match steps[0] {
            StepModel::Eval(node) => {
                if height(node) < below {
                    law_effects_stay(node, id, range);
                }
            },
            StepModel::Store(node) => {
                if height(node) < below {
                    law_effects_stay(node, id, range);
                }
            },
            _ => {},
        }
        lemma_effects_stay(steps.skip(1), below, id, range);
    }
}

} // verus!
