//! basedpython constructs whose meaning depends on where they are written.
//!
//! Most of basedpython reads the same wherever it is moved to, but a few forms
//! are resolved against their surroundings rather than against what they spell:
//! a bare enum member reads its enum off the type expected where it is written,
//! a call fills `context` parameters from the declarations in scope, a name or
//! an attribute can resolve through an implicit receiver, and a trailing lambda
//! block binds names of its own. Moving code that contains one of those can
//! silently change what it means, so the refactorings that move code refuse it.

use crate::edit::text_in;
use crate::lookup::holds;
use crate::node::{
    is_path, lemma_path_is_walked, lemma_walked_path, subtree, walk, ExprContext, Node, NodeKind, Prune,
};
use crate::refactor::context::RefactorContext;
use crate::semantics::CheckerFacts;
use crate::strings::{join3, owned};
use vstd::prelude::*;

verus! {

/// Why moving `node` itself may change what it means.
pub open spec fn hazard_of(checker: CheckerFacts, node: Node) -> Option<Seq<char>> {
    match node.kind {
        NodeKind::ExprName { id, ctx } => if ctx != ExprContext::Load {
            None
        } else if checker.implicit_receiver_names@.contains(node.id) {
            Some("`"@ + id@ + "` resolves through the receiver of an enclosing block"@)
        } else if checker.context_sensitive_names@.contains(node.id) {
            Some("`"@ + id@ + "` is resolved from the type expected where it is written"@)
        } else {
            None
        },
        NodeKind::ExprAttribute { attr, .. } =>
            if checker.implicit_receiver_attributes@.contains(node.id) {
                Some("`."@ + attr@ + "` resolves through an implicit receiver in scope"@)
            } else {
                None
            },
        NodeKind::ExprCall { .. } => if checker.context_filling_calls@.contains(node.id) {
            Some("a call fills `context` parameters from the declarations in scope"@)
        } else {
            None
        },
        NodeKind::ExprStatement => Some("it contains a statement written as an expression"@),
        NodeKind::StmtFunctionDef { is_trailing_lambda, .. } => if is_trailing_lambda {
            Some("it contains a trailing lambda block"@)
        } else {
            None
        },
        _ => None,
    }
}

/// The first hazard among `nodes`.
pub open spec fn first_hazard(checker: CheckerFacts, nodes: Seq<Node>) -> Option<Seq<char>>
    decreases nodes.len(),
{
    if nodes.len() == 0 {
        None
    } else {
        match hazard_of(checker, nodes[0]) {
            Some(reason) => Some(reason),
            None => first_hazard(checker, nodes.skip(1)),
        }
    }
}

/// The first construct in `node` whose meaning depends on where it is written,
/// described for a refusal. Always `None` outside basedpython source.
pub open spec fn context_dependent(context: RefactorContext, node: Node) -> Option<Seq<char>> {
    if context.is_basedpython {
        first_hazard(context.checker, subtree(node))
    } else {
        None
    }
}

fn hazard(checker: &CheckerFacts, node: &Node) -> (reason: Option<String>)
    ensures
        text_in(reason) == hazard_of(*checker, *node),
{
    match &node.kind {
        NodeKind::ExprName { id, ctx } => {
            if *ctx != ExprContext::Load {
                None
            } else if holds(&checker.implicit_receiver_names, node.id) {
                Some(
                    join3(
                        "`",
                        id.as_str(),
                        "` resolves through the receiver of an enclosing block",
                    ),
                )
            } else if holds(&checker.context_sensitive_names, node.id) {
                Some(
                    join3(
                        "`",
                        id.as_str(),
                        "` is resolved from the type expected where it is written",
                    ),
                )
            } else {
                None
            }
        },
        NodeKind::ExprAttribute { attr, .. } => {
            if holds(&checker.implicit_receiver_attributes, node.id) {
                Some(
                    join3("`.", attr.as_str(), "` resolves through an implicit receiver in scope"),
                )
            } else {
                None
            }
        },
        NodeKind::ExprCall { .. } => {
            if holds(&checker.context_filling_calls, node.id) {
                Some(owned("a call fills `context` parameters from the declarations in scope"))
            } else {
                None
            }
        },
        NodeKind::ExprStatement => Some(
            owned("it contains a statement written as an expression"),
        ),
        NodeKind::StmtFunctionDef { is_trailing_lambda, .. } => {
            if *is_trailing_lambda {
                Some(owned("it contains a trailing lambda block"))
            } else {
                None
            }
        },
        _ => None,
    }
}

/// The first construct in `node` whose meaning depends on where it is written,
/// described for a refusal. Always `None` outside basedpython source.
pub fn context_dependent_construct(context: &RefactorContext, node: &Node) -> (reason: Option<
    String,
>)
    ensures
        text_in(reason) == context_dependent(*context, *node),
{
    if !context.is_basedpython {
        return None;
    }
    let nodes = walk(node, Prune::Nothing);
    let ghost all = subtree(*node);
    let mut i: usize = 0;
    assert(all.skip(0) =~= all);
    while i < nodes.len()
        invariant
            i <= nodes.len(),
            nodes@.unref() == all,
            context.is_basedpython,
            all == subtree(*node),
            first_hazard(context.checker, all) == first_hazard(
                context.checker,
                all.skip(i as int),
            ),
        decreases nodes.len() - i,
    {
        assert(*nodes@[i as int] == all[i as int]);
        assert(all.skip(i as int)[0] == all[i as int]);
        assert(all.skip(i as int).skip(1) =~= all.skip(i + 1));
        let reason = hazard(&context.checker, nodes[i]);
        if reason.is_some() {
            return reason;
        }
        i += 1;
    }
    None
}

/// Whether `expr` contains a walrus, which binds a name wherever it is evaluated.
pub open spec fn has_walrus(expr: Node) -> bool {
    exists|i: int| 0 <= i < subtree(expr).len() && (#[trigger] subtree(expr)[i]).kind is ExprNamed
}

/// Whether `expr` contains a walrus, which binds a name wherever it is evaluated.
pub fn contains_named_expression(expr: &Node) -> (contains: bool)
    ensures
        contains == has_walrus(*expr),
{
    let nodes = walk(expr, Prune::Nothing);
    let mut i: usize = 0;
    while i < nodes.len()
        invariant
            i <= nodes.len(),
            nodes@.unref() == subtree(*expr),
            forall|j: int| 0 <= j < i ==> !((#[trigger] subtree(*expr)[j]).kind is ExprNamed),
        decreases nodes.len() - i,
    {
        assert(*nodes@[i as int] == subtree(*expr)[i as int]);
        if matches!(nodes[i].kind, NodeKind::ExprNamed) {
            return true;
        }
        i += 1;
    }
    false
}

/// Whether nothing in `node` is resolved against its surroundings.
pub open spec fn means_the_same_anywhere(context: RefactorContext, node: Node) -> bool {
    context.is_basedpython ==> forall|i: int|
        0 <= i < subtree(node).len() ==> hazard_of(
            context.checker,
            #[trigger] subtree(node)[i],
        ) is None
}

proof fn lemma_no_hazard(checker: CheckerFacts, nodes: Seq<Node>, i: int)
    requires
        first_hazard(checker, nodes) is None,
        0 <= i < nodes.len(),
    ensures
        hazard_of(checker, nodes[i]) is None,
    decreases nodes.len(),
{
    if i > 0 {
        assert(nodes.skip(1)[i - 1] == nodes[i]);
        lemma_no_hazard(checker, nodes.skip(1), i - 1);
    }
}

/// No construct is passed over: what has no first one that depends on where it is written has
/// none at any depth.
pub proof fn law_no_hazard_is_missed(context: RefactorContext, node: Node)
    ensures
        context_dependent(context, node) is None <==> means_the_same_anywhere(context, node),
{
    if context_dependent(context, node) is None && context.is_basedpython {
        assert forall|i: int| 0 <= i < subtree(node).len() implies hazard_of(
            context.checker,
            #[trigger] subtree(node)[i],
        ) is None by {
            lemma_no_hazard(context.checker, subtree(node), i);
        }
    }
    if means_the_same_anywhere(context, node) && context.is_basedpython {
        lemma_free_of_hazards(context.checker, subtree(node));
    }
}

proof fn lemma_free_of_hazards(checker: CheckerFacts, nodes: Seq<Node>)
    requires
        forall|i: int| 0 <= i < nodes.len() ==> hazard_of(checker, #[trigger] nodes[i]) is None,
    ensures
        first_hazard(checker, nodes) is None,
    decreases nodes.len(),
{
    if nodes.len() > 0 {
        assert forall|i: int| 0 <= i < nodes.skip(1).len() implies hazard_of(
            checker,
            #[trigger] nodes.skip(1)[i],
        ) is None by {
            assert(nodes.skip(1)[i] == nodes[i + 1]);
        }
        lemma_free_of_hazards(checker, nodes.skip(1));
    }
}

/// Whether `node` only means what it does where it is written: the checker resolves it through a
/// receiver, the type expected of it or the declarations in scope, or it binds names of its own.
pub open spec fn is_bound_to_its_place(checker: CheckerFacts, node: Node) -> bool {
    match node.kind {
        NodeKind::ExprName { ctx, .. } => ctx == ExprContext::Load && (
        checker.implicit_receiver_names@.contains(node.id)
            || checker.context_sensitive_names@.contains(node.id)),
        NodeKind::ExprAttribute { .. } => checker.implicit_receiver_attributes@.contains(node.id),
        NodeKind::ExprCall { .. } => checker.context_filling_calls@.contains(node.id),
        NodeKind::ExprStatement => true,
        NodeKind::StmtFunctionDef { is_trailing_lambda, .. } => is_trailing_lambda,
        _ => false,
    }
}

/// Code is said to depend on where it is written whenever something in it, however deep, is bound
/// to its place, and to bind a name by `:=` whenever there is one in it.
pub proof fn law_nothing_bound_to_its_place_is_missed(context: RefactorContext, path: Seq<Node>)
    requires
        is_path(path),
    ensures
        context.is_basedpython && is_bound_to_its_place(context.checker, path.last())
            ==> context_dependent(context, path[0]) is Some,
        path.last().kind is ExprNamed ==> has_walrus(path[0]),
{
    let nodes = subtree(path[0]);
    lemma_path_is_walked(path, Prune::Nothing);
    let i = nodes.index_of(path.last());
    if context.is_basedpython && context_dependent(context, path[0]) is None {
        lemma_no_hazard(context.checker, nodes, i);
    }
    if path.last().kind is ExprNamed {
        assert(nodes[i].kind is ExprNamed);
    }
}

/// Code is only said to depend on where it is written in basedpython, and for something in it that
/// is bound to its place.
pub proof fn law_code_depends_on_its_place_for_a_reason(context: RefactorContext, node: Node)
    ensures
        context_dependent(context, node) is Some ==> context.is_basedpython && exists|
            path: Seq<Node>,
        | #[trigger]
            is_path(path) && path[0] == node && is_bound_to_its_place(
                context.checker,
                path.last(),
            ),
        has_walrus(node) ==> exists|path: Seq<Node>| #[trigger]
            is_path(path) && path[0] == node && path.last().kind is ExprNamed,
{
    let nodes = subtree(node);
    if context_dependent(context, node) is Some {
        law_no_hazard_is_missed(context, node);
        let i = choose|i: int|
            0 <= i < nodes.len() && hazard_of(context.checker, #[trigger] nodes[i]) is Some;
        let path = lemma_walked_path(node, Prune::Nothing, nodes[i]);
        assert(is_bound_to_its_place(context.checker, path.last()));
    }
    if has_walrus(node) {
        let i = choose|i: int| 0 <= i < nodes.len() && (#[trigger] nodes[i]).kind is ExprNamed;
        let path = lemma_walked_path(node, Prune::Nothing, nodes[i]);
    }
}

} // verus!
