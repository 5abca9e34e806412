//! Inline Variable: replace every read of a variable with the value it is
//! assigned, and remove the assignment.
//!
//! The reads are the ones the semantic index resolves to the assignment, so a
//! same-named parameter of another function, an attribute, a keyword argument,
//! a string or a comment is never touched. The rewrite is refused unless every
//! read is guaranteed to see that assignment and nothing else, and unless moving
//! the value to each read cannot change when — or how often — it is evaluated.

use crate::edit::{edit_models, replacing, text_in, Edit, EditModel, File};
use crate::lookup::{find, found, lemma_found_in};
use crate::node::{
    child_of, children_of, covering_path, find_with_id, first_around, first_with_id, height,
    is_nested, is_path, lemma_all_filling_in, lemma_first_around, lemma_first_filling_in,
    lemma_first_with_id, lemma_height_child, lemma_height_child_of, lemma_height_children_of,
    lemma_path_is_walked, lemma_path_rest, node_in, path_to, subtree, walk, walk_nodes, walked, walked_all, ExprContext,
    Field, Node, NodeKind, Prune, UnaryOp,
};
use crate::refactor::context::{
    lemma_placed_child_of, lemma_placed_children_of, lemma_placed_walked_all, not_applicable,
    outcome, placed, planned, refused, Plan, PlanModel, Refusal, RefusalModel, RefactorContext,
};
use crate::refactor::evaluation::{
    is_pure, placement, placement_in_statement, pure, NotOnce, Placement,
};
use crate::refactor::extract_variable::{bracketed, is_bracketed};
use crate::refactor::flow::{
    bindings, bindings_among, bindings_of_symbol, lemma_reads_exactly, reaching_definitions,
    reads_exactly, rebound, rebound_from_nested_scope, resolved, resolved_among, resolving_scope,
};
use crate::refactor::hazards::{
    contains_named_expression, context_dependent, context_dependent_construct, has_walrus,
    law_no_hazard_is_missed, means_the_same_anywhere,
};
use crate::refactor::text::{
    ancestors_in, first_suite_containing, lemma_ancestors, lemma_first_suite_containing,
    lemma_innermost_height, lemma_located, lemma_suite_in, located, located_from, located_in,
    owns_lines, removing, statement_ancestors, suite_of, suites_in, InSuite, InSuiteModel,
};
use crate::semantics::{
    DefinitionId, DefinitionKind, ScopeId, ScopeKind, ScopeNode, SemanticIndex, GLOBAL,
};
use crate::source::{
    breaks_line, full_line_end_of, is_span, lemma_line_end, lemma_line_start, line_start_of,
    text_of,
};
use crate::strings::{join2, join3, join5, owned, same_text};
use crate::text_size::{is_before, TextRange};
use vstd::prelude::*;
use vstd::string::StrSliceExecFns;

verus! {

broadcast use {
    lemma_height_child_of,
    lemma_height_children_of,
    lemma_placed_child_of,
    lemma_placed_children_of,
};

/// A `name = value` the refactoring can remove.
#[derive(Debug, Clone, Copy)]
pub struct Assignment<'a> {
    pub statement: &'a Node,
    pub target: &'a Node,
    pub value: &'a Node,
}

/// An [`Assignment`] as a mathematical value.
pub ghost struct AssignmentModel {
    pub statement: Node,
    pub target: Node,
    pub value: Node,
}

impl<'a> View for Assignment<'a> {
    type V = AssignmentModel;

    open spec fn view(&self) -> AssignmentModel {
        AssignmentModel { statement: *self.statement, target: *self.target, value: *self.value }
    }
}

/// Whether a definition of this kind is of a name assigned on its own.
pub open spec fn is_plain_assignment(kind: DefinitionKind) -> bool {
    match kind {
        DefinitionKind::Assignment { is_sole_target, is_unpacked } => is_sole_target
            && !is_unpacked,
        DefinitionKind::AnnotatedAssignment => true,
        _ => false,
    }
}

/// The target and the value of a statement that assigns one value to one target.
pub open spec fn single_assignment(statement: Node) -> Option<(Node, Node)> {
    let target = child_of(statement, Field::Target);
    let value = child_of(statement, Field::Value);
    let fits = match statement.kind {
        NodeKind::StmtAssign => children_of(statement, Field::Target).len() == 1,
        NodeKind::StmtAnnAssign { is_context } => !is_context,
        _ => false,
    };
    if fits && child_of(statement, Field::Decorator) is None {
        match (target, value) {
            (Some(target), Some(value)) => Some((target, value)),
            _ => None,
        }
    } else {
        None
    }
}

/// The assignment `definition` is made by, when the refactoring can remove it.
pub open spec fn assignment_of(context: RefactorContext, definition: DefinitionId) -> Option<
    AssignmentModel,
> {
    let definition = context.index.definitions@[definition as int];
    let ancestors = ancestors_in(context.spec_suite()->0, definition.target_range);
    if !is_plain_assignment(definition.kind) || context.spec_suite() is None || ancestors.len()
        == 0 {
        None
    } else {
        match single_assignment(ancestors.last()) {
            Some((target, value)) => if target.kind is ExprName && target.range
                == definition.target_range {
                Some(AssignmentModel { statement: ancestors.last(), target, value })
            } else {
                None
            },
            None => None,
        }
    }
}

fn assigns_once<'a>(statement: &'a Node) -> (found: Option<(&'a Node, &'a Node)>)
    ensures
        match found {
            Some((target, value)) => single_assignment(*statement) == Some((*target, *value)),
            None => single_assignment(*statement) is None,
        },
{
    let fits = match &statement.kind {
        NodeKind::StmtAssign => statement.children_filling(Field::Target).len() == 1,
        NodeKind::StmtAnnAssign { is_context } => !*is_context,
        _ => false,
    };
    assert(statement.kind is StmtAssign ==> fits == (children_of(*statement, Field::Target).len()
        == 1));
    if !fits || statement.child(Field::Decorator).is_some() {
        return None;
    }
    match (statement.child(Field::Target), statement.child(Field::Value)) {
        (Some(target), Some(value)) => Some((target, value)),
        _ => None,
    }
}

impl<'a> Assignment<'a> {
    pub fn of(definition: DefinitionId, context: &'a RefactorContext) -> (found: Option<
        Assignment<'a>,
    >)
        requires
            context.wf(),
            definition < context.index.definitions.len(),
        ensures
            match found {
                Some(assignment) => assignment_of(*context, definition) == Some(assignment@)
                    && placed(context.source@, *assignment.statement) && placed(
                    context.source@,
                    *assignment.value,
                ),
                None => assignment_of(*context, definition) is None,
            },
    {
        let definition = &context.index.definitions[definition as usize];
        let plain = match definition.kind {
            DefinitionKind::Assignment { is_sole_target, is_unpacked } => is_sole_target
                && !is_unpacked,
            DefinitionKind::AnnotatedAssignment => true,
            _ => false,
        };
        if !plain {
            return None;
        }
        let suite = match context.suite() {
            Some(suite) => suite,
            None => {
                return None;
            },
        };
        let ancestors = statement_ancestors(suite, definition.target_range);
        let ghost around = ancestors_in(*suite, definition.target_range);
        proof {
            lemma_ancestors(context.source@, *suite, definition.target_range);
        }
        if ancestors.len() == 0 {
            return None;
        }
        let statement = ancestors[ancestors.len() - 1];
        assert(around.last() == *statement);
        assert(placed(context.source@, around[around.len() - 1]));
        match assigns_once(statement) {
            Some((target, value)) => {
                if matches!(target.kind, NodeKind::ExprName { .. }) && target.range
                    == definition.target_range {
                    Some(Assignment { statement, target, value })
                } else {
                    None
                }
            },
            None => None,
        }
    }
}

/// A load of the variable being inlined.
#[derive(Debug, Clone, Copy)]
pub struct Read<'a> {
    pub node: &'a Node,
    pub parent: &'a Node,
    pub scope: ScopeId,
    pub in_annotation: bool,
    pub in_interpolation: bool,
}

/// A [`Read`] as a mathematical value.
pub ghost struct ReadModel {
    pub node: Node,
    pub parent: Node,
    pub scope: ScopeId,
    pub in_annotation: bool,
    pub in_interpolation: bool,
}

impl<'a> View for Read<'a> {
    type V = ReadModel;

    open spec fn view(&self) -> ReadModel {
        ReadModel {
            node: *self.node,
            parent: *self.parent,
            scope: self.scope,
            in_annotation: self.in_annotation,
            in_interpolation: self.in_interpolation,
        }
    }
}

pub open spec fn read_models(reads: Seq<Read<'_>>) -> Seq<ReadModel> {
    reads.map_values(|read: Read<'_>| read@)
}

/// The scope an occurrence of `name` is in, when `node` is one that resolves to `scope`.
pub open spec fn occurrence(
    index: SemanticIndex,
    scope: ScopeId,
    name: Seq<char>,
    node: Node,
    ctx: ExprContext,
) -> Option<ScopeId> {
    match node.kind {
        NodeKind::ExprName { id, ctx: used } => if id@ == name && used == ctx {
            match index.spec_expression_scope(node.id) {
                Some(use_scope) => if resolved(index, use_scope, name) == Some(scope) {
                    Some(use_scope)
                } else {
                    None
                },
                None => None,
            }
        } else {
            None
        },
        _ => None,
    }
}

/// Whether what is under `node` is read as a type.
pub open spec fn opens_annotation(node: Node) -> bool {
    ||| node.field == Field::Annotation || node.field == Field::Returns || node.field
        == Field::Raises
    ||| node.kind is TypeParams || node.kind is StmtTypeAlias
}

/// Whether what is under `node` is written inside an interpolated string.
pub open spec fn opens_interpolation(node: Node) -> bool {
    node.kind is ExprFString || node.kind is ExprTString
}

/// The variable whose reads are looked for.
pub ghost struct Variable {
    pub index: SemanticIndex,
    pub scope: ScopeId,
    pub name: Seq<char>,
}

/// The loads of `variable` in `node`, in source order.
pub open spec fn reads_under(
    variable: Variable,
    node: Node,
    parent: Node,
    in_annotation: bool,
    in_interpolation: bool,
) -> Seq<ReadModel>
    decreases node, 1int,
{
    let in_annotation = in_annotation || opens_annotation(node);
    let in_interpolation = in_interpolation || opens_interpolation(node);
    let own = match occurrence(
        variable.index,
        variable.scope,
        variable.name,
        node,
        ExprContext::Load,
    ) {
        Some(scope) => seq![ReadModel { node, parent, scope, in_annotation, in_interpolation }],
        None => Seq::empty(),
    };
    own + reads_under_all(variable, node.children@, node, in_annotation, in_interpolation)
}

/// The loads of `variable` in `nodes`, which are children of `parent`, in source order.
pub open spec fn reads_under_all(
    variable: Variable,
    nodes: Seq<Node>,
    parent: Node,
    in_annotation: bool,
    in_interpolation: bool,
) -> Seq<ReadModel>
    decreases nodes, 0int,
{
    if nodes.len() == 0 {
        Seq::empty()
    } else {
        reads_under_all(variable, nodes.drop_last(), parent, in_annotation, in_interpolation)
            + reads_under(variable, nodes.last(), parent, in_annotation, in_interpolation)
    }
}

/// The suite `scope` runs, when it is a module's or a function's. A function's decorators,
/// defaults and annotations are evaluated in the scope around it.
pub open spec fn scope_suite(context: RefactorContext, scope: ScopeId) -> Option<Node> {
    match context.index.scopes@[scope as int].node {
        ScopeNode::Module => context.spec_suite(),
        ScopeNode::Function(function) => match first_with_id(
            walked_all(context.module.children@, Prune::Nothing),
            function,
        ) {
            Some(function) => child_of(function, Field::Body),
            None => None,
        },
        ScopeNode::Other => None,
    }
}

/// Whether anything in `suite` removes the `name` of `scope` with `del`.
///
/// A `del` is not a binding, so it is not among a symbol's definitions — but it takes the name
/// away just as surely as a rebinding replaces it, and a read moved past one finds nothing:
///
/// ```python
/// y = 1
/// x = y
/// del y
/// return x   # inlining `x` here would write `return y`, which raises
/// ```
///
/// Any `del` counts, wherever it is written. One before the assignment would already have made
/// the assignment itself fail, so there is no position worth telling apart.
pub open spec fn is_deleted(
    index: SemanticIndex,
    suite: Node,
    scope: ScopeId,
    name: Seq<char>,
) -> bool {
    exists|i: int|
        0 <= i < subtree(suite).len() && occurrence(
            index,
            scope,
            name,
            #[trigger] subtree(suite)[i],
            ExprContext::Del,
        ) is Some
}

fn occurs(index: &SemanticIndex, scope: ScopeId, name: &str, node: &Node, ctx: ExprContext) -> (found:
    Option<ScopeId>)
    requires
        index.wf(),
    ensures
        found == occurrence(*index, scope, name@, *node, ctx),
{
    if let NodeKind::ExprName { id, ctx: used } = &node.kind {
        if *used == ctx && same_text(id.as_str(), name) {
            if let Some(use_scope) = index.expression_scope(node.id) {
                if resolving_scope(index, use_scope, name) == Some(scope) {
                    return Some(use_scope);
                }
            }
        }
    }
    None
}

/// Collects the loads of a variable.
struct ReadCollector<'c> {
    index: &'c SemanticIndex,
    scope: ScopeId,
    name: &'c str,
}

impl<'c> ReadCollector<'c> {
    spec fn model(&self) -> Variable {
        Variable { index: *self.index, scope: self.scope, name: self.name@ }
    }

    fn visit<'a>(
        &self,
        node: &'a Node,
        parent: &'a Node,
        in_annotation: bool,
        in_interpolation: bool,
    ) -> (reads: Vec<Read<'a>>)
        requires
            self.index.wf(),
        ensures
            read_models(reads@) == reads_under(
                self.model(),
                *node,
                *parent,
                in_annotation,
                in_interpolation,
            ),
        decreases node, 1int,
    {
        let in_annotation = in_annotation || node.field == Field::Annotation || node.field
            == Field::Returns || node.field == Field::Raises || matches!(
            node.kind,
            NodeKind::TypeParams
        ) || matches!(node.kind, NodeKind::StmtTypeAlias);
        let in_interpolation = in_interpolation || matches!(
            node.kind,
            NodeKind::ExprFString { .. }
        ) || matches!(node.kind, NodeKind::ExprTString { .. });
        let mut reads: Vec<Read<'a>> = Vec::new();
        assert(read_models(reads@) =~= Seq::empty());
        if let Some(scope) = occurs(self.index, self.scope, self.name, node, ExprContext::Load) {
            let read = Read { node, parent, scope, in_annotation, in_interpolation };
            reads.push(read);
            assert(read_models(reads@) =~= seq![read@]);
        }
        let ghost own = reads@;
        let mut under = self.visit_all(&node.children, node, in_annotation, in_interpolation);
        let ghost nested = under@;
        reads.append(&mut under);
        assert(read_models(reads@) =~= read_models(own) + read_models(nested));
        reads
    }

    fn visit_all<'a>(
        &self,
        nodes: &'a Vec<Node>,
        parent: &'a Node,
        in_annotation: bool,
        in_interpolation: bool,
    ) -> (reads: Vec<Read<'a>>)
        requires
            self.index.wf(),
        ensures
            read_models(reads@) == reads_under_all(
                self.model(),
                nodes@,
                *parent,
                in_annotation,
                in_interpolation,
            ),
        decreases nodes@, 0int,
    {
        let mut reads: Vec<Read<'a>> = Vec::new();
        let mut i: usize = 0;
        assert(read_models(reads@) =~= reads_under_all(
            self.model(),
            nodes@.take(0),
            *parent,
            in_annotation,
            in_interpolation,
        ));
        while i < nodes.len()
            invariant
                i <= nodes.len(),
                self.index.wf(),
                read_models(reads@) == reads_under_all(
                    self.model(),
                    nodes@.take(i as int),
                    *parent,
                    in_annotation,
                    in_interpolation,
                ),
            decreases nodes.len() - i,
        {
            assert(nodes@.take(i + 1).drop_last() =~= nodes@.take(i as int));
            assert(nodes@.take(i + 1).last() == nodes@[i as int]);
            let ghost before = reads@;
            let mut more = self.visit(&nodes[i], parent, in_annotation, in_interpolation);
            let ghost added = more@;
            reads.append(&mut more);
            assert(read_models(reads@) =~= read_models(before) + read_models(added));
            i += 1;
        }
        assert(nodes@.take(i as int) =~= nodes@);
        reads
    }
}

/// The suite `scope` runs, when it is a module's or a function's.
fn suite_of_scope(context: &RefactorContext, scope: ScopeId) -> (suite: Option<&Node>)
    requires
        context.wf(),
        scope < context.index.scopes.len(),
    ensures
        node_in(suite) == scope_suite(*context, scope),
        suite matches Some(suite) ==> placed(context.source@, *suite),
{
    match context.index.scopes[scope as usize].node {
        ScopeNode::Module => context.suite(),
        ScopeNode::Function(function) => {
            let nodes = walk_nodes(&context.module.children, Prune::Nothing);
            let ghost all = walked_all(context.module.children@, Prune::Nothing);
            proof {
                lemma_placed_walked_all(
                    context.source@,
                    context.module.children@,
                    Prune::Nothing,
                );
                lemma_first_with_id(all, function);
            }
            match find_with_id(&nodes, function) {
                Some(function) => {
                    proof {
                        let k = choose|k: int| 0 <= k < all.len() && all[k] == *function;
                        assert(placed(context.source@, all[k]));
                    }
                    function.child(Field::Body)
                },
                None => None,
            }
        },
        ScopeNode::Other => None,
    }
}

/// Whether anything in `suite` removes the `name` of `scope` with `del`.
fn deletes(index: &SemanticIndex, suite: &Node, scope: ScopeId, name: &str) -> (deletes: bool)
    requires
        index.wf(),
    ensures
        deletes == is_deleted(*index, *suite, scope, name@),
{
    let nodes = walk(suite, Prune::Nothing);
    let ghost all = subtree(*suite);
    let mut i: usize = 0;
    while i < nodes.len()
        invariant
            i <= nodes.len(),
            index.wf(),
            nodes@.unref() == all,
            all == subtree(*suite),
            forall|j: int|
                0 <= j < i ==> occurrence(
                    *index,
                    scope,
                    name@,
                    #[trigger] subtree(*suite)[j],
                    ExprContext::Del,
                ) is None,
        decreases nodes.len() - i,
    {
        assert(*nodes@[i as int] == all[i as int]);
        if occurs(index, scope, name, nodes[i], ExprContext::Del).is_some() {
            assert(occurrence(
                *index,
                scope,
                name@,
                subtree(*suite)[i as int],
                ExprContext::Del,
            ) is Some);
            return true;
        }
        i += 1;
    }
    false
}

/// Whether anything in the suite of `scope` removes `name` with `del`. A scope with no suite of
/// statements removes nothing.
pub open spec fn is_deleted_in(context: RefactorContext, scope: ScopeId, name: Seq<char>) -> bool {
    match scope_suite(context, scope) {
        Some(suite) => is_deleted(context.index, suite, scope, name),
        None => false,
    }
}

/// Whether anything in the suite of `scope` removes `name` with `del`.
fn is_deleted_in_scope(context: &RefactorContext, scope: ScopeId, name: &str) -> (deleted: bool)
    requires
        context.wf(),
        scope < context.index.scopes.len(),
    ensures
        deleted == is_deleted_in(*context, scope, name@),
{
    match suite_of_scope(context, scope) {
        Some(suite) => deletes(&context.index, suite, scope, name),
        None => false,
    }
}

/// The name a node is, when it is one.
pub open spec fn name_of(node: Node) -> Seq<char> {
    match node.kind {
        NodeKind::ExprName { id, .. } => id@,
        _ => Seq::empty(),
    }
}

/// What a pure value is inlined from.
pub ghost struct Inlined {
    pub context: RefactorContext,
    pub scope: ScopeId,
    pub assignment: AssignmentModel,
    /// A read of the variable is in a scope nested in the variable's.
    pub has_nested_read: bool,
}

/// Whether a loop around the assignment contains `range`.
pub open spec fn in_loop_with(inlined: Inlined, range: TextRange) -> bool {
    let ancestors = ancestors_in(
        inlined.context.spec_suite()->0,
        inlined.assignment.statement.range,
    );
    exists|i: int|
        0 <= i < ancestors.len() && is_loop_around(#[trigger] ancestors[i], range)
}

pub open spec fn is_loop_around(statement: Node, range: TextRange) -> bool {
    (statement.kind is StmtFor || statement.kind is StmtWhile)
        && statement.range.spec_contains_range(range)
}

/// Whether `binding` may run between the assignment and a read.
pub open spec fn may_run_between(inlined: Inlined, binding: DefinitionId) -> bool {
    let range = inlined.context.index.definitions@[binding as int].full_range;
    range.start >= inlined.assignment.statement.range.start || (in_loop_with(inlined, range)
        && inlined.has_nested_read)
}

pub open spec fn any_runs_between(inlined: Inlined, bindings: Seq<DefinitionId>) -> bool {
    exists|i: int| 0 <= i < bindings.len() && may_run_between(inlined, #[trigger] bindings[i])
}

/// Why the name `node`, read by the value, may not mean at each read of the variable what it
/// meant at the assignment.
pub open spec fn unstable_name(inlined: Inlined, node: Node) -> Option<Seq<char>> {
    let index = inlined.context.index;
    let name = name_of(node);
    let read_scope = match index.spec_expression_scope(node.id) {
        Some(use_scope) => resolved(index, use_scope, name),
        None => None,
    };
    match read_scope {
        // a builtin, or a name nothing binds: nothing in the file rebinds it
        None => None,
        Some(read_scope) => match index.spec_symbol(read_scope, name) {
            None => None,
            Some(symbol) => {
                let found = bindings(index, read_scope, symbol);
                if rebound(index, read_scope, name) {
                    Some("`"@ + name + "` is rebound by a nested function's `global` or `nonlocal`"@)
                } else if is_deleted_in(inlined.context, read_scope, name) {
                    Some(
                        "`"@ + name
                            + "` is deleted with `del`, so a read moved past that would find nothing"@,
                    )
                } else if read_scope != inlined.scope {
                    // the variable's scope reads it from an enclosing one, which may
                    // rebind it at any point relative to this code running
                    if found.len() > 1 {
                        Some("`"@ + name + "` is assigned more than once in an enclosing scope"@)
                    } else {
                        None
                    }
                } else if any_runs_between(inlined, found) {
                    Some(
                        "`"@ + name + "` may be rebound before `"@ + name_of(
                            inlined.assignment.target,
                        ) + "` is read"@,
                    )
                } else {
                    None
                }
            },
        },
    }
}

/// Why the first name among `nodes` that may change its meaning may.
pub open spec fn first_unstable(inlined: Inlined, nodes: Seq<Node>) -> Option<Seq<char>>
    decreases nodes.len(),
{
    if nodes.len() == 0 {
        None
    } else {
        let own = if nodes[0].kind is ExprName {
            unstable_name(inlined, nodes[0])
        } else {
            None
        };
        match own {
            Some(reason) => Some(reason),
            None => first_unstable(inlined, nodes.skip(1)),
        }
    }
}

/// Whether the name `node`, read by the value, is resolved in another scope where `read` is: a
/// nested function or comprehension that binds a name of its own by the same spelling would
/// capture it.
pub open spec fn is_captured_at(index: SemanticIndex, node: Node, read: ReadModel) -> bool {
    index.spec_expression_scope(node.id) matches Some(use_scope)
        && index.spec_expression_scope(read.node.id) matches Some(read_scope)
        && resolved(index, read_scope, name_of(node)) != resolved(index, use_scope, name_of(node))
}

pub open spec fn is_captured(index: SemanticIndex, node: Node, reads: Seq<ReadModel>) -> bool {
    exists|i: int| 0 <= i < reads.len() && is_captured_at(index, node, #[trigger] reads[i])
}

/// Why the first name among `nodes` that would be captured where it is moved to may not be moved.
pub open spec fn first_captured(
    inlined: Inlined,
    nodes: Seq<Node>,
    reads: Seq<ReadModel>,
) -> Option<Seq<char>>
    decreases nodes.len(),
{
    if nodes.len() == 0 {
        None
    } else if nodes[0].kind is ExprName && is_captured(inlined.context.index, nodes[0], reads) {
        Some(
            "`"@ + name_of(nodes[0]) + "` means something else where `"@ + name_of(
                inlined.assignment.target,
            ) + "` is read"@,
        )
    } else {
        first_captured(inlined, nodes.skip(1), reads)
    }
}

pub open spec fn any_nested(reads: Seq<ReadModel>, scope: ScopeId) -> bool {
    exists|i: int| 0 <= i < reads.len() && (#[trigger] reads[i]).scope != scope
}

/// Why a pure value may not be moved to `reads`.
///
/// A pure value reads names, and each read must still see what it saw at the
/// assignment. Every binding of those names in the variable's scope has to come
/// before the assignment and not be revisited by a loop around it; a read in a
/// nested function can run at any later time, so it is only allowed when the
/// assignment runs unconditionally, directly in the variable's scope. And no
/// scope around a read may bind those names anew.
pub open spec fn unstable(
    context: RefactorContext,
    scope: ScopeId,
    assignment: AssignmentModel,
    reads: Seq<ReadModel>,
    in_suite: InSuiteModel,
) -> Option<Seq<char>> {
    let has_nested_read = any_nested(reads, scope);
    let inlined = Inlined { context, scope, assignment, has_nested_read };
    let top_level = scope_suite(context, scope);
    if has_nested_read && top_level is None {
        Some("the variable's scope is not a function or a module"@)
    } else if has_nested_read && in_suite.suite.id != top_level->0.id {
        Some(
            "`"@ + name_of(assignment.target)
                + "` is read by a nested function, and its assignment does not always run"@,
        )
    } else {
        match first_unstable(inlined, subtree(assignment.value)) {
            Some(reason) => Some(reason),
            None => first_captured(inlined, subtree(assignment.value), reads),
        }
    }
}

/// Whether one of `ancestors` is a loop around `range`.
fn any_loop_around(ancestors: &Vec<&Node>, range: TextRange) -> (found: bool)
    ensures
        found == exists|i: int|
            0 <= i < ancestors@.unref().len() && is_loop_around(
                #[trigger] ancestors@.unref()[i],
                range,
            ),
{
    let ghost all = ancestors@.unref();
    let mut i: usize = 0;
    while i < ancestors.len()
        invariant
            i <= ancestors.len(),
            all == ancestors@.unref(),
            forall|j: int| 0 <= j < i ==> !is_loop_around(#[trigger] all[j], range),
        decreases ancestors.len() - i,
    {
        assert(all[i as int] == *ancestors@[i as int]);
        let statement = ancestors[i];
        if (matches!(statement.kind, NodeKind::StmtFor { .. }) || matches!(
            statement.kind,
            NodeKind::StmtWhile
        )) && statement.range.contains_range(range) {
            assert(is_loop_around(all[i as int], range));
            return true;
        }
        i += 1;
    }
    false
}

/// What a pure value is inlined from, in memory.
struct Inlining<'a> {
    context: &'a RefactorContext,
    scope: ScopeId,
    assignment: Assignment<'a>,
    has_nested_read: bool,
    /// The assignment, with the statements around it.
    ancestors: Vec<&'a Node>,
}

impl<'a> Inlining<'a> {
    spec fn model(&self) -> Inlined {
        Inlined {
            context: *self.context,
            scope: self.scope,
            assignment: self.assignment@,
            has_nested_read: self.has_nested_read,
        }
    }

    spec fn wf(&self) -> bool {
        &&& self.context.wf()
        &&& self.scope < self.context.index.scopes.len()
        &&& self.context.spec_suite() is Some
        &&& self.ancestors@.unref() == ancestors_in(
            self.context.spec_suite()->0,
            self.assignment.statement.range,
        )
    }

    fn any_between(&self, found: &Vec<DefinitionId>) -> (between: bool)
        requires
            self.wf(),
            forall|i: int|
                0 <= i < found.len() ==> (#[trigger] found@[i])
                    < self.context.index.definitions.len(),
        ensures
            between == any_runs_between(self.model(), found@),
    {
        let mut i: usize = 0;
        while i < found.len()
            invariant
                i <= found.len(),
                self.wf(),
                forall|j: int|
                    0 <= j < found.len() ==> (#[trigger] found@[j])
                        < self.context.index.definitions.len(),
                forall|j: int| 0 <= j < i ==> !may_run_between(self.model(), #[trigger] found@[j]),
            decreases found.len() - i,
        {
            let range = self.context.index.definitions[found[i] as usize].full_range;
            if range.start >= self.assignment.statement.range.start || (any_loop_around(
                &self.ancestors,
                range,
            ) && self.has_nested_read) {
                assert(may_run_between(self.model(), found@[i as int]));
                return true;
            }
            i += 1;
        }
        false
    }

    fn unstable_name(&self, node: &Node, name: &str) -> (reason: Option<String>)
        requires
            self.wf(),
            node.kind is ExprName,
            name@ == name_of(*node),
            self.assignment.target.kind is ExprName,
        ensures
            text_in(reason) == unstable_name(self.model(), *node),
    {
        let index = &self.context.index;
        let read_scope = match index.expression_scope(node.id) {
            Some(use_scope) => resolving_scope(index, use_scope, name),
            None => None,
        };
        let read_scope = match read_scope {
            Some(read_scope) => read_scope,
            None => {
                return None;
            },
        };
        let symbol = match index.symbol_id(read_scope, name) {
            Some(symbol) => symbol,
            None => {
                return None;
            },
        };
        if rebound_from_nested_scope(index, read_scope, name) {
            return Some(
                join3("`", name, "` is rebound by a nested function's `global` or `nonlocal`"),
            );
        }
        if is_deleted_in_scope(self.context, read_scope, name) {
            return Some(
                join3(
                    "`",
                    name,
                    "` is deleted with `del`, so a read moved past that would find nothing",
                ),
            );
        }
        let found = bindings_of_symbol(index, read_scope, symbol);
        if read_scope != self.scope {
            if found.len() > 1 {
                return Some(
                    join3("`", name, "` is assigned more than once in an enclosing scope"),
                );
            }
            return None;
        }
        if self.any_between(&found) {
            if let NodeKind::ExprName { id, .. } = &self.assignment.target.kind {
                return Some(
                    join5("`", name, "` may be rebound before `", id.as_str(), "` is read"),
                );
            }
        }
        None
    }

    fn captures(&self, node: &Node, name: &str, reads: &Vec<Read<'_>>) -> (captured: bool)
        requires
            self.wf(),
            name@ == name_of(*node),
        ensures
            captured == is_captured(self.context.index, *node, read_models(reads@)),
    {
        let index = &self.context.index;
        let use_scope = match index.expression_scope(node.id) {
            Some(use_scope) => use_scope,
            None => {
                return false;
            },
        };
        let resolved_in = resolving_scope(index, use_scope, name);
        let ghost models = read_models(reads@);
        let mut i: usize = 0;
        while i < reads.len()
            invariant
                i <= reads.len(),
                self.wf(),
                index == self.context.index,
                name@ == name_of(*node),
                index.spec_expression_scope(node.id) == Some(use_scope),
                resolved_in == resolved(*index, use_scope, name@),
                models == read_models(reads@),
                forall|j: int| 0 <= j < i ==> !is_captured_at(*index, *node, #[trigger] models[j]),
            decreases reads.len() - i,
        {
            assert(models[i as int] == reads@[i as int]@);
            if let Some(read_scope) = index.expression_scope(reads[i].node.id) {
                if resolving_scope(index, read_scope, name) != resolved_in {
                    assert(is_captured_at(*index, *node, models[i as int]));
                    return true;
                }
            }
            i += 1;
        }
        false
    }

    fn find_captured(&self, nodes: &Vec<&Node>, reads: &Vec<Read<'_>>) -> (reason: Option<String>)
        requires
            self.wf(),
            self.assignment.target.kind is ExprName,
        ensures
            text_in(reason) == first_captured(
                self.model(),
                nodes@.unref(),
                read_models(reads@),
            ),
    {
        let ghost all = nodes@.unref();
        let mut i: usize = 0;
        assert(all.skip(0) =~= all);
        while i < nodes.len()
            invariant
                i <= nodes.len(),
                self.wf(),
                self.assignment.target.kind is ExprName,
                all == nodes@.unref(),
                first_captured(self.model(), all, read_models(reads@)) == first_captured(
                    self.model(),
                    all.skip(i as int),
                    read_models(reads@),
                ),
            decreases nodes.len() - i,
        {
            assert(*nodes@[i as int] == all[i as int]);
            assert(all.skip(i as int)[0] == all[i as int]);
            assert(all.skip(i as int).skip(1) =~= all.skip(i + 1));
            if let NodeKind::ExprName { id, .. } = &nodes[i].kind {
                if self.captures(nodes[i], id.as_str(), reads) {
                    if let NodeKind::ExprName { id: target, .. } = &self.assignment.target.kind {
                        return Some(
                            join5(
                                "`",
                                id.as_str(),
                                "` means something else where `",
                                target.as_str(),
                                "` is read",
                            ),
                        );
                    }
                }
            }
            i += 1;
        }
        None
    }
}

/// Why a pure value may not be moved to `reads`.
fn check_pure_value_is_stable(
    context: &RefactorContext,
    scope: ScopeId,
    assignment: Assignment<'_>,
    reads: &Vec<Read<'_>>,
    in_suite: &InSuite<'_>,
) -> (reason: Option<String>)
    requires
        context.wf(),
        scope < context.index.scopes.len(),
        context.spec_suite() is Some,
        assignment.target.kind is ExprName,
    ensures
        text_in(reason) == unstable(
            *context,
            scope,
            assignment@,
            read_models(reads@),
            in_suite@,
        ),
{
    let suite = match context.suite() {
        Some(suite) => suite,
        None => {
            return None;
        },
    };
    let has_nested_read = reads_in_nested_scope(reads, scope);
    if has_nested_read {
        match suite_of_scope(context, scope) {
            Some(top_level) => {
                if in_suite.suite.id != top_level.id {
                    if let NodeKind::ExprName { id, .. } = &assignment.target.kind {
                        return Some(
                            join3(
                                "`",
                                id.as_str(),
                                "` is read by a nested function, and its assignment does not always run",
                            ),
                        );
                    }
                }
            },
            None => {
                return Some(owned("the variable's scope is not a function or a module"));
            },
        }
    }
    let inlining = Inlining {
        context,
        scope,
        assignment,
        has_nested_read,
        ancestors: statement_ancestors(suite, assignment.statement.range),
    };
    let nodes = walk(assignment.value, Prune::Nothing);
    let ghost all = subtree(*assignment.value);
    let mut i: usize = 0;
    assert(all.skip(0) =~= all);
    while i < nodes.len()
        invariant
            i <= nodes.len(),
            inlining.wf(),
            inlining.assignment.target.kind is ExprName,
            nodes@.unref() == all,
            all == subtree(*assignment.value),
            first_unstable(inlining.model(), all) == first_unstable(
                inlining.model(),
                all.skip(i as int),
            ),
            unstable(*context, scope, assignment@, read_models(reads@), in_suite@) == (match first_unstable(
                inlining.model(),
                all,
            ) {
                Some(reason) => Some(reason),
                None => first_captured(inlining.model(), all, read_models(reads@)),
            }),
        decreases nodes.len() - i,
    {
        assert(*nodes@[i as int] == all[i as int]);
        assert(all.skip(i as int)[0] == all[i as int]);
        assert(all.skip(i as int).skip(1) =~= all.skip(i + 1));
        if let NodeKind::ExprName { id, .. } = &nodes[i].kind {
            let reason = inlining.unstable_name(nodes[i], id.as_str());
            if reason.is_some() {
                return reason;
            }
        }
        i += 1;
    }
    inlining.find_captured(&nodes, reads)
}

fn reads_in_nested_scope(reads: &Vec<Read<'_>>, scope: ScopeId) -> (nested: bool)
    ensures
        nested == any_nested(read_models(reads@), scope),
{
    let ghost models = read_models(reads@);
    let mut i: usize = 0;
    while i < reads.len()
        invariant
            i <= reads.len(),
            models == read_models(reads@),
            forall|j: int| 0 <= j < i ==> (#[trigger] models[j]).scope == scope,
        decreases reads.len() - i,
    {
        assert(models[i as int] == reads@[i as int]@);
        if reads[i].scope != scope {
            return true;
        }
        i += 1;
    }
    false
}

/// Why a value with effects may not be moved to `reads`: it is evaluated where it is written,
/// and may move only to a single read, in the statement right after the assignment, with nothing
/// that could observe the difference evaluated before the read.
pub open spec fn not_immediate(
    reads: Seq<ReadModel>,
    scope: ScopeId,
    in_suite: InSuiteModel,
) -> Option<Seq<char>> {
    if reads.len() != 1 {
        Some("its value would be evaluated once for each read, and evaluating it may have effects"@)
    } else if reads[0].scope != scope {
        Some("it is read by a nested function, which would evaluate the value when it runs"@)
    } else {
        match in_suite.next() {
            None => Some("it is not read by the statement right after the assignment"@),
            Some(next) => if !next.range.spec_contains_range(reads[0].node.range) {
                Some(
                    "code runs between the assignment and the read, which would now run before the value is evaluated"@,
                )
            } else {
                match placement(next, reads[0].node.id, reads[0].node.range) {
                    Placement::Once { effects_before: false } => None,
                    Placement::Once { effects_before: true } => Some(
                        "something with effects is evaluated before the read, and would now run before the value"@,
                    ),
                    Placement::NotOnce(reason) => Some(
                        "the read can't take the value's evaluation: "@ + (if reason
                            == NotOnce::Body {
                            "it is inside the body of the next statement"@
                        } else {
                            reason.description()
                        }),
                    ),
                }
            },
        }
    }
}

fn check_single_immediate_read(
    reads: &Vec<Read<'_>>,
    scope: ScopeId,
    in_suite: &InSuite<'_>,
) -> (reason: Option<String>)
    requires
        in_suite@.wf(),
    ensures
        text_in(reason) == not_immediate(read_models(reads@), scope, in_suite@),
{
    if reads.len() != 1 {
        return Some(
            owned(
                "its value would be evaluated once for each read, and evaluating it may have effects",
            ),
        );
    }
    let read = &reads[0];
    assert(read_models(reads@)[0] == reads@[0]@);
    if read.scope != scope {
        return Some(
            owned("it is read by a nested function, which would evaluate the value when it runs"),
        );
    }
    let next = match in_suite.next() {
        Some(next) => next,
        None => {
            return Some(owned("it is not read by the statement right after the assignment"));
        },
    };
    if !next.range.contains_range(read.node.range) {
        return Some(
            owned(
                "code runs between the assignment and the read, which would now run before the value is evaluated",
            ),
        );
    }
    match placement_in_statement(next, read.node) {
        Placement::Once { effects_before } => {
            if effects_before {
                Some(
                    owned(
                        "something with effects is evaluated before the read, and would now run before the value",
                    ),
                )
            } else {
                None
            }
        },
        Placement::NotOnce(reason) => Some(
            join2(
                "the read can't take the value's evaluation: ",
                if reason == NotOnce::Body {
                    "it is inside the body of the next statement"
                } else {
                    reason.describe()
                },
            ),
        ),
    }
}

/// Whether `value` is between brackets of its own, a generator's included.
pub open spec fn is_enclosed(value: Node) -> bool {
    is_bracketed(value) || match value.kind {
        NodeKind::ExprGenerator { parenthesized } => parenthesized,
        _ => false,
    }
}

/// Whether `value` reads the same next to anything.
pub open spec fn is_atomic(value: Node) -> bool {
    match value.kind {
        NodeKind::ExprName { .. }
        | NodeKind::ExprBooleanLiteral
        | NodeKind::ExprNoneLiteral
        | NodeKind::ExprEllipsisLiteral => true,
        NodeKind::ExprCall { is_cast, is_string_tag } => !is_cast && !is_string_tag,
        NodeKind::ExprAttribute { optional, .. } => !optional,
        NodeKind::ExprSubscript { is_special, .. } => !is_special,
        NodeKind::ExprStringLiteral { implicit_concatenated } => !implicit_concatenated,
        NodeKind::ExprBytesLiteral { implicit_concatenated } => !implicit_concatenated,
        NodeKind::ExprFString { implicit_concatenated } => !implicit_concatenated,
        _ => false,
    }
}

/// Whether a read at `range` is a whole expression on its own — a statement's value, an
/// argument, an element — rather than an operand of something that binds.
pub open spec fn is_free(parent: Node, range: TextRange) -> bool {
    match parent.kind {
        NodeKind::StmtExpr
        | NodeKind::StmtReturn
        | NodeKind::StmtAssign
        | NodeKind::StmtAnnAssign { .. }
        | NodeKind::StmtAugAssign
        | NodeKind::StmtIf { .. }
        | NodeKind::ElifElseClause
        | NodeKind::StmtWhile
        | NodeKind::StmtFor { .. }
        | NodeKind::StmtMatch
        | NodeKind::StmtRaise
        | NodeKind::WithItem
        | NodeKind::Keyword
        | NodeKind::Arguments
        | NodeKind::ExprList { .. }
        | NodeKind::ExprSet
        | NodeKind::ExprDict => true,
        NodeKind::ExprTuple { parenthesized, .. } => parenthesized,
        NodeKind::ExprSubscript { .. } => match child_of(parent, Field::Slice) {
            Some(slice) => slice.range == range,
            None => false,
        },
        _ => false,
    }
}

/// Whether `value` binds no tighter than a starred expression does.
pub open spec fn binds_loosely(value: Node) -> bool {
    match value.kind {
        NodeKind::ExprNamed
        | NodeKind::ExprYield
        | NodeKind::ExprYieldFrom
        | NodeKind::ExprStarred
        | NodeKind::ExprIpyEscapeCommand
        | NodeKind::ExprCallableType
        | NodeKind::ExprProtocolType
        | NodeKind::ExprProtocolMethod
        | NodeKind::ExprStatement => true,
        _ => false,
    }
}

/// Whether `value`, written in place of the read at `range`, needs parentheses to keep
/// meaning what it means as the assignment's value.
pub open spec fn wants_parentheses(
    text: Seq<char>,
    value: Node,
    parent: Node,
    range: TextRange,
) -> bool {
    if is_enclosed(value) {
        false
    } else if breaks_line(text, value.range) {
        true
    } else if is_atomic(value) {
        false
    } else if !is_free(parent, range) {
        true
    } else {
        match value.kind {
            NodeKind::ExprTuple { .. } => !(parent.kind is StmtExpr || parent.kind is StmtReturn
                || parent.kind is StmtAssign),
            NodeKind::ExprGenerator { .. } => true,
            _ => binds_loosely(value),
        }
    }
}

fn is_free_position(parent: &Node, range: TextRange) -> (free: bool)
    ensures
        free == is_free(*parent, range),
{
    match &parent.kind {
        NodeKind::StmtExpr
        | NodeKind::StmtReturn
        | NodeKind::StmtAssign
        | NodeKind::StmtAnnAssign { .. }
        | NodeKind::StmtAugAssign
        | NodeKind::StmtIf { .. }
        | NodeKind::ElifElseClause
        | NodeKind::StmtWhile
        | NodeKind::StmtFor { .. }
        | NodeKind::StmtMatch
        | NodeKind::StmtRaise
        | NodeKind::WithItem
        | NodeKind::Keyword
        | NodeKind::Arguments
        | NodeKind::ExprList { .. }
        | NodeKind::ExprSet
        | NodeKind::ExprDict => true,
        NodeKind::ExprTuple { parenthesized, .. } => *parenthesized,
        NodeKind::ExprSubscript { .. } => match parent.child(Field::Slice) {
            Some(slice) => slice.range == range,
            None => false,
        },
        _ => false,
    }
}

fn atomic(value: &Node) -> (atomic: bool)
    ensures
        atomic == is_atomic(*value),
{
    match &value.kind {
        NodeKind::ExprName { .. }
        | NodeKind::ExprBooleanLiteral
        | NodeKind::ExprNoneLiteral
        | NodeKind::ExprEllipsisLiteral => true,
        NodeKind::ExprCall { is_cast, is_string_tag } => !*is_cast && !*is_string_tag,
        NodeKind::ExprAttribute { optional, .. } => !*optional,
        NodeKind::ExprSubscript { is_special, .. } => !*is_special,
        NodeKind::ExprStringLiteral { implicit_concatenated } => !*implicit_concatenated,
        NodeKind::ExprBytesLiteral { implicit_concatenated } => !*implicit_concatenated,
        NodeKind::ExprFString { implicit_concatenated } => !*implicit_concatenated,
        _ => false,
    }
}

/// Whether `value`, written in place of the read at `range`, needs parentheses to keep
/// meaning what it means as the assignment's value.
fn needs_parentheses(
    value: &Node,
    parent: &Node,
    range: TextRange,
    context: &RefactorContext,
) -> (needs: bool)
    requires
        context.wf(),
        is_span(context.source@, value.range),
    ensures
        needs == wants_parentheses(context.source@, *value, *parent, range),
{
    let enclosed = bracketed(value) || match &value.kind {
        NodeKind::ExprGenerator { parenthesized } => *parenthesized,
        _ => false,
    };
    if enclosed {
        return false;
    }
    if context.is_multiline(value.range) {
        return true;
    }
    if atomic(value) {
        return false;
    }
    if !is_free_position(parent, range) {
        return true;
    }
    match &value.kind {
        NodeKind::ExprTuple { .. } => !(matches!(parent.kind, NodeKind::StmtExpr) || matches!(
            parent.kind,
            NodeKind::StmtReturn
        ) || matches!(parent.kind, NodeKind::StmtAssign)),
        NodeKind::ExprGenerator { .. } => true,
        NodeKind::ExprNamed
        | NodeKind::ExprYield
        | NodeKind::ExprYieldFrom
        | NodeKind::ExprStarred
        | NodeKind::ExprIpyEscapeCommand
        | NodeKind::ExprCallableType
        | NodeKind::ExprProtocolType
        | NodeKind::ExprProtocolMethod
        | NodeKind::ExprStatement => true,
        _ => false,
    }
}

/// Whether `text` holds a character an f-string's interpolation may not.
pub open spec fn is_unquotable(text: Seq<char>) -> bool {
    exists|i: int| 0 <= i < text.len() && is_unquotable_char(#[trigger] text[i])
}

pub open spec fn is_unquotable_char(c: char) -> bool {
    c == '"' || c == '\'' || c == '\\' || c == '\n' || c == '\r'
}

fn unquotable(text: &str) -> (unquotable: bool)
    ensures
        unquotable == is_unquotable(text@),
{
    let length = text.unicode_len();
    let mut i: usize = 0;
    while i < length
        invariant
            i <= length,
            length == text@.len(),
            forall|j: int| 0 <= j < i ==> !is_unquotable_char(#[trigger] text@[j]),
        decreases length - i,
    {
        let c = text.get_char(i);
        if c == '"' || c == '\'' || c == '\\' || c == '\n' || c == '\r' {
            assert(is_unquotable_char(text@[i as int]));
            return true;
        }
        i += 1;
    }
    false
}

/// Why the first of `reads` that stands in the way does.
pub open spec fn first_unseen(
    variable: Variable,
    definition: DefinitionId,
    reads: Seq<ReadModel>,
) -> Option<Seq<char>>
    decreases reads.len(),
{
    if reads.len() == 0 {
        None
    } else if reads[0].in_annotation {
        Some(
            "`"@ + variable.name
                + "` is read in an annotation, where its value would be read as a type"@,
        )
    } else if reads[0].scope == variable.scope && !reads_exactly(
        variable.index,
        variable.scope,
        reads[0].node.id,
        definition,
    ) {
        Some("a read of `"@ + variable.name + "` may see another value, or none"@)
    } else {
        first_unseen(variable, definition, reads.skip(1))
    }
}

/// What is written in place of `read`.
pub open spec fn inlined_text(text: Seq<char>, value: Node, read: ReadModel) -> Seq<char> {
    if read.in_interpolation || wants_parentheses(text, value, read.parent, read.node.range) {
        "("@ + text_of(text, value.range) + ")"@
    } else {
        text_of(text, value.range)
    }
}

/// The edits that write the value in place of each of `reads`.
pub open spec fn inlining_edits(text: Seq<char>, value: Node, reads: Seq<ReadModel>) -> Seq<
    EditModel,
> {
    Seq::new(
        reads.len(),
        |i: int| replacing(inlined_text(text, value, reads[i]), reads[i].node.range),
    )
}

pub open spec fn any_interpolated(reads: Seq<ReadModel>) -> bool {
    exists|i: int| 0 <= i < reads.len() && (#[trigger] reads[i]).in_interpolation
}

/// Whether one of `files` is not `file`.
pub open spec fn any_other(files: Seq<File>, file: File) -> bool {
    exists|i: int| 0 <= i < files.len() && #[trigger] files[i] != file
}

/// Whether one of `definitions` is made by an assignment the refactoring can remove.
pub open spec fn any_inlinable(context: RefactorContext, definitions: Seq<DefinitionId>) -> bool {
    exists|i: int|
        0 <= i < definitions.len() && assignment_of(context, #[trigger] definitions[i]) is Some
}

/// The edits that inline the variable of `scope` called `name`, bound by `definition` alone, or
/// why they are another program; `None` when the refactoring is not about it.
pub open spec fn inline_definition(
    context: RefactorContext,
    scope: ScopeId,
    name: Seq<char>,
    symbol: int,
    definition: DefinitionId,
) -> Option<Result<Seq<EditModel>, Seq<char>>> {
    let text = context.source@;
    let index = context.index;
    let flags = index.scopes@[scope as int].symbols@[symbol];
    let variable = Variable { index, scope, name };
    match assignment_of(context, definition) {
        None => None,
        Some(assignment) => {
            let value = assignment.value;
            let located_ = located(context.spec_suite()->0, assignment.statement);
            let kind = index.scopes@[scope as int].kind;
            if kind == ScopeKind::Class {
                Some(
                    Err(
                        "`"@ + name
                            + "` is a class attribute, which can be read through the class and its instances"@,
                    ),
                )
            } else if kind == ScopeKind::Other || flags.is_global || flags.is_nonlocal {
                None
            } else if rebound(index, scope, name) {
                Some(
                    Err(
                        "`"@ + name
                            + "` is rebound by a nested function's `global` or `nonlocal`"@,
                    ),
                )
            } else if located_ is None {
                None
            } else if !owns_lines(text, assignment.statement.range) {
                Some(Err("the assignment shares its line with another statement"@))
            } else if context_dependent(context, value) is Some {
                Some(Err("its value can't be moved: "@ + context_dependent(context, value)->0))
            } else if has_walrus(value) {
                Some(Err("its value binds a name with `:=`"@))
            } else {
                match scope_suite(context, scope) {
                    None => None,
                    Some(suite) => inline_reads(
                        variable,
                        context,
                        definition,
                        assignment,
                        located_->0,
                        suite,
                    ),
                }
            }
        },
    }
}

/// The edits that inline `variable` into its reads in `suite`, or why they are another program.
pub open spec fn inline_reads(
    variable: Variable,
    context: RefactorContext,
    definition: DefinitionId,
    assignment: AssignmentModel,
    in_suite: InSuiteModel,
    suite: Node,
) -> Option<Result<Seq<EditModel>, Seq<char>>> {
    let text = context.source@;
    let name = variable.name;
    let scope = variable.scope;
    let value = assignment.value;
    let reads = reads_under_all(variable, suite.children@, suite, false, false);
    let references = found(context.checker.references@, assignment.target.id);
    if is_deleted(context.index, suite, scope, name) {
        Some(Err("`"@ + name + "` is deleted with `del`"@))
    } else if reads.len() == 0 {
        Some(Err("`"@ + name + "` is never read"@))
    } else if scope == GLOBAL && references is None {
        None
    } else if scope == GLOBAL && any_other(references->0@, context.file) {
        // a module's variable is also an attribute other modules can import
        Some(Err("`"@ + name + "` is imported by another module"@))
    } else if first_unseen(variable, definition, reads) is Some {
        Some(Err(first_unseen(variable, definition, reads)->0))
    } else {
        let obstacle = if pure(value) {
            unstable(context, scope, assignment, reads, in_suite)
        } else {
            not_immediate(reads, scope, in_suite)
        };
        if obstacle is Some {
            Some(Err(obstacle->0))
        } else if any_interpolated(reads) && is_unquotable(text_of(text, value.range)) {
            Some(
                Err(
                    "its value would be written inside an f-string, where its quotes or line breaks may not be allowed"@,
                ),
            )
        } else {
            Some(Ok(inlining_edits(text, value, reads).push(removing(text, in_suite))))
        }
    }
}

/// What inlining the variable called `name`, read or bound in `use_scope`, comes to.
pub open spec fn inline_name(
    context: RefactorContext,
    use_scope: ScopeId,
    name: Seq<char>,
) -> Option<Result<Seq<EditModel>, Seq<char>>> {
    match resolved(context.index, use_scope, name) {
        None => None,
        Some(scope) => match context.index.spec_symbol(scope, name) {
            None => None,
            Some(symbol) => {
                let found = bindings(context.index, scope, symbol);
                if found.len() != 1 {
                    if any_inlinable(context, found) {
                        Some(Err("`"@ + name + "` is assigned more than once"@))
                    } else {
                        None
                    }
                } else {
                    inline_definition(context, scope, name, symbol, found[0])
                }
            },
        },
    }
}

/// What inlining the variable at `range` comes to.
pub open spec fn inline_variable_at(context: RefactorContext, range: TextRange) -> Result<
    PlanModel,
    RefusalModel,
> {
    if !context.module.range.spec_contains_range(range) {
        not_applicable()
    } else {
        let selected = path_to(context.module, range).last();
        match selected.kind {
            NodeKind::ExprName { id, .. } => {
                let title = "Inline variable `"@ + id@ + "`"@;
                match context.index.spec_expression_scope(selected.id) {
                    None => not_applicable(),
                    Some(use_scope) => match inline_name(context, use_scope, id@) {
                        None => not_applicable(),
                        Some(Err(reason)) => refused(title, reason),
                        Some(Ok(edits)) => planned(title, edits),
                    },
                }
            },
            _ => not_applicable(),
        }
    }
}

/// What working out the edits came to, as a mathematical value.
pub open spec fn worked_out(found: Option<Result<Vec<Edit>, String>>) -> Option<
    Result<Seq<EditModel>, Seq<char>>,
> {
    match found {
        None => None,
        Some(Ok(edits)) => Some(Ok(edit_models(edits@))),
        Some(Err(reason)) => Some(Err(reason@)),
    }
}

fn find_unseen(
    index: &SemanticIndex,
    scope: ScopeId,
    name: &str,
    definition: DefinitionId,
    reads: &Vec<Read<'_>>,
) -> (reason: Option<String>)
    requires
        index.wf(),
        scope < index.scopes.len(),
    ensures
        text_in(reason) == first_unseen(
            Variable { index: *index, scope, name: name@ },
            definition,
            read_models(reads@),
        ),
{
    let ghost variable = Variable { index: *index, scope, name: name@ };
    let ghost models = read_models(reads@);
    let mut i: usize = 0;
    assert(models.skip(0) =~= models);
    while i < reads.len()
        invariant
            i <= reads.len(),
            index.wf(),
            scope < index.scopes.len(),
            variable == (Variable { index: *index, scope, name: name@ }),
            models == read_models(reads@),
            first_unseen(variable, definition, models) == first_unseen(
                variable,
                definition,
                models.skip(i as int),
            ),
        decreases reads.len() - i,
    {
        assert(models.skip(i as int)[0] == reads@[i as int]@);
        assert(models.skip(i as int).skip(1) =~= models.skip(i + 1));
        let read = &reads[i];
        if read.in_annotation {
            return Some(
                join3(
                    "`",
                    name,
                    "` is read in an annotation, where its value would be read as a type",
                ),
            );
        }
        if read.scope == scope {
            let reaching = reaching_definitions(index, scope, read.node.id);
            proof {
                lemma_reads_exactly(*index, scope, read.node.id, definition, reaching);
            }
            if !reaching.is_exactly(definition) {
                return Some(join3("a read of `", name, "` may see another value, or none"));
            }
        }
        i += 1;
    }
    None
}

fn reads_in_interpolation(reads: &Vec<Read<'_>>) -> (found: bool)
    ensures
        found == any_interpolated(read_models(reads@)),
{
    let ghost models = read_models(reads@);
    let mut i: usize = 0;
    while i < reads.len()
        invariant
            i <= reads.len(),
            models == read_models(reads@),
            forall|j: int| 0 <= j < i ==> !(#[trigger] models[j]).in_interpolation,
        decreases reads.len() - i,
    {
        assert(models[i as int] == reads@[i as int]@);
        if reads[i].in_interpolation {
            return true;
        }
        i += 1;
    }
    false
}

fn other_file(files: &Vec<File>, file: File) -> (found: bool)
    ensures
        found == any_other(files@, file),
{
    let mut i: usize = 0;
    while i < files.len()
        invariant
            i <= files.len(),
            forall|j: int| 0 <= j < i ==> #[trigger] files@[j] == file,
        decreases files.len() - i,
    {
        if files[i] != file {
            return true;
        }
        i += 1;
    }
    false
}

/// The edits that write `value` in place of each of `reads`.
fn replace_reads(context: &RefactorContext, value: &Node, reads: &Vec<Read<'_>>) -> (edits: Vec<
    Edit,
>)
    requires
        context.wf(),
        is_span(context.source@, value.range),
    ensures
        edit_models(edits@) == inlining_edits(context.source@, *value, read_models(reads@)),
{
    let text = context.expression_text(value);
    let ghost models = read_models(reads@);
    let mut edits: Vec<Edit> = Vec::new();
    let mut i: usize = 0;
    assert(edit_models(edits@) =~= inlining_edits(context.source@, *value, models.take(0)));
    while i < reads.len()
        invariant
            i <= reads.len(),
            context.wf(),
            is_span(context.source@, value.range),
            text@ == text_of(context.source@, value.range),
            models == read_models(reads@),
            edit_models(edits@) == inlining_edits(
                context.source@,
                *value,
                models.take(i as int),
            ),
        decreases reads.len() - i,
    {
        let read = &reads[i];
        assert(models[i as int] == read@);
        let ghost before = edits@;
        let parenthesize = read.in_interpolation || needs_parentheses(
            value,
            read.parent,
            read.node.range,
            context,
        );
        let replacement = if parenthesize {
            join3("(", text, ")")
        } else {
            owned(text)
        };
        let edit = Edit::range_replacement(replacement, read.node.range);
        edits.push(edit);
        assert(edit_models(edits@) =~= edit_models(before).push(edit@));
        assert(edit_models(edits@) =~= inlining_edits(
            context.source@,
            *value,
            models.take(i + 1),
        ));
        i += 1;
    }
    assert(models.take(i as int) =~= models);
    edits
}

fn plan_reads(
    context: &RefactorContext,
    scope: ScopeId,
    name: &str,
    definition: DefinitionId,
    assignment: Assignment<'_>,
    in_suite: InSuite<'_>,
    suite: &Node,
) -> (found: Option<Result<Vec<Edit>, String>>)
    requires
        context.wf(),
        scope < context.index.scopes.len(),
        context.spec_suite() is Some,
        assignment.target.kind is ExprName,
        is_span(context.source@, assignment.value.range),
        in_suite@.wf(),
        is_span(context.source@, in_suite@.statement().range),
    ensures
        worked_out(found) == inline_reads(
            Variable { index: context.index, scope, name: name@ },
            *context,
            definition,
            assignment@,
            in_suite@,
            *suite,
        ),
{
    let index = &context.index;
    if deletes(index, suite, scope, name) {
        return Some(Err(join3("`", name, "` is deleted with `del`")));
    }
    let collector = ReadCollector { index, scope, name };
    let reads = collector.visit_all(&suite.children, suite, false, false);
    let ghost models = read_models(reads@);
    assert(models.len() == reads.len());
    if reads.len() == 0 {
        return Some(Err(join3("`", name, "` is never read")));
    }
    if scope == GLOBAL {
        match find(&context.checker.references, assignment.target.id) {
            Some(files) => {
                if other_file(files, context.file) {
                    return Some(Err(join3("`", name, "` is imported by another module")));
                }
            },
            None => {
                return None;
            },
        }
    }
    if let Some(reason) = find_unseen(index, scope, name, definition, &reads) {
        return Some(Err(reason));
    }
    let obstacle = if is_pure(assignment.value) {
        check_pure_value_is_stable(context, scope, assignment, &reads, &in_suite)
    } else {
        check_single_immediate_read(&reads, scope, &in_suite)
    };
    if let Some(reason) = obstacle {
        return Some(Err(reason));
    }
    if reads_in_interpolation(&reads) && unquotable(context.expression_text(assignment.value)) {
        return Some(
            Err(
                owned(
                    "its value would be written inside an f-string, where its quotes or line breaks may not be allowed",
                ),
            ),
        );
    }
    let mut edits = replace_reads(context, assignment.value, &reads);
    let ghost before = edits@;
    let removal = context.delete_statement(in_suite);
    edits.push(removal);
    assert(edit_models(edits@) =~= edit_models(before).push(removal@));
    Some(Ok(edits))
}

fn plan_definition(
    context: &RefactorContext,
    scope: ScopeId,
    name: &str,
    symbol: usize,
    definition: DefinitionId,
) -> (found: Option<Result<Vec<Edit>, String>>)
    requires
        context.wf(),
        scope < context.index.scopes.len(),
        symbol < context.index.scopes@[scope as int].symbols.len(),
        definition < context.index.definitions.len(),
    ensures
        worked_out(found) == inline_definition(
            *context,
            scope,
            name@,
            symbol as int,
            definition,
        ),
{
    let index = &context.index;
    let assignment = match Assignment::of(definition, context) {
        Some(assignment) => assignment,
        None => {
            return None;
        },
    };
    match index.scopes[scope as usize].kind {
        ScopeKind::Function | ScopeKind::Module => {},
        ScopeKind::Class => {
            return Some(
                Err(
                    join3(
                        "`",
                        name,
                        "` is a class attribute, which can be read through the class and its instances",
                    ),
                ),
            );
        },
        ScopeKind::Other => {
            return None;
        },
    }
    let flags = &index.scopes[scope as usize].symbols[symbol];
    if flags.is_global || flags.is_nonlocal {
        return None;
    }
    if rebound_from_nested_scope(index, scope, name) {
        return Some(
            Err(join3("`", name, "` is rebound by a nested function's `global` or `nonlocal`")),
        );
    }
    let module_suite = match context.suite() {
        Some(suite) => suite,
        None => {
            return None;
        },
    };
    proof {
        lemma_located(context.source@, *module_suite, 0, *assignment.statement);
    }
    let in_suite = match suite_of(module_suite, assignment.statement) {
        Some(in_suite) => in_suite,
        None => {
            return None;
        },
    };
    if !context.owns_its_lines(assignment.statement.range) {
        return Some(Err(owned("the assignment shares its line with another statement")));
    }
    if let Some(reason) = context_dependent_construct(context, assignment.value) {
        return Some(Err(join2("its value can't be moved: ", reason.as_str())));
    }
    if contains_named_expression(assignment.value) {
        return Some(Err(owned("its value binds a name with `:=`")));
    }
    let suite = match suite_of_scope(context, scope) {
        Some(suite) => suite,
        None => {
            return None;
        },
    };
    assert(placed(context.source@, in_suite@.suite.children@[in_suite@.index]));
    plan_reads(context, scope, name, definition, assignment, in_suite, suite)
}

fn one_inlinable(context: &RefactorContext, definitions: &Vec<DefinitionId>) -> (found: bool)
    requires
        context.wf(),
        forall|i: int|
            0 <= i < definitions.len() ==> (#[trigger] definitions@[i])
                < context.index.definitions.len(),
    ensures
        found == any_inlinable(*context, definitions@),
{
    let mut i: usize = 0;
    while i < definitions.len()
        invariant
            i <= definitions.len(),
            context.wf(),
            forall|j: int|
                0 <= j < definitions.len() ==> (#[trigger] definitions@[j])
                    < context.index.definitions.len(),
            forall|j: int|
                0 <= j < i ==> assignment_of(*context, #[trigger] definitions@[j]) is None,
        decreases definitions.len() - i,
    {
        if Assignment::of(definitions[i], context).is_some() {
            assert(assignment_of(*context, definitions@[i as int]) is Some);
            return true;
        }
        i += 1;
    }
    false
}

fn plan_name(context: &RefactorContext, use_scope: ScopeId, name: &str) -> (found: Option<
    Result<Vec<Edit>, String>,
>)
    requires
        context.wf(),
        use_scope < context.index.scopes.len(),
    ensures
        worked_out(found) == inline_name(*context, use_scope, name@),
{
    let index = &context.index;
    let scope = match resolving_scope(index, use_scope, name) {
        Some(scope) => scope,
        None => {
            return None;
        },
    };
    let symbol = match index.symbol_id(scope, name) {
        Some(symbol) => symbol,
        None => {
            return None;
        },
    };
    let found = bindings_of_symbol(index, scope, symbol);
    if found.len() != 1 {
        return if one_inlinable(context, &found) {
            Some(Err(join3("`", name, "` is assigned more than once")))
        } else {
            None
        };
    }
    plan_definition(context, scope, name, symbol, found[0])
}

/// Plans inlining the variable at `range`.
pub fn plan(context: &RefactorContext, range: TextRange) -> (plan: Result<Plan, Refusal>)
    requires
        context.wf(),
    ensures
        outcome(plan) == inline_variable_at(*context, range),
{
    if !context.module.range.contains_range(range) {
        return Err(Refusal::NotApplicable);
    }
    let path = covering_path(&context.module, range);
    let selected = path[path.len() - 1];
    assert(path_to(context.module, range).last() == *selected);
    let name = match &selected.kind {
        NodeKind::ExprName { id, .. } => id.as_str(),
        _ => {
            return Err(Refusal::NotApplicable);
        },
    };
    let title = join3("Inline variable `", name, "`");
    let use_scope = match context.index.expression_scope(selected.id) {
        Some(use_scope) => use_scope,
        None => {
            return Err(Refusal::NotApplicable);
        },
    };
    match plan_name(context, use_scope, name) {
        None => Err(Refusal::NotApplicable),
        Some(Err(reason)) => Err(Refusal::Refused { title, reason }),
        Some(Ok(edits)) => Ok(Plan { title, edits }),
    }
}

/// Every read that is replaced is a load of the variable's name that resolves to its scope: a
/// same-named variable of another scope is never touched.
pub proof fn law_reads_resolve(
    variable: Variable,
    nodes: Seq<Node>,
    parent: Node,
    in_annotation: bool,
    in_interpolation: bool,
)
    ensures
        forall|i: int|
            0 <= i < reads_under_all(
                variable,
                nodes,
                parent,
                in_annotation,
                in_interpolation,
            ).len() ==> occurrence(
                variable.index,
                variable.scope,
                variable.name,
                (#[trigger] reads_under_all(
                    variable,
                    nodes,
                    parent,
                    in_annotation,
                    in_interpolation,
                )[i]).node,
                ExprContext::Load,
            ) is Some,
    decreases nodes, 0int,
{
    if nodes.len() > 0 {
        law_reads_resolve(variable, nodes.drop_last(), parent, in_annotation, in_interpolation);
        lemma_reads_resolve(variable, nodes.last(), parent, in_annotation, in_interpolation);
        let before = reads_under_all(
            variable,
            nodes.drop_last(),
            parent,
            in_annotation,
            in_interpolation,
        );
        let last = reads_under(variable, nodes.last(), parent, in_annotation, in_interpolation);
        let all = reads_under_all(variable, nodes, parent, in_annotation, in_interpolation);
        assert forall|i: int| 0 <= i < all.len() implies occurrence(
            variable.index,
            variable.scope,
            variable.name,
            (#[trigger] all[i]).node,
            ExprContext::Load,
        ) is Some by {
            if i < before.len() {
                assert(all[i] == before[i]);
            } else {
                assert(all[i] == last[i - before.len()]);
            }
        }
    }
}

proof fn lemma_reads_resolve(
    variable: Variable,
    node: Node,
    parent: Node,
    in_annotation: bool,
    in_interpolation: bool,
)
    ensures
        forall|i: int|
            0 <= i < reads_under(
                variable,
                node,
                parent,
                in_annotation,
                in_interpolation,
            ).len() ==> occurrence(
                variable.index,
                variable.scope,
                variable.name,
                (#[trigger] reads_under(
                    variable,
                    node,
                    parent,
                    in_annotation,
                    in_interpolation,
                )[i]).node,
                ExprContext::Load,
            ) is Some,
    decreases node, 1int,
{
    let annotation = in_annotation || opens_annotation(node);
    let interpolation = in_interpolation || opens_interpolation(node);
    law_reads_resolve(variable, node.children@, node, annotation, interpolation);
    let nested = reads_under_all(variable, node.children@, node, annotation, interpolation);
    let all = reads_under(variable, node, parent, in_annotation, in_interpolation);
    assert forall|i: int| 0 <= i < all.len() implies occurrence(
        variable.index,
        variable.scope,
        variable.name,
        (#[trigger] all[i]).node,
        ExprContext::Load,
    ) is Some by {
        let own = all.len() - nested.len();
        if i >= own {
            assert(all[i] == nested[i - own]);
        }
    }
}

/// Inlining a variable writes one edit for each of its reads, and one that removes the
/// assignment.
pub proof fn law_inlining_edits(
    variable: Variable,
    context: RefactorContext,
    definition: DefinitionId,
    assignment: AssignmentModel,
    in_suite: InSuiteModel,
    suite: Node,
)
    requires
        inline_reads(variable, context, definition, assignment, in_suite, suite) matches Some(
            Ok(_),
        ),
    ensures
        ({
            let edits = inline_reads(
                variable,
                context,
                definition,
                assignment,
                in_suite,
                suite,
            )->0->Ok_0;
            let reads = reads_under_all(variable, suite.children@, suite, false, false);
            &&& reads.len() > 0
            &&& edits.len() == reads.len() + 1
            &&& edits.last() == removing(context.source@, in_suite)
            &&& forall|i: int|
                0 <= i < reads.len() ==> (#[trigger] edits[i]).range == reads[i].node.range
        }),
{
}

/// How tightly `value` holds together as it is written, by python's precedence: a walrus or a
/// `yield` hardly does, then come a tuple without parentheses, `lambda`, `if`, `or` and `and`,
/// `not`, comparisons, arithmetic, signs, `await`, numbers, and what nothing next to it can break.
pub open spec fn binding_power(value: Node) -> nat {
    match value.kind {
        NodeKind::ExprNamed
        | NodeKind::ExprYield
        | NodeKind::ExprYieldFrom
        | NodeKind::ExprStarred
        | NodeKind::ExprStatement => 0,
        NodeKind::ExprGenerator { parenthesized } => if parenthesized {
            11
        } else {
            0
        },
        NodeKind::ExprTuple { parenthesized, .. } => if parenthesized {
            11
        } else {
            1
        },
        NodeKind::ExprLambda => 2,
        NodeKind::ExprIf => 3,
        NodeKind::ExprBoolOp => 4,
        NodeKind::ExprUnaryOp { op } => if op == UnaryOp::Not {
            5
        } else {
            8
        },
        NodeKind::ExprCompare => 6,
        NodeKind::ExprBinOp { .. } => 7,
        NodeKind::ExprAwait => 9,
        NodeKind::ExprNumberLiteral => 10,
        _ => 11,
    }
}

/// How tightly what stands in place of `child` in `parent` must hold together to stay one operand
/// of it.
pub open spec fn asked_power(parent: Node, child: Node) -> nat {
    match parent.kind {
        NodeKind::ExprAttribute { .. } | NodeKind::ExprCall { .. } | NodeKind::ExprAwait => 11,
        NodeKind::ExprSubscript { .. } => if is_between_brackets(parent, child) {
            2
        } else {
            11
        },
        NodeKind::ExprUnaryOp { op } => if op == UnaryOp::Not {
            6
        } else {
            9
        },
        NodeKind::ExprBinOp { .. } => 9,
        NodeKind::ExprCompare | NodeKind::ExprStarred => 7,
        NodeKind::ExprBoolOp => 5,
        NodeKind::ExprIf | NodeKind::Comprehension { .. } => 4,
        // any number of values can stand here, one after the other
        NodeKind::StmtExpr | NodeKind::StmtReturn | NodeKind::StmtAssign => 1,
        _ => 2,
    }
}

/// Whether `child` is what a subscript has between its brackets.
pub open spec fn is_between_brackets(subscript: Node, child: Node) -> bool {
    child_of(subscript, Field::Slice) matches Some(slice) && slice.range == child.range
}

/// Whether what is at the end of `path` is written inside an interpolated string.
pub open spec fn is_interpolated(path: Seq<Node>) -> bool {
    exists|k: int| 0 <= k < path.len() && opens_interpolation(#[trigger] path[k])
}

/// Whether `value` is written so that a line break in it ends nothing: between brackets.
pub open spec fn may_break_lines(value: Node) -> bool {
    match value.kind {
        NodeKind::ExprList { .. }
        | NodeKind::ExprListComp
        | NodeKind::ExprSet
        | NodeKind::ExprSetComp
        | NodeKind::ExprDict
        | NodeKind::ExprDictComp => true,
        NodeKind::ExprTuple { parenthesized, .. }
        | NodeKind::ExprGenerator { parenthesized } => parenthesized,
        _ => false,
    }
}

/// Whether `value` is a name, a call, an attribute or something in brackets.
pub open spec fn is_plain_operand(value: Node) -> bool {
    match value.kind {
        NodeKind::ExprName { .. } => true,
        NodeKind::ExprCall { is_cast, is_string_tag } => !is_cast && !is_string_tag,
        NodeKind::ExprAttribute { optional, .. } => !optional,
        NodeKind::ExprSubscript { is_special, .. } => !is_special,
        _ => may_break_lines(value),
    }
}

/// Whether what an inlining writes in place of the end of `path` reads back as the one value it
/// stands for: the value's own text, or that between parentheses, which are there wherever the
/// value would come apart without, and not around a plain operand.
pub open spec fn reads_as_one(
    text: Seq<char>,
    value: Node,
    path: Seq<Node>,
    written: Seq<char>,
) -> bool {
    let parent = path[path.len() - 2];
    let bare = text_of(text, value.range);
    let enclosed = seq!['('] + bare + seq![')'];
    let may_end_early = breaks_line(text, value.range) && !may_break_lines(value);
    &&& written == bare || written == enclosed
    &&& is_interpolated(path) ==> written == enclosed
    &&& may_end_early ==> written == enclosed
    &&& binding_power(value) < asked_power(parent, path.last()) ==> written == enclosed
    &&& is_plain_operand(value) && !is_interpolated(path) && !may_end_early ==> written == bare
}

/// Whether a read is of the node `path` leads to, in what `path` says is around it.
spec fn is_read_at(read: ReadModel, path: Seq<Node>, parent: Node, in_interpolation: bool) -> bool {
    &&& read.node == path.last()
    &&& read.parent == if path.len() > 1 {
        path[path.len() - 2]
    } else {
        parent
    }
    &&& read.in_interpolation == (in_interpolation || is_interpolated(path))
}

proof fn lemma_read_at(
    variable: Variable,
    path: Seq<Node>,
    parent: Node,
    in_annotation: bool,
    in_interpolation: bool,
) -> (r: int)
    requires
        is_path(path),
        occurrence(
            variable.index,
            variable.scope,
            variable.name,
            path.last(),
            ExprContext::Load,
        ) is Some,
    ensures
        ({
            let reads = reads_under(variable, path[0], parent, in_annotation, in_interpolation);
            0 <= r < reads.len() && is_read_at(reads[r], path, parent, in_interpolation)
        }),
    decreases path.len(),
{
    let node = path[0];
    let reads = reads_under(variable, node, parent, in_annotation, in_interpolation);
    let annotated = in_annotation || opens_annotation(node);
    let interpolated = in_interpolation || opens_interpolation(node);
    let below = reads_under_all(variable, node.children@, node, annotated, interpolated);
    if path.len() > 1 {
        lemma_path_rest(path);
        let rest = path.skip(1);
        let i = choose|i: int| 0 <= i < node.children@.len() && node.children@[i] == path[1];
        let k = lemma_read_at(variable, rest, node, annotated, interpolated);
        let m = lemma_read_among_all(
            variable,
            node.children@,
            node,
            annotated,
            interpolated,
            i,
            k,
        );
        if is_interpolated(rest) {
            let k = choose|k: int| 0 <= k < rest.len() && opens_interpolation(#[trigger] rest[k]);
            assert(opens_interpolation(path[k + 1]));
        }
        if is_interpolated(path) && !opens_interpolation(path[0]) {
            let k = choose|k: int| 0 <= k < path.len() && opens_interpolation(#[trigger] path[k]);
            assert(opens_interpolation(rest[k - 1]));
        }
        let own = reads.len() - below.len();
        assert(reads[own + m] == below[m]);
        own + m
    } else {
        assert(path.last() == node);
        if is_interpolated(path) {
            let k = choose|k: int| 0 <= k < path.len() && opens_interpolation(#[trigger] path[k]);
            assert(k == 0);
        }
        assert(opens_interpolation(node) ==> opens_interpolation(path[0]));
        0
    }
}

/// A read in one of `nodes` is one in all of them.
proof fn lemma_read_among_all(
    variable: Variable,
    nodes: Seq<Node>,
    parent: Node,
    in_annotation: bool,
    in_interpolation: bool,
    i: int,
    k: int,
) -> (m: int)
    requires
        0 <= i < nodes.len(),
        0 <= k < reads_under(variable, nodes[i], parent, in_annotation, in_interpolation).len(),
    ensures
        ({
            let all = reads_under_all(variable, nodes, parent, in_annotation, in_interpolation);
            0 <= m < all.len() && all[m] == reads_under(
                variable,
                nodes[i],
                parent,
                in_annotation,
                in_interpolation,
            )[k]
        }),
    decreases nodes.len(),
{
    let before = reads_under_all(
        variable,
        nodes.drop_last(),
        parent,
        in_annotation,
        in_interpolation,
    );
    let last = reads_under(variable, nodes.last(), parent, in_annotation, in_interpolation);
    if i < nodes.len() - 1 {
        assert(nodes.drop_last()[i] == nodes[i]);
        let m = lemma_read_among_all(
            variable,
            nodes.drop_last(),
            parent,
            in_annotation,
            in_interpolation,
            i,
            k,
        );
        assert((before + last)[m] == before[m]);
        m
    } else {
        assert((before + last)[before.len() + k] == last[k]);
        before.len() + k
    }
}

proof fn lemma_reads_as_one(text: Seq<char>, value: Node, path: Seq<Node>, read: ReadModel)
    requires
        path.len() > 1,
        is_read_at(read, path, path[0], false),
    ensures
        reads_as_one(text, value, path, inlined_text(text, value, read)),
{
    reveal_strlit("(");
    reveal_strlit(")");
    assert("("@ =~= seq!['(']);
    assert(")"@ =~= seq![')']);
    let parent = read.parent;
    let wants = wants_parentheses(text, value, parent, read.node.range);
    if binding_power(value) < asked_power(parent, path.last()) {
        assert(!is_enclosed(value));
        assert(wants);
    }
}

/// Every load of an inlined variable, wherever in its suite, is replaced by the variable's value,
/// written so that it reads back as that one value in the place it is put.
pub proof fn law_reads_become_the_value(
    variable: Variable,
    context: RefactorContext,
    definition: DefinitionId,
    assignment: AssignmentModel,
    in_suite: InSuiteModel,
    suite: Node,
    path: Seq<Node>,
    use_scope: ScopeId,
)
    requires
        inline_reads(variable, context, definition, assignment, in_suite, suite) matches Some(
            Ok(_),
        ),
        is_path(path),
        path.len() > 1,
        path[0] == suite,
        path.last().kind matches NodeKind::ExprName { id, ctx } && id@ == variable.name && ctx
            == ExprContext::Load,
        variable.index.spec_expression_scope(path.last().id) == Some(use_scope),
        resolved(variable.index, use_scope, variable.name) == Some(variable.scope),
        !opens_interpolation(suite),
    ensures
        ({
            let edits = inline_reads(
                variable,
                context,
                definition,
                assignment,
                in_suite,
                suite,
            )->0->Ok_0;
            exists|e: int|
                0 <= e < edits.len() && (#[trigger] edits[e]).range == path.last().range
                    && edits[e].content is Some && reads_as_one(
                    context.source@,
                    assignment.value,
                    path,
                    edits[e].content->0,
                )
        }),
{
    let text = context.source@;
    let value = assignment.value;
    let reads = reads_under_all(variable, suite.children@, suite, false, false);
    let edits = inline_reads(
        variable,
        context,
        definition,
        assignment,
        in_suite,
        suite,
    )->0->Ok_0;
    lemma_path_rest(path);
    let rest = path.skip(1);
    let i = choose|i: int| 0 <= i < suite.children@.len() && suite.children@[i] == path[1];
    let k = lemma_read_at(variable, rest, suite, false, false);
    let r = lemma_read_among_all(variable, suite.children@, suite, false, false, i, k);
    let read = reads[r];
    if is_interpolated(rest) {
        let k = choose|k: int| 0 <= k < rest.len() && opens_interpolation(#[trigger] rest[k]);
        assert(opens_interpolation(path[k + 1]));
    }
    if is_interpolated(path) {
        let k = choose|k: int| 0 <= k < path.len() && opens_interpolation(#[trigger] path[k]);
        assert(opens_interpolation(rest[k - 1]));
    }
    assert(is_read_at(read, path, path[0], false));
    lemma_reads_as_one(text, value, path, read);
    assert(edits[r] == replacing(inlined_text(text, value, read), read.node.range));
}

/// An inlined variable's reads in its own scope see its one assignment and nothing else.
pub proof fn law_inlined_reads_see_the_assignment(
    variable: Variable,
    definition: DefinitionId,
    reads: Seq<ReadModel>,
    i: int,
)
    requires
        first_unseen(variable, definition, reads) is None,
        0 <= i < reads.len(),
        reads[i].scope == variable.scope,
    ensures
        reads_exactly(variable.index, variable.scope, reads[i].node.id, definition),
    decreases reads.len(),
{
    if i > 0 {
        assert(reads.skip(1)[i - 1] == reads[i]);
        law_inlined_reads_see_the_assignment(variable, definition, reads.skip(1), i - 1);
    }
}

/// A value that may have effects when it is evaluated is still evaluated once, and with nothing
/// that has an effect in between: it has a single read, in the variable's own scope, which the
/// statement after the assignment evaluates exactly once before anything else.
pub proof fn law_effects_move_to_one_read(
    variable: Variable,
    context: RefactorContext,
    definition: DefinitionId,
    assignment: AssignmentModel,
    in_suite: InSuiteModel,
    suite: Node,
)
    requires
        inline_reads(variable, context, definition, assignment, in_suite, suite) matches Some(
            Ok(_),
        ),
        !pure(assignment.value),
    ensures
        ({
            let reads = reads_under_all(variable, suite.children@, suite, false, false);
            &&& reads.len() == 1
            &&& reads[0].scope == variable.scope
            &&& in_suite.next() matches Some(next) && next.range.spec_contains_range(
                reads[0].node.range,
            ) && placement(next, reads[0].node.id, reads[0].node.range) == Placement::Once {
                effects_before: false,
            }
        }),
{
}

/// Whether the name `node`, read by a pure value, still is at every read of the variable what it
/// was at the assignment: it is not deleted or rebound from a nested scope, and every binding of
/// it in the variable's scope comes before the assignment.
pub open spec fn stays_what_it_was(inlined: Inlined, node: Node) -> bool {
    let index = inlined.context.index;
    let name = name_of(node);
    match index.spec_expression_scope(node.id) {
        None => true,
        Some(use_scope) => match resolved(index, use_scope, name) {
            None => true,
            Some(read_scope) => match index.spec_symbol(read_scope, name) {
                None => true,
                Some(symbol) => {
                    let found = bindings(index, read_scope, symbol);
                    &&& !rebound(index, read_scope, name)
                    &&& !is_deleted_in(inlined.context, read_scope, name)
                    &&& if read_scope == inlined.scope {
                        forall|i: int|
                            0 <= i < found.len() ==> !may_run_between(inlined, #[trigger] found[i])
                    } else {
                        found.len() <= 1
                    }
                },
            },
        },
    }
}

proof fn lemma_names_stay(inlined: Inlined, nodes: Seq<Node>, i: int)
    requires
        first_unstable(inlined, nodes) is None,
        0 <= i < nodes.len(),
        nodes[i].kind is ExprName,
    ensures
        stays_what_it_was(inlined, nodes[i]),
    decreases nodes.len(),
{
    if i > 0 {
        assert(nodes.skip(1)[i - 1] == nodes[i]);
        lemma_names_stay(inlined, nodes.skip(1), i - 1);
    }
}

proof fn lemma_not_captured(inlined: Inlined, nodes: Seq<Node>, reads: Seq<ReadModel>, i: int)
    requires
        first_captured(inlined, nodes, reads) is None,
        0 <= i < nodes.len(),
        nodes[i].kind is ExprName,
    ensures
        !is_captured(inlined.context.index, nodes[i], reads),
    decreases nodes.len(),
{
    if i > 0 {
        assert(nodes.skip(1)[i - 1] == nodes[i]);
        lemma_not_captured(inlined, nodes.skip(1), reads, i - 1);
    }
}

/// A pure value that is moved reads at each place it is moved to what it read at the assignment:
/// its names are resolved there as they were, and nothing rebinds or deletes them in between.
pub proof fn law_moved_value_reads_the_same(
    variable: Variable,
    context: RefactorContext,
    definition: DefinitionId,
    assignment: AssignmentModel,
    in_suite: InSuiteModel,
    suite: Node,
    i: int,
)
    requires
        inline_reads(variable, context, definition, assignment, in_suite, suite) matches Some(
            Ok(_),
        ),
        pure(assignment.value),
        0 <= i < subtree(assignment.value).len(),
        subtree(assignment.value)[i].kind is ExprName,
    ensures
        ({
            let reads = reads_under_all(variable, suite.children@, suite, false, false);
            stays_what_it_was(
                Inlined {
                    context,
                    scope: variable.scope,
                    assignment,
                    has_nested_read: any_nested(reads, variable.scope),
                },
                subtree(assignment.value)[i],
            ) && !is_captured(context.index, subtree(assignment.value)[i], reads)
        }),
{
    let reads = reads_under_all(variable, suite.children@, suite, false, false);
    let inlined = Inlined {
        context,
        scope: variable.scope,
        assignment,
        has_nested_read: any_nested(reads, variable.scope),
    };
    lemma_names_stay(inlined, subtree(assignment.value), i);
    lemma_not_captured(inlined, subtree(assignment.value), reads, i);
}

/// A variable is only inlined when one assignment in a function or a module binds it, nothing
/// rebinds or deletes it, and its value means the same anywhere and binds no name itself.
pub proof fn law_inlined_variable_is_assigned_once(
    context: RefactorContext,
    use_scope: ScopeId,
    name: Seq<char>,
)
    requires
        inline_name(context, use_scope, name) matches Some(Ok(_)),
    ensures
        ({
            let index = context.index;
            let scope = resolved(index, use_scope, name)->0;
            let symbol = index.spec_symbol(scope, name)->0;
            let found = bindings(index, scope, symbol);
            let value = (assignment_of(context, found[0])->0).value;
            &&& resolved(index, use_scope, name) is Some
            &&& index.spec_symbol(scope, name) is Some
            &&& found.len() == 1
            &&& assignment_of(context, found[0]) is Some
            &&& index.scopes@[scope as int].kind != ScopeKind::Class
            &&& !rebound(index, scope, name)
            &&& !is_deleted_in(context, scope, name)
            &&& means_the_same_anywhere(context, value)
            &&& !has_walrus(value)
        }),
{
    let scope = resolved(context.index, use_scope, name)->0;
    let symbol = context.index.spec_symbol(scope, name)->0;
    let found = bindings(context.index, scope, symbol);
    law_no_hazard_is_missed(context, (assignment_of(context, found[0])->0).value);
}

/// Whether `nodes` are nested, one after the other.
spec fn are_nested(nodes: Seq<Node>) -> bool {
    &&& forall|i: int, j: int|
        0 <= i < j < nodes.len() ==> is_before(
            (#[trigger] nodes[i]).range,
            (#[trigger] nodes[j]).range,
        )
    &&& forall|i: int| 0 <= i < nodes.len() ==> is_nested(#[trigger] nodes[i])
}

proof fn lemma_nested_rest(nodes: Seq<Node>)
    requires
        are_nested(nodes),
        nodes.len() > 0,
    ensures
        are_nested(nodes.drop_last()),
        is_nested(nodes.last()),
{
    let rest = nodes.drop_last();
    assert forall|i: int| 0 <= i < rest.len() implies is_nested(#[trigger] rest[i]) by {
        assert(rest[i] == nodes[i]);
    }
    assert forall|i: int, j: int| 0 <= i < j < rest.len() implies is_before(
        (#[trigger] rest[i]).range,
        (#[trigger] rest[j]).range,
    ) by {
        assert(rest[i] == nodes[i] && rest[j] == nodes[j]);
    }
    assert(is_nested(nodes[nodes.len() - 1]));
}

/// Whether the reads are of names inside `range`, one after the other.
spec fn are_reads_in(reads: Seq<ReadModel>, range: TextRange) -> bool {
    &&& forall|i: int|
        0 <= i < reads.len() ==> range.spec_contains_range((#[trigger] reads[i]).node.range)
            && reads[i].node.range.start < reads[i].node.range.end
    &&& forall|i: int, j: int|
        0 <= i < j < reads.len() ==> is_before(
            (#[trigger] reads[i]).node.range,
            (#[trigger] reads[j]).node.range,
        )
}

proof fn lemma_reads_ordered(
    variable: Variable,
    node: Node,
    parent: Node,
    in_annotation: bool,
    in_interpolation: bool,
)
    requires
        is_nested(node),
    ensures
        are_reads_in(
            reads_under(variable, node, parent, in_annotation, in_interpolation),
            node.range,
        ),
    decreases node, 1int,
{
    let annotation = in_annotation || opens_annotation(node);
    let interpolation = in_interpolation || opens_interpolation(node);
    lemma_all_reads_ordered(variable, node.children@, node, annotation, interpolation);
    let below = reads_under_all(variable, node.children@, node, annotation, interpolation);
    let all = reads_under(variable, node, parent, in_annotation, in_interpolation);
    if node.kind is ExprName {
        assert(below =~= Seq::empty());
    } else {
        assert(all =~= below);
        assert forall|i: int| 0 <= i < all.len() implies node.range.spec_contains_range(
            (#[trigger] all[i]).node.range,
        ) && all[i].node.range.start < all[i].node.range.end by {
            assert(is_in_a(node.children@, below[i].node.range));
        }
    }
}

/// Whether `range` is inside one of `nodes`.
spec fn is_in_a(nodes: Seq<Node>, range: TextRange) -> bool {
    exists|i: int|
        0 <= i < nodes.len() && (#[trigger] nodes[i]).range.spec_contains_range(range)
}

proof fn lemma_all_reads_ordered(
    variable: Variable,
    nodes: Seq<Node>,
    parent: Node,
    in_annotation: bool,
    in_interpolation: bool,
)
    requires
        are_nested(nodes),
    ensures
        ({
            let reads = reads_under_all(
                variable,
                nodes,
                parent,
                in_annotation,
                in_interpolation,
            );
            &&& forall|i: int|
                0 <= i < reads.len() ==> is_in_a(nodes, (#[trigger] reads[i]).node.range)
                    && reads[i].node.range.start < reads[i].node.range.end
            &&& forall|i: int, j: int|
                0 <= i < j < reads.len() ==> is_before(
                    (#[trigger] reads[i]).node.range,
                    (#[trigger] reads[j]).node.range,
                )
        }),
    decreases nodes, 0int,
{
    if nodes.len() > 0 {
        let rest = nodes.drop_last();
        let last = nodes.last();
        lemma_nested_rest(nodes);
        lemma_all_reads_ordered(variable, rest, parent, in_annotation, in_interpolation);
        lemma_reads_ordered(variable, last, parent, in_annotation, in_interpolation);
        let before = reads_under_all(variable, rest, parent, in_annotation, in_interpolation);
        let after = reads_under(variable, last, parent, in_annotation, in_interpolation);
        let all = reads_under_all(variable, nodes, parent, in_annotation, in_interpolation);
        assert(all =~= before + after);
        assert forall|i: int| 0 <= i < all.len() implies is_in_a(
            nodes,
            (#[trigger] all[i]).node.range,
        ) && all[i].node.range.start < all[i].node.range.end by {
            if i < before.len() {
                assert(all[i] == before[i]);
                let k = choose|k: int|
                    0 <= k < rest.len() && (#[trigger] rest[k]).range.spec_contains_range(
                        before[i].node.range,
                    );
                assert(nodes[k].range.spec_contains_range(all[i].node.range));
            } else {
                assert(all[i] == after[i - before.len()]);
                assert(nodes[nodes.len() - 1].range.spec_contains_range(all[i].node.range));
            }
        }
        assert forall|i: int, j: int| 0 <= i < j < all.len() implies is_before(
            (#[trigger] all[i]).node.range,
            (#[trigger] all[j]).node.range,
        ) by {
            if j < before.len() {
                assert(all[i] == before[i] && all[j] == before[j]);
            } else if i < before.len() {
                assert(all[i] == before[i] && all[j] == after[j - before.len()]);
                let k = choose|k: int|
                    0 <= k < rest.len() && (#[trigger] rest[k]).range.spec_contains_range(
                        before[i].node.range,
                    );
                assert(is_before(nodes[k].range, nodes[nodes.len() - 1].range));
            } else {
                assert(all[i] == after[i - before.len()] && all[j] == after[j - before.len()]);
            }
        }
    }
}

/// Whether `read` is one of those in `node`, wherever that stands.
spec fn is_read_of(variable: Variable, node: Node, read: ReadModel) -> bool {
    exists|parent: Node, in_annotation: bool, in_interpolation: bool|
        #[trigger] reads_under(
            variable,
            node,
            parent,
            in_annotation,
            in_interpolation,
        ).contains(read)
}

/// Whether `read` is inside `statement`, or clear of it.
spec fn is_inside_or_clear(variable: Variable, statement: Node, read: ReadModel) -> bool {
    ||| is_before(read.node.range, statement.range)
    ||| is_before(statement.range, read.node.range)
    ||| is_read_of(variable, statement, read)
}

proof fn lemma_reads_inside_or_clear(
    variable: Variable,
    node: Node,
    parent: Node,
    in_annotation: bool,
    in_interpolation: bool,
    statement: Node,
)
    requires
        is_nested(node),
        walked(node, Prune::Nothing).contains(statement),
        statement.range.start < statement.range.end,
    ensures
        node.range.spec_contains_range(statement.range),
        forall|i: int|
            0 <= i < reads_under(
                variable,
                node,
                parent,
                in_annotation,
                in_interpolation,
            ).len() ==> is_inside_or_clear(
                variable,
                statement,
                #[trigger] reads_under(
                    variable,
                    node,
                    parent,
                    in_annotation,
                    in_interpolation,
                )[i],
            ),
    decreases node, 1int,
{
    let reads = reads_under(variable, node, parent, in_annotation, in_interpolation);
    if node == statement {
        assert forall|i: int| 0 <= i < reads.len() implies is_inside_or_clear(
            variable,
            statement,
            #[trigger] reads[i],
        ) by {
            assert(reads.contains(reads[i]));
        }
    } else {
        let annotation = in_annotation || opens_annotation(node);
        let interpolation = in_interpolation || opens_interpolation(node);
        let walk = walked(node, Prune::Nothing);
        let below = walked_all(node.children@, Prune::Nothing);
        let k = walk.index_of(statement);
        assert(below[k - 1] == statement);
        lemma_all_reads_inside_or_clear(
            variable,
            node.children@,
            node,
            annotation,
            interpolation,
            statement,
        );
        assert(is_in_a(node.children@, statement.range));
        assert(!(node.kind is ExprName));
        assert(reads =~= reads_under_all(
            variable,
            node.children@,
            node,
            annotation,
            interpolation,
        ));
    }
}

proof fn lemma_all_reads_inside_or_clear(
    variable: Variable,
    nodes: Seq<Node>,
    parent: Node,
    in_annotation: bool,
    in_interpolation: bool,
    statement: Node,
)
    requires
        are_nested(nodes),
        walked_all(nodes, Prune::Nothing).contains(statement),
        statement.range.start < statement.range.end,
    ensures
        is_in_a(nodes, statement.range),
        forall|i: int|
            0 <= i < reads_under_all(
                variable,
                nodes,
                parent,
                in_annotation,
                in_interpolation,
            ).len() ==> is_inside_or_clear(
                variable,
                statement,
                #[trigger] reads_under_all(
                    variable,
                    nodes,
                    parent,
                    in_annotation,
                    in_interpolation,
                )[i],
            ),
    decreases nodes, 0int,
{
    let rest = nodes.drop_last();
    let last = nodes.last();
    lemma_nested_rest(nodes);
    let earlier = walked_all(rest, Prune::Nothing);
    let under = walked(last, Prune::Nothing);
    let walk = walked_all(nodes, Prune::Nothing);
    assert(walk == earlier + under);
    let before = reads_under_all(variable, rest, parent, in_annotation, in_interpolation);
    let after = reads_under(variable, last, parent, in_annotation, in_interpolation);
    let all = reads_under_all(variable, nodes, parent, in_annotation, in_interpolation);
    assert(all =~= before + after);
    lemma_all_reads_ordered(variable, rest, parent, in_annotation, in_interpolation);
    lemma_reads_ordered(variable, last, parent, in_annotation, in_interpolation);
    if earlier.contains(statement) {
        lemma_all_reads_inside_or_clear(
            variable,
            rest,
            parent,
            in_annotation,
            in_interpolation,
            statement,
        );
        let k = choose|k: int|
            0 <= k < rest.len() && (#[trigger] rest[k]).range.spec_contains_range(
                statement.range,
            );
        assert(nodes[k].range.spec_contains_range(statement.range));
        assert(is_before(nodes[k].range, nodes[nodes.len() - 1].range));
        assert forall|i: int| 0 <= i < all.len() implies is_inside_or_clear(
            variable,
            statement,
            #[trigger] all[i],
        ) by {
            if i < before.len() {
                assert(all[i] == before[i]);
            } else {
                assert(all[i] == after[i - before.len()]);
                assert(last.range.spec_contains_range(all[i].node.range));
            }
        }
    } else {
        let k = walk.index_of(statement);
        assert(under[k - earlier.len()] == statement);
        lemma_reads_inside_or_clear(
            variable,
            last,
            parent,
            in_annotation,
            in_interpolation,
            statement,
        );
        assert(nodes[nodes.len() - 1].range.spec_contains_range(statement.range));
        assert forall|i: int| 0 <= i < all.len() implies is_inside_or_clear(
            variable,
            statement,
            #[trigger] all[i],
        ) by {
            if i < before.len() {
                assert(all[i] == before[i]);
                let c = choose|c: int|
                    0 <= c < rest.len() && (#[trigger] rest[c]).range.spec_contains_range(
                        before[i].node.range,
                    );
                assert(is_before(nodes[c].range, nodes[nodes.len() - 1].range));
            } else {
                assert(all[i] == after[i - before.len()]);
            }
        }
    }
}

proof fn lemma_reads_annotated(
    variable: Variable,
    node: Node,
    parent: Node,
    in_annotation: bool,
    in_interpolation: bool,
)
    requires
        in_annotation || opens_annotation(node),
    ensures
        forall|i: int|
            0 <= i < reads_under(
                variable,
                node,
                parent,
                in_annotation,
                in_interpolation,
            ).len() ==> (#[trigger] reads_under(
                variable,
                node,
                parent,
                in_annotation,
                in_interpolation,
            )[i]).in_annotation,
    decreases node, 1int,
{
    let interpolation = in_interpolation || opens_interpolation(node);
    lemma_all_reads_annotated(variable, node.children@, node, interpolation);
}

proof fn lemma_all_reads_annotated(
    variable: Variable,
    nodes: Seq<Node>,
    parent: Node,
    in_interpolation: bool,
)
    ensures
        forall|i: int|
            0 <= i < reads_under_all(
                variable,
                nodes,
                parent,
                true,
                in_interpolation,
            ).len() ==> (#[trigger] reads_under_all(
                variable,
                nodes,
                parent,
                true,
                in_interpolation,
            )[i]).in_annotation,
    decreases nodes, 0int,
{
    if nodes.len() > 0 {
        lemma_all_reads_annotated(variable, nodes.drop_last(), parent, in_interpolation);
        lemma_reads_annotated(variable, nodes.last(), parent, true, in_interpolation);
    }
}

proof fn lemma_reads_are_nodes(
    variable: Variable,
    node: Node,
    parent: Node,
    in_annotation: bool,
    in_interpolation: bool,
    i: int,
)
    requires
        0 <= i < reads_under(variable, node, parent, in_annotation, in_interpolation).len(),
    ensures
        ({
            let read = reads_under(variable, node, parent, in_annotation, in_interpolation)[i];
            &&& subtree(node).contains(read.node)
            &&& occurrence(
                variable.index,
                variable.scope,
                variable.name,
                read.node,
                ExprContext::Load,
            ) is Some
        }),
    decreases node, 1int,
{
    let annotation = in_annotation || opens_annotation(node);
    let interpolation = in_interpolation || opens_interpolation(node);
    let below = reads_under_all(variable, node.children@, node, annotation, interpolation);
    let all = reads_under(variable, node, parent, in_annotation, in_interpolation);
    let own = all.len() - below.len();
    let walk = subtree(node);
    assert(walk[0] == node);
    if i >= own {
        assert(all[i] == below[i - own]);
        lemma_all_reads_are_nodes(
            variable,
            node.children@,
            node,
            annotation,
            interpolation,
            i - own,
        );
        let inner = walked_all(node.children@, Prune::Nothing);
        let k = inner.index_of(all[i].node);
        assert(walk[k + 1] == all[i].node);
    }
}

proof fn lemma_all_reads_are_nodes(
    variable: Variable,
    nodes: Seq<Node>,
    parent: Node,
    in_annotation: bool,
    in_interpolation: bool,
    i: int,
)
    requires
        0 <= i < reads_under_all(variable, nodes, parent, in_annotation, in_interpolation).len(),
    ensures
        ({
            let read = reads_under_all(
                variable,
                nodes,
                parent,
                in_annotation,
                in_interpolation,
            )[i];
            &&& walked_all(nodes, Prune::Nothing).contains(read.node)
            &&& occurrence(
                variable.index,
                variable.scope,
                variable.name,
                read.node,
                ExprContext::Load,
            ) is Some
        }),
    decreases nodes, 0int,
{
    let rest = nodes.drop_last();
    let before = reads_under_all(variable, rest, parent, in_annotation, in_interpolation);
    let all = reads_under_all(variable, nodes, parent, in_annotation, in_interpolation);
    let earlier = walked_all(rest, Prune::Nothing);
    let under = walked(nodes.last(), Prune::Nothing);
    let walk = walked_all(nodes, Prune::Nothing);
    assert(walk == earlier + under);
    if i < before.len() {
        assert(all[i] == before[i]);
        lemma_all_reads_are_nodes(variable, rest, parent, in_annotation, in_interpolation, i);
        let k = earlier.index_of(all[i].node);
        assert(walk[k] == all[i].node);
    } else {
        lemma_reads_are_nodes(
            variable,
            nodes.last(),
            parent,
            in_annotation,
            in_interpolation,
            i - before.len(),
        );
        let k = under.index_of(all[i].node);
        assert(walk[earlier.len() + k] == all[i].node);
    }
}

/// Whether an assignment is one of a value to a name, with at most an annotation.
pub open spec fn assigns_plainly(assignment: AssignmentModel) -> bool {
    let statement = assignment.statement;
    &&& statement.kind is StmtAssign || statement.kind is StmtAnnAssign
    &&& assignment.target.kind matches NodeKind::ExprName { ctx, .. } && ctx != ExprContext::Load
    &&& forall|i: int|
        0 <= i < statement.children@.len() ==> (#[trigger] statement.children@[i])
            == assignment.target || statement.children@[i] == assignment.value
            || statement.children@[i].field == Field::Annotation
}

proof fn lemma_read_among(
    variable: Variable,
    nodes: Seq<Node>,
    parent: Node,
    in_annotation: bool,
    in_interpolation: bool,
    read: ReadModel,
) -> (k: int)
    requires
        reads_under_all(variable, nodes, parent, in_annotation, in_interpolation).contains(read),
    ensures
        0 <= k < nodes.len(),
        reads_under(variable, nodes[k], parent, in_annotation, in_interpolation).contains(read),
    decreases nodes.len(),
{
    let rest = nodes.drop_last();
    let before = reads_under_all(variable, rest, parent, in_annotation, in_interpolation);
    let after = reads_under(variable, nodes.last(), parent, in_annotation, in_interpolation);
    let all = reads_under_all(variable, nodes, parent, in_annotation, in_interpolation);
    let i = all.index_of(read);
    if i < before.len() {
        assert(before[i] == read);
        let k = lemma_read_among(variable, rest, parent, in_annotation, in_interpolation, read);
        assert(rest[k] == nodes[k]);
        k
    } else {
        assert(after[i - before.len()] == read);
        nodes.len() - 1
    }
}

/// A read inside the assignment is in its value, if it is not in an annotation.
proof fn lemma_read_in_value(variable: Variable, assignment: AssignmentModel, read: ReadModel)
    requires
        assigns_plainly(assignment),
        is_nested(assignment.statement),
        is_read_of(variable, assignment.statement, read),
        !read.in_annotation,
    ensures
        subtree(assignment.value).contains(read.node),
        occurrence(
            variable.index,
            variable.scope,
            variable.name,
            read.node,
            ExprContext::Load,
        ) is Some,
        assignment.statement.range.spec_contains_range(read.node.range),
        read.node.range.start < read.node.range.end,
{
    let statement = assignment.statement;
    let (parent, outer_annotation, outer_interpolation) = choose|
        parent: Node,
        in_annotation: bool,
        in_interpolation: bool,
    |
        #[trigger] reads_under(
            variable,
            statement,
            parent,
            in_annotation,
            in_interpolation,
        ).contains(read);
    let reads = reads_under(
        variable,
        statement,
        parent,
        outer_annotation,
        outer_interpolation,
    );
    let annotation = outer_annotation || opens_annotation(statement);
    let interpolation = outer_interpolation || opens_interpolation(statement);
    lemma_reads_ordered(variable, statement, parent, outer_annotation, outer_interpolation);
    let at = reads.index_of(read);
    assert(reads[at] == read);
    assert(reads =~= reads_under_all(
        variable,
        statement.children@,
        statement,
        annotation,
        interpolation,
    ));
    let k = lemma_read_among(
        variable,
        statement.children@,
        statement,
        annotation,
        interpolation,
        read,
    );
    let child = statement.children@[k];
    let own = reads_under(variable, child, statement, annotation, interpolation);
    let i = own.index_of(read);
    assert(own[i] == read);
    lemma_reads_are_nodes(variable, child, statement, annotation, interpolation, i);
    if child.field == Field::Annotation {
        lemma_reads_annotated(variable, child, statement, annotation, interpolation);
        assert(false);
    } else if child == assignment.target {
        assert(is_nested(child));
        assert(child.children@.len() == 0);
        assert(subtree(child) =~= seq![child]);
        assert(false);
    }
}

/// Whether no name of `tree` shares a line with `statement` without being part of it. Where a
/// statement owns its lines they hold only whitespace and a comment besides, and no name is
/// written in those.
pub open spec fn has_lines_to_itself(text: Seq<char>, tree: Node, statement: Node) -> bool {
    forall|i: int|
        0 <= i < subtree(tree).len() && (#[trigger] subtree(tree)[i]).kind is ExprName ==> {
            let range = subtree(tree)[i].range;
            &&& statement.range.end <= range.start ==> full_line_end_of(
                text,
                statement.range.end as int,
            ) <= range.start
            &&& range.end <= statement.range.start ==> range.end <= line_start_of(
                text,
                statement.range.start as int,
            )
        }
}

proof fn lemma_inlining_edits_apart(
    variable: Variable,
    context: RefactorContext,
    definition: DefinitionId,
    assignment: AssignmentModel,
    in_suite: InSuiteModel,
    suite: Node,
    i: int,
    j: int,
)
    requires
        inline_reads(variable, context, definition, assignment, in_suite, suite) matches Some(
            Ok(edits),
        ) && 0 <= i < j < edits.len(),
        context.wf(),
        // the tree, and where the assignment stands in it
        is_nested(suite),
        in_suite.wf(),
        in_suite.statement() == assignment.statement,
        walked_all(suite.children@, Prune::Nothing).contains(assignment.statement),
        in_suite.next() matches Some(next) ==> is_before(assignment.statement.range, next.range),
        assigns_plainly(assignment),
        is_span(context.source@, assignment.statement.range),
        assignment.statement.range.start < assignment.statement.range.end,
        is_nested(assignment.statement),
        has_lines_to_itself(context.source@, suite, assignment.statement),
        // the one definition of the variable is made by the assignment
        variable.index == context.index,
        context.index.spec_symbol(variable.scope, variable.name) matches Some(symbol)
            && bindings(context.index, variable.scope, symbol) == seq![definition],
        context.index.definitions@[definition as int].full_range.start
            >= assignment.statement.range.start,
    ensures
        ({
            let edits = inline_reads(
                variable,
                context,
                definition,
                assignment,
                in_suite,
                suite,
            )->0->Ok_0;
            is_before(edits[i].range, edits[j].range) || is_before(edits[j].range, edits[i].range)
        }),
{
    let text = context.source@;
    let statement = assignment.statement;
    let reads = reads_under_all(variable, suite.children@, suite, false, false);
    let edits = inline_reads(variable, context, definition, assignment, in_suite, suite)->0->Ok_0;
    assert(are_nested(suite.children@));
    lemma_all_reads_ordered(variable, suite.children@, suite, false, false);
    if j < reads.len() {
        assert(edits[i].range == reads[i].node.range);
        assert(edits[j].range == reads[j].node.range);
    } else {
        let read = reads[i];
        assert(edits[i].range == read.node.range);
        assert(edits[j] == removing(text, in_suite));
        let walk = subtree(suite);
        let below = walked_all(suite.children@, Prune::Nothing);
        lemma_all_reads_are_nodes(variable, suite.children@, suite, false, false, i);
        let n = below.index_of(read.node);
        assert(walk[n + 1] == read.node);
        lemma_all_reads_inside_or_clear(
            variable,
            suite.children@,
            suite,
            false,
            false,
            statement,
        );
        assert(is_inside_or_clear(variable, statement, read));
        lemma_not_annotated(variable, definition, reads, i);
        if is_read_of(variable, statement, read) {
            lemma_read_in_value(variable, assignment, read);
            if pure(assignment.value) {
                let m = subtree(assignment.value).index_of(read.node);
                law_moved_value_reads_the_same(
                    variable,
                    context,
                    definition,
                    assignment,
                    in_suite,
                    suite,
                    m,
                );
                let found = seq![definition];
                assert(found[0] == definition);
                assert(false);
            } else {
                law_effects_move_to_one_read(
                    variable,
                    context,
                    definition,
                    assignment,
                    in_suite,
                    suite,
                );
                assert(false);
            }
        }
        lemma_line_start(text, statement.range.start as int);
        lemma_line_end(text, statement.range.end as int);
    }
}

proof fn lemma_not_annotated(
    variable: Variable,
    definition: DefinitionId,
    reads: Seq<ReadModel>,
    i: int,
)
    requires
        first_unseen(variable, definition, reads) is None,
        0 <= i < reads.len(),
    ensures
        !reads[i].in_annotation,
    decreases reads.len(),
{
    if i > 0 {
        assert(reads.skip(1)[i - 1] == reads[i]);
        lemma_not_annotated(variable, definition, reads.skip(1), i - 1);
    }
}

/// What is among the parts of one of `nodes` is among those of all of them.
proof fn lemma_part_of_all(nodes: Seq<Node>, k: int, node: Node)
    requires
        0 <= k < nodes.len(),
        subtree(nodes[k]).contains(node),
    ensures
        walked_all(nodes, Prune::Nothing).contains(node),
    decreases nodes.len(),
{
    let rest = nodes.drop_last();
    let before = walked_all(rest, Prune::Nothing);
    let last = walked(nodes.last(), Prune::Nothing);
    let all = walked_all(nodes, Prune::Nothing);
    assert(all == before + last);
    if k < nodes.len() - 1 {
        assert(rest[k] == nodes[k]);
        lemma_part_of_all(rest, k, node);
        let at = before.index_of(node);
        assert(all[at] == node);
    } else {
        let at = last.index_of(node);
        assert(all[before.len() + at] == node);
    }
}

proof fn lemma_part_of_one(nodes: Seq<Node>, node: Node) -> (k: int)
    requires
        walked_all(nodes, Prune::Nothing).contains(node),
    ensures
        0 <= k < nodes.len(),
        subtree(nodes[k]).contains(node),
    decreases nodes.len(),
{
    let rest = nodes.drop_last();
    let before = walked_all(rest, Prune::Nothing);
    let last = walked(nodes.last(), Prune::Nothing);
    let all = walked_all(nodes, Prune::Nothing);
    let at = all.index_of(node);
    if at < before.len() {
        assert(before[at] == node);
        let k = lemma_part_of_one(rest, node);
        assert(rest[k] == nodes[k]);
        k
    } else {
        assert(last[at - before.len()] == node);
        nodes.len() - 1
    }
}

/// What stands directly in a part of `root` is a part of it too.
proof fn lemma_part_child(root: Node, node: Node, i: int)
    requires
        subtree(root).contains(node),
        0 <= i < node.children@.len(),
    ensures
        subtree(root).contains(node.children@[i]),
    decreases root,
{
    let child = node.children@[i];
    let below = walked_all(root.children@, Prune::Nothing);
    let walk = subtree(root);
    if node == root {
        let own = subtree(child);
        assert(own[0] == child);
        lemma_part_of_all(root.children@, i, child);
    } else {
        let at = walk.index_of(node);
        assert(below[at - 1] == node);
        let k = lemma_part_of_one(root.children@, node);
        lemma_part_child(root.children@[k], node, i);
        lemma_part_of_all(root.children@, k, child);
    }
    let at = below.index_of(child);
    assert(walk[at + 1] == child);
}

proof fn lemma_part_of_part(root: Node, node: Node, inner: Node)
    requires
        subtree(root).contains(node),
        subtree(node).contains(inner),
    ensures
        subtree(root).contains(inner),
    decreases node,
{
    if inner != node {
        let at = subtree(node).index_of(inner);
        let below = walked_all(node.children@, Prune::Nothing);
        assert(below[at - 1] == inner);
        let k = lemma_part_of_one(node.children@, inner);
        lemma_part_child(root, node, k);
        lemma_part_of_part(root, node.children@[k], inner);
    }
}

proof fn lemma_part_filling(root: Node, node: Node, field: Field)
    requires
        subtree(root).contains(node),
        child_of(node, field) is Some,
    ensures
        subtree(root).contains(child_of(node, field)->0),
{
    let at = lemma_first_filling_in(node.children@, field);
    lemma_part_child(root, node, at);
}

proof fn lemma_part_nested(root: Node, node: Node)
    requires
        is_nested(root),
        subtree(root).contains(node),
    ensures
        is_nested(node),
    decreases root,
{
    if node != root {
        let at = subtree(root).index_of(node);
        let below = walked_all(root.children@, Prune::Nothing);
        assert(below[at - 1] == node);
        let k = lemma_part_of_one(root.children@, node);
        assert(is_nested(root.children@[k]));
        lemma_part_nested(root.children@[k], node);
    }
}

proof fn lemma_part_suite(root: Node, statement: Node, i: int)
    requires
        subtree(root).contains(statement),
        0 <= i < suites_in(statement).len(),
    ensures
        subtree(root).contains(suites_in(statement)[i]),
{
    let suite = suites_in(statement)[i];
    lemma_suite_in(statement, i);
    if exists|field: Field| #[trigger] child_of(statement, field) == Some(suite) {
        let field = choose|field: Field| #[trigger] child_of(statement, field) == Some(suite);
        lemma_part_filling(root, statement, field);
    } else {
        let (field, k) = choose|field: Field, k: int|
            0 <= k < children_of(statement, field).len() && child_of(
                #[trigger] children_of(statement, field)[k],
                Field::Body,
            ) == Some(suite);
        let at = lemma_all_filling_in(statement.children@, field, k);
        lemma_part_child(root, statement, at);
        lemma_part_filling(root, children_of(statement, field)[k], Field::Body);
    }
}

/// A statement is found in a suite of the tree, under its own number.
proof fn lemma_part_located(root: Node, suite: Node, from: int, statement: Node)
    requires
        subtree(root).contains(suite),
    ensures
        located_from(suite, from, statement) matches Some(found) ==> found.wf()
            && found.statement().id == statement.id && subtree(root).contains(found.suite),
    decreases height(suite), 0int, suite.children@.len() - from,
{
    if 0 <= from < suite.children@.len() {
        let candidate = suite.children@[from];
        lemma_height_child(suite, from);
        lemma_part_child(root, suite, from);
        assert forall|i: int| 0 <= i < suites_in(candidate).len() implies subtree(
            root,
        ).contains(#[trigger] suites_in(candidate)[i]) by {
            lemma_part_suite(root, candidate, i);
        }
        lemma_part_located_in(root, suites_in(candidate), height(candidate), statement);
        lemma_part_located(root, suite, from + 1, statement);
    }
}

proof fn lemma_part_located_in(root: Node, suites: Seq<Node>, below: nat, statement: Node)
    requires
        forall|i: int|
            0 <= i < suites.len() ==> subtree(root).contains(#[trigger] suites[i]),
    ensures
        located_in(suites, below, statement) matches Some(found) ==> found.wf()
            && found.statement().id == statement.id && subtree(root).contains(found.suite),
    decreases below, 1int, suites.len(),
{
    if suites.len() > 0 {
        assert(subtree(root).contains(suites[0]));
        if height(suites[0]) < below {
            lemma_part_located(root, suites[0], 0, statement);
        }
        assert forall|i: int| 0 <= i < suites.skip(1).len() implies subtree(root).contains(
            #[trigger] suites.skip(1)[i],
        ) by {
            assert(suites.skip(1)[i] == suites[i + 1]);
        }
        lemma_part_located_in(root, suites.skip(1), below, statement);
    }
}

proof fn lemma_part_ancestors(root: Node, suite: Node, range: TextRange)
    requires
        subtree(root).contains(suite),
    ensures
        forall|i: int|
            0 <= i < ancestors_in(suite, range).len() ==> subtree(root).contains(
                #[trigger] ancestors_in(suite, range)[i],
            ),
    decreases height(suite),
{
    if let Some(statement) = first_around(suite.children@, range) {
        lemma_innermost_height(suite, range);
        let k = lemma_first_around(suite.children@, range);
        lemma_part_child(root, suite, k);
        lemma_first_suite_containing(suites_in(statement), range);
        if let Some(nested) = first_suite_containing(suites_in(statement), range) {
            let j = suites_in(statement).index_of(nested);
            lemma_part_suite(root, statement, j);
            lemma_part_ancestors(root, nested, range);
            let rest = ancestors_in(nested, range);
            assert forall|i: int| 0 <= i < ancestors_in(suite, range).len() implies subtree(
                root,
            ).contains(#[trigger] ancestors_in(suite, range)[i]) by {
                if i > 0 {
                    assert(ancestors_in(suite, range)[i] == rest[i - 1]);
                }
            }
        }
    }
}

proof fn lemma_resolved_scope(index: SemanticIndex, scopes: Seq<ScopeId>, name: Seq<char>)
    requires
        index.wf(),
        forall|i: int| 0 <= i < scopes.len() ==> (#[trigger] scopes[i]) < index.scopes.len(),
    ensures
        resolved_among(index, scopes, name) matches Some(scope) ==> scope < index.scopes.len(),
    decreases scopes.len(),
{
    if scopes.len() > 0 {
        assert(scopes[0] < index.scopes.len());
        let rest = scopes.skip(1);
        assert forall|i: int| 0 <= i < rest.len() implies (#[trigger] rest[i])
            < index.scopes.len() by {
            assert(rest[i] == scopes[i + 1]);
        }
        lemma_resolved_scope(index, rest, name);
    }
}

proof fn lemma_binding_of_scope(
    index: SemanticIndex,
    definitions: Seq<DefinitionId>,
    symbol: int,
    k: int,
)
    requires
        0 <= k < bindings_among(index, definitions, symbol).len(),
    ensures
        definitions.contains(bindings_among(index, definitions, symbol)[k]),
    decreases definitions.len(),
{
    let rest = definitions.drop_last();
    let before = bindings_among(index, rest, symbol);
    if k < before.len() {
        lemma_binding_of_scope(index, rest, symbol, k);
        let at = rest.index_of(before[k]);
        assert(definitions[at] == before[k]);
    } else {
        assert(definitions[definitions.len() - 1] == definitions.last());
    }
}

/// Whether `statement` is written in `tree` as an assignment is: its target is bound and not
/// read, its parts are its target, its value and an annotation, and its lines are its own where
/// it owns them.
pub open spec fn is_written_assignment(text: Seq<char>, tree: Node, statement: Node) -> bool {
    match single_assignment(statement) {
        Some((target, value)) => target.kind is ExprName ==> {
            &&& assigns_plainly(AssignmentModel { statement, target, value })
            &&& owns_lines(text, statement.range) ==> has_lines_to_itself(text, tree, statement)
        },
        None => true,
    }
}

/// Whether what `definition`, of `scope`, is assigned by stands in the suite of that scope.
pub open spec fn stands_in_its_scope(
    context: RefactorContext,
    scope: ScopeId,
    definition: DefinitionId,
) -> bool {
    match (assignment_of(context, definition), scope_suite(context, scope)) {
        (Some(assignment), Some(suite)) => walked_all(suite.children@, Prune::Nothing).contains(
            assignment.statement,
        ),
        _ => true,
    }
}

/// Whether the tree, the text and the index of `context` are those of a file without syntax
/// errors: nodes are nested and told apart by their numbers, assignments are written as such, and
/// the index places each of them in its scope, from its target on.
pub open spec fn is_of_valid_file(context: RefactorContext) -> bool {
    let module = context.module;
    &&& context.wf()
    &&& is_nested(module)
    &&& forall|a: Node, b: Node|
        #![trigger subtree(module).contains(a), subtree(module).contains(b)]
        subtree(module).contains(a) && subtree(module).contains(b) && a.id == b.id ==> a == b
    &&& forall|statement: Node| #[trigger]
        subtree(module).contains(statement) ==> is_written_assignment(
            context.source@,
            module,
            statement,
        )
    &&& forall|d: int|
        0 <= d < context.index.definitions@.len() && is_plain_assignment(
            (#[trigger] context.index.definitions@[d]).kind,
        ) ==> context.index.definitions@[d].target_range.start
            <= context.index.definitions@[d].full_range.start
    &&& forall|scope: ScopeId, symbol: int, k: int|
        scope < context.index.scopes@.len() && 0 <= k < bindings(
            context.index,
            scope,
            symbol,
        ).len() ==> stands_in_its_scope(
            context,
            scope,
            #[trigger] bindings(context.index, scope, symbol)[k],
        )
}

/// The edits of an inlined variable never touch the same text twice: they replace its reads, one
/// after the other, and remove the assignment, in which none of the reads is.
pub proof fn law_inlining_edits_are_apart(
    context: RefactorContext,
    range: TextRange,
    i: int,
    j: int,
)
    requires
        is_of_valid_file(context),
        inline_variable_at(context, range) matches Ok(plan) && 0 <= i < j < plan.edits.len(),
    ensures
        ({
            let edits = (inline_variable_at(context, range)->Ok_0).edits;
            is_before(edits[i].range, edits[j].range) || is_before(edits[j].range, edits[i].range)
        }),
{
    let module = context.module;
    let text = context.source@;
    let index = context.index;
    let selected = path_to(module, range).last();
    let name = selected.kind->id@;
    let use_scope = index.spec_expression_scope(selected.id)->0;
    let at = lemma_found_in(index.expression_scopes@, selected.id);
    assert(index.expression_scopes@[at].1 < index.scopes.len());
    assert(index.scope_wf(use_scope as int, index.scopes@[use_scope as int]));
    lemma_resolved_scope(index, index.scopes@[use_scope as int].visible_ancestors@, name);
    let scope = resolved(index, use_scope, name)->0;
    let symbol = index.spec_symbol(scope, name)->0;
    let found = bindings(index, scope, symbol);
    let definition = found[0];
    assert(found =~= seq![definition]);
    assert(index.scope_wf(scope as int, index.scopes@[scope as int]));
    lemma_binding_of_scope(index, index.scopes@[scope as int].definitions@, symbol, 0);
    assert(definition < index.definitions.len());
    assert(stands_in_its_scope(context, scope, bindings(index, scope, symbol)[0]));

    // where the assignment stands
    let assignment = assignment_of(context, definition)->0;
    let statement = assignment.statement;
    let top = context.spec_suite()->0;
    assert(subtree(module)[0] == module);
    lemma_part_filling(module, module, Field::Body);
    let target_range = index.definitions@[definition as int].target_range;
    lemma_part_ancestors(module, top, target_range);
    let ancestors = ancestors_in(top, target_range);
    assert(ancestors[ancestors.len() - 1] == statement);
    lemma_part_nested(module, statement);
    let t = lemma_first_filling_in(statement.children@, Field::Target);
    assert(is_nested(statement.children@[t]));
    assert(statement.range.spec_contains_range(statement.children@[t].range));
    let in_suite = located(top, statement)->0;
    lemma_part_located(module, top, 0, statement);
    lemma_part_child(module, in_suite.suite, in_suite.index);
    assert(in_suite.statement() == statement);
    lemma_part_nested(module, in_suite.suite);

    // the suite its reads are in
    let suite = scope_suite(context, scope)->0;
    lemma_scope_suite_is_part(context, scope);
    lemma_part_nested(module, suite);
    assert(is_written_assignment(text, module, statement));
    assert(has_lines_to_itself(text, suite, statement)) by {
        assert forall|k: int|
            0 <= k < subtree(suite).len() && (
            #[trigger] subtree(suite)[k]).kind is ExprName implies {
            let range = subtree(suite)[k].range;
            &&& statement.range.end <= range.start ==> full_line_end_of(
                text,
                statement.range.end as int,
            ) <= range.start
            &&& range.end <= statement.range.start ==> range.end <= line_start_of(
                text,
                statement.range.start as int,
            )
        } by {
            let node = subtree(suite)[k];
            assert(subtree(suite).contains(node));
            lemma_part_of_part(module, suite, node);
            let at = subtree(module).index_of(node);
            assert(subtree(module)[at] == node);
        }
    }
    let b = lemma_first_filling_in(module.children@, Field::Body);
    assert(placed(text, module.children@[b]));
    lemma_ancestors(text, top, target_range);
    lemma_inlining_edits_apart(
        Variable { index, scope, name },
        context,
        definition,
        assignment,
        in_suite,
        suite,
        i,
        j,
    );
}

proof fn lemma_scope_suite_is_part(context: RefactorContext, scope: ScopeId)
    requires
        scope_suite(context, scope) is Some,
    ensures
        subtree(context.module).contains(scope_suite(context, scope)->0),
{
    let module = context.module;
    assert(subtree(module)[0] == module);
    match context.index.scopes@[scope as int].node {
        ScopeNode::Function(id) => {
            let below = walked_all(module.children@, Prune::Nothing);
            lemma_first_with_id(below, id);
            let function = first_with_id(below, id)->0;
            let at = below.index_of(function);
            assert(subtree(module)[at + 1] == function);
            lemma_part_filling(module, function, Field::Body);
        },
        _ => {
            lemma_part_filling(module, module, Field::Body);
        },
    }
}

/// A variable is left alone when any load of it, however deep, is in an annotation or may be of
/// another binding than its assignment, or anything removes it with `del`, or it is a module's and
/// another file refers to it.
pub proof fn law_what_would_break_is_refused(
    variable: Variable,
    context: RefactorContext,
    definition: DefinitionId,
    assignment: AssignmentModel,
    in_suite: InSuiteModel,
    suite: Node,
    path: Seq<Node>,
    use_scope: ScopeId,
)
    requires
        inline_reads(variable, context, definition, assignment, in_suite, suite) matches Some(
            Ok(_),
        ),
        variable.index == context.index,
        is_path(path),
        path.len() > 1,
        path[0] == suite,
        path.last().kind matches NodeKind::ExprName { id, .. } && id@ == variable.name,
        variable.index.spec_expression_scope(path.last().id) == Some(use_scope),
        resolved(variable.index, use_scope, variable.name) == Some(variable.scope),
    ensures
        path.last().kind matches NodeKind::ExprName { ctx, .. } && ctx != ExprContext::Del,
        path.last().kind matches NodeKind::ExprName { ctx, .. } ==> (ctx == ExprContext::Load
            ==> forall|k: int|
            1 <= k < path.len() ==> (#[trigger] path[k]).field != Field::Annotation && path[k].field
                != Field::Returns && path[k].field != Field::Raises && !(path[k].kind
                is TypeParams) && !(path[k].kind is StmtTypeAlias)),
        path.last().kind matches NodeKind::ExprName { ctx, .. } ==> (ctx == ExprContext::Load
            && use_scope == variable.scope ==> reads_exactly(
            variable.index,
            variable.scope,
            path.last().id,
            definition,
        )),
        variable.scope == GLOBAL ==> (found(
            context.checker.references@,
            assignment.target.id,
        ) matches Some(files) && forall|i: int|
            0 <= i < files@.len() ==> #[trigger] files@[i] == context.file),
{
    lemma_path_is_walked(path, Prune::Nothing);
    let nodes = subtree(suite);
    let w = nodes.index_of(path.last());
    if let NodeKind::ExprName { ctx, .. } = path.last().kind {
        if ctx == ExprContext::Del {
            assert(occurrence(
                context.index,
                variable.scope,
                variable.name,
                nodes[w],
                ExprContext::Del,
            ) is Some);
        }
        if ctx == ExprContext::Load {
            let reads = reads_under_all(variable, suite.children@, suite, false, false);
            lemma_path_rest(path);
            let rest = path.skip(1);
            let i = choose|i: int| 0 <= i < suite.children@.len() && suite.children@[i] == path[1];
            let k = lemma_read_in_type(variable, rest, suite, false, false);
            let r = lemma_read_among_all(variable, suite.children@, suite, false, false, i, k);
            lemma_not_annotated(variable, definition, reads, r);
            assert forall|k: int| 1 <= k < path.len() implies !opens_annotation(
                #[trigger] path[k],
            ) by {
                if opens_annotation(path[k]) {
                    assert(opens_annotation(rest[k - 1]));
                }
            }
            if use_scope == variable.scope {
                law_inlined_reads_see_the_assignment(variable, definition, reads, r);
            }
        }
    }
    if variable.scope == GLOBAL {
        let files = found(context.checker.references@, assignment.target.id)->0;
        assert forall|i: int| 0 <= i < files@.len() implies #[trigger] files@[i] == context.file by {
            if files@[i] != context.file {
                assert(any_other(files@, context.file));
            }
        }
    }
}

/// A load is said to be read as a type exactly when something around it is.
proof fn lemma_read_in_type(
    variable: Variable,
    path: Seq<Node>,
    parent: Node,
    in_annotation: bool,
    in_interpolation: bool,
) -> (r: int)
    requires
        is_path(path),
        occurrence(
            variable.index,
            variable.scope,
            variable.name,
            path.last(),
            ExprContext::Load,
        ) is Some,
    ensures
        ({
            let reads = reads_under(variable, path[0], parent, in_annotation, in_interpolation);
            &&& 0 <= r < reads.len()
            &&& reads[r].node == path.last()
            &&& Some(reads[r].scope) == occurrence(
                variable.index,
                variable.scope,
                variable.name,
                path.last(),
                ExprContext::Load,
            )
            &&& in_annotation ==> reads[r].in_annotation
            &&& forall|k: int|
                0 <= k < path.len() && opens_annotation(#[trigger] path[k]) ==> reads[r].in_annotation
        }),
    decreases path.len(),
{
    let node = path[0];
    let reads = reads_under(variable, node, parent, in_annotation, in_interpolation);
    let annotated = in_annotation || opens_annotation(node);
    let interpolated = in_interpolation || opens_interpolation(node);
    let below = reads_under_all(variable, node.children@, node, annotated, interpolated);
    if path.len() > 1 {
        lemma_path_rest(path);
        let rest = path.skip(1);
        let i = choose|i: int| 0 <= i < node.children@.len() && node.children@[i] == path[1];
        let k = lemma_read_in_type(variable, rest, node, annotated, interpolated);
        let m = lemma_read_among_all(variable, node.children@, node, annotated, interpolated, i, k);
        let own = reads.len() - below.len();
        assert(reads[own + m] == below[m]);
        assert forall|k: int| 0 <= k < path.len() && opens_annotation(
            #[trigger] path[k],
        ) implies reads[own + m].in_annotation by {
            if k > 0 {
                assert(opens_annotation(rest[k - 1]));
            }
        }
        own + m
    } else {
        assert(path.last() == node);
        assert(reads[0].node == node);
        0
    }
}

proof fn lemma_bound_before(
    inlined: Inlined,
    node: Node,
    use_scope: ScopeId,
    read_scope: ScopeId,
    symbol: int,
    b: int,
)
    requires
        stays_what_it_was(inlined, node),
        inlined.context.index.spec_expression_scope(node.id) == Some(use_scope),
        resolved(inlined.context.index, use_scope, name_of(node)) == Some(read_scope),
        inlined.context.index.spec_symbol(read_scope, name_of(node)) == Some(symbol),
        0 <= b < bindings(inlined.context.index, read_scope, symbol).len(),
    ensures
        read_scope == inlined.scope ==> !may_run_between(
            inlined,
            bindings(inlined.context.index, read_scope, symbol)[b],
        ),
        read_scope != inlined.scope ==> bindings(
            inlined.context.index,
            read_scope,
            symbol,
        ).len() <= 1,
{
    let index = inlined.context.index;
    let all = bindings(index, read_scope, symbol);
    match index.spec_expression_scope(node.id) {
        None => {},
        Some(used) => match resolved(index, used, name_of(node)) {
            None => {},
            Some(read) => match index.spec_symbol(read, name_of(node)) {
                None => {},
                Some(found) => {
                    assert(bindings(index, read, found) == all);
                    assert(!may_run_between(inlined, bindings(index, read, found)[b]) || read
                        != inlined.scope);
                },
            },
        },
    }
}

/// Every binding of a name that a moved value reads, in the variable's own scope, is made before
/// the assignment; and of a name it reads from another scope there is at most one.
pub proof fn law_names_are_bound_before(
    variable: Variable,
    context: RefactorContext,
    definition: DefinitionId,
    assignment: AssignmentModel,
    in_suite: InSuiteModel,
    suite: Node,
    i: int,
    use_scope: ScopeId,
    read_scope: ScopeId,
    symbol: int,
    binding: DefinitionId,
)
    requires
        inline_reads(variable, context, definition, assignment, in_suite, suite) matches Some(
            Ok(_),
        ),
        pure(assignment.value),
        0 <= i < subtree(assignment.value).len(),
        subtree(assignment.value)[i].kind is ExprName,
        ({
            let node = subtree(assignment.value)[i];
            &&& context.index.spec_expression_scope(node.id) == Some(use_scope)
            &&& resolved(context.index, use_scope, name_of(node)) == Some(read_scope)
            &&& context.index.spec_symbol(read_scope, name_of(node)) == Some(symbol)
        }),
        bindings(context.index, read_scope, symbol).contains(binding),
    ensures
        read_scope == variable.scope
            ==> context.index.definitions@[binding as int].full_range.start
            < assignment.statement.range.start,
        read_scope != variable.scope ==> bindings(context.index, read_scope, symbol).len() == 1,
{
    law_moved_value_reads_the_same(
        variable,
        context,
        definition,
        assignment,
        in_suite,
        suite,
        i,
    );
    let reads = reads_under_all(variable, suite.children@, suite, false, false);
    let inlined = Inlined {
        context,
        scope: variable.scope,
        assignment,
        has_nested_read: any_nested(reads, variable.scope),
    };
    let all = bindings(context.index, read_scope, symbol);
    lemma_bound_before(
        inlined,
        subtree(assignment.value)[i],
        use_scope,
        read_scope,
        symbol,
        all.index_of(binding),
    );
}

/// A value that is written inside a string with values in it has no quote, no backslash and no
/// line break.
pub proof fn law_values_in_strings_are_quotable(
    variable: Variable,
    context: RefactorContext,
    definition: DefinitionId,
    assignment: AssignmentModel,
    in_suite: InSuiteModel,
    suite: Node,
    path: Seq<Node>,
    i: int,
)
    requires
        inline_reads(variable, context, definition, assignment, in_suite, suite) matches Some(
            Ok(_),
        ),
        is_path(path),
        path.len() > 1,
        path[0] == suite,
        occurrence(
            variable.index,
            variable.scope,
            variable.name,
            path.last(),
            ExprContext::Load,
        ) is Some,
        exists|k: int|
            1 <= k < path.len() && ((#[trigger] path[k]).kind is ExprFString || path[k].kind
                is ExprTString),
        0 <= i < text_of(context.source@, assignment.value.range).len(),
    ensures
        ({
            let c = text_of(context.source@, assignment.value.range)[i];
            c != '"' && c != '\'' && c != '\\' && c != '\n' && c != '\r'
        }),
{
    let reads = reads_under_all(variable, suite.children@, suite, false, false);
    lemma_path_rest(path);
    let rest = path.skip(1);
    let c = choose|c: int| 0 <= c < suite.children@.len() && suite.children@[c] == path[1];
    let k = lemma_read_at(variable, rest, suite, false, false);
    let r = lemma_read_among_all(variable, suite.children@, suite, false, false, c, k);
    let at = choose|k: int|
        1 <= k < path.len() && ((#[trigger] path[k]).kind is ExprFString || path[k].kind
            is ExprTString);
    assert(opens_interpolation(rest[at - 1]));
    assert(is_interpolated(rest));
    assert(reads[r].in_interpolation);
    assert(any_interpolated(reads));
    let text = text_of(context.source@, assignment.value.range);
    assert(!is_unquotable(text));
    assert(!is_unquotable_char(text[i]));
}

} // verus!
