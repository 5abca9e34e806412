//! Extract Function / Extract Method: move selected statements into a new
//! function and call it where they were.
//!
//! What the statements read and bind is taken from the semantic index. A
//! variable of the enclosing function the statements read, and that was bound
//! before them, becomes a parameter; a variable they bind that is read after
//! them is returned and assigned at the call. Statements selected in a method
//! become a method of the same class, called through the method's receiver.
//!
//! The rewrite is refused for statements whose meaning depends on being written
//! inline: a `return`, `yield`, `break` or `continue` that leaves the selection,
//! `global` and `nonlocal`, a variable that may be unbound when the new function
//! would be called, or one assigned only on some paths and read afterwards.

use crate::edit::{inserting, replacing, text_in, Edit, EditModel};
use crate::lookup::{find, found, holds_text, texts};
use crate::name_set::{insert_name, names_of};
use crate::node::{
    child_of, children_of, height, is_path, lemma_all_filling_in, lemma_first_filling_in,
    lemma_height_child, lemma_height_child_of,
    lemma_height_children_of, lemma_path_is_walked, lemma_path_joined, lemma_path_onto,
    lemma_path_rest,
    lemma_walked_among, node_in, subtree, walk, walk_each,
    walk_nodes, walked, walked_all, ExprContext, Field, Node, NodeKind, Prune,
};
use crate::refactor::context::{
    lemma_placed_child, lemma_placed_child_of, lemma_placed_children_of, outcome, plan_one,
    plan_two, placed, planned, refused, Plan, PlanModel, Refusal, RefusalModel, RefactorContext,
};
use crate::refactor::flow::{
    may_be_unbound, may_read, reaching_definitions, resolved, resolving_scope, Reaching,
};
use crate::refactor::hazards::{context_dependent, context_dependent_construct};
use crate::refactor::names::{
    file_names, find_fresh_name, fresh, is_suffixable, is_usable, law_fresh_name_is_unused,
    lemma_file_names_finite, names_in_file,
};
use crate::refactor::text::{
    ancestors_in, before_on_line, lemma_ancestors, lemma_height_suite, lemma_placed_suite,
    lemma_suite_in,
    leading_comments, leading_comments_start, nested_suites, owns_lines, find_last_definition,
    last_definition, statement_ancestors, suites_in,
};
use crate::semantics::{
    Definition, DefinitionId, DefinitionKind, ScopeId, SemanticIndex, Symbol, GLOBAL,
};
use crate::source::{
    full_line_end, full_line_end_of, indentation_of, is_cut, is_offset, is_source, is_span,
    leading_indentation, lemma_line_end, lemma_line_start, line_end, line_end_of, line_start,
    line_start_of, slice, text_of, trim_range, trim_whitespace, trimmed, trimmed_range,
};
use crate::strings::{
    before_dot, first_component, has_prefix, join2, join3, join4, join5, join_all, joined, owned,
    repeated, same_text, starts_with, without_first,
};
use crate::text_size::{TextRange, TextSize};
use crate::tokens::{count_ending_by, ending_by, Token};
use rustc_hash::FxHashSet;
use vstd::prelude::*;
use vstd::string::{StrSliceExecFns, StringExecFns};

verus! {

broadcast use {
    lemma_height_child_of,
    lemma_height_children_of,
    lemma_placed_child_of,
    lemma_placed_children_of,
};

/// Whether `range` starts at `first` and ends at `last`, allowing the rest of
/// `last`'s line (a trailing comment) to be selected too.
pub open spec fn covers_statements(
    text: Seq<char>,
    range: TextRange,
    first: Node,
    last: Node,
) -> bool {
    &&& range.start <= first.range.start
    &&& line_start_of(text, range.start as int) == line_start_of(text, first.range.start as int)
    &&& last.range.end <= range.end <= line_end_of(text, last.range.end as int)
}

/// Whether `range` takes in part of the statement at `statement`, or all of it.
pub open spec fn overlaps(statement: TextRange, range: TextRange) -> bool {
    let start = if statement.start >= range.start { statement.start } else { range.start };
    let end = if statement.end <= range.end { statement.end } else { range.end };
    start < end || range.spec_contains_range(statement)
}

/// Those of `statements` that `range` overlaps, in order.
pub open spec fn overlapping(statements: Seq<Node>, range: TextRange) -> Seq<Node>
    decreases statements.len(),
{
    if statements.len() == 0 {
        Seq::empty()
    } else if overlaps(statements.last().range, range) {
        overlapping(statements.drop_last(), range).push(statements.last())
    } else {
        overlapping(statements.drop_last(), range)
    }
}

pub open spec fn touches(statement: TextRange, range: TextRange) -> bool {
    let start = if statement.start >= range.start { statement.start } else { range.start };
    let end = if statement.end <= range.end { statement.end } else { range.end };
    start <= end
}

/// Whether `range` touches one of `statements`.
pub open spec fn touches_any(statements: Seq<Node>, range: TextRange) -> bool {
    exists|i: int| 0 <= i < statements.len() && touches((#[trigger] statements[i]).range, range)
}

/// The first of `suites` with a statement that `range` touches.
pub open spec fn first_touched(suites: Seq<Node>, range: TextRange) -> Option<Node>
    decreases suites.len(),
{
    if suites.len() == 0 {
        None
    } else if touches_any(suites[0].children@, range) {
        Some(suites[0])
    } else {
        first_touched(suites.skip(1), range)
    }
}

proof fn lemma_first_touched(suites: Seq<Node>, range: TextRange)
    ensures
        first_touched(suites, range) matches Some(suite) ==> suites.contains(suite),
    decreases suites.len(),
{
    if suites.len() > 0 {
        if touches_any(suites[0].children@, range) {
            assert(suites.contains(suites[0]));
        } else {
            lemma_first_touched(suites.skip(1), range);
            if let Some(suite) = first_touched(suites, range) {
                let k = choose|k: int| 0 <= k < suites.skip(1).len() && suites.skip(1)[k] == suite;
                assert(suites[k + 1] == suite);
            }
        }
    }
}

proof fn lemma_overlapping(statements: Seq<Node>, range: TextRange, i: int) -> (k: int)
    requires
        0 <= i < overlapping(statements, range).len(),
    ensures
        0 <= k < statements.len(),
        overlapping(statements, range)[i] == statements[k],
    decreases statements.len(),
{
    let before = overlapping(statements.drop_last(), range);
    if i < before.len() {
        let k = lemma_overlapping(statements.drop_last(), range, i);
        assert(statements.drop_last()[k] == statements[k]);
        k
    } else {
        statements.len() - 1
    }
}

pub proof fn lemma_inner_suite_height(suite: Node, range: TextRange)
    ensures
        overlapping(suite.children@, range).len() > 0 ==> (first_touched(
            suites_in(overlapping(suite.children@, range)[0]),
            range,
        ) matches Some(nested) ==> height(nested) < height(suite)),
{
    let statements = overlapping(suite.children@, range);
    if statements.len() > 0 {
        let k = lemma_overlapping(suite.children@, range, 0);
        lemma_height_child(suite, k);
        lemma_first_touched(suites_in(statements[0]), range);
        if let Some(nested) = first_touched(suites_in(statements[0]), range) {
            let j = choose|j: int|
                0 <= j < suites_in(statements[0]).len() && suites_in(statements[0])[j] == nested;
            lemma_height_suite(statements[0], j);
        }
    }
}

/// Whole statements of `suite`, or of a suite nested in it, that `range` covers.
pub open spec fn covered_in(text: Seq<char>, suite: Node, range: TextRange) -> Option<Seq<Node>>
    decreases height(suite),
{
    let statements = overlapping(suite.children@, range);
    proof {
        lemma_inner_suite_height(suite, range);
    }
    if statements.len() == 0 {
        None
    } else if statements.len() == 1 && !covers_statements(
        text,
        range,
        statements[0],
        statements[0],
    ) {
        // the selection is inside one statement: look in its suites
        match first_touched(suites_in(statements[0]), range) {
            Some(nested) => covered_in(text, nested, range),
            None => None,
        }
    } else if !covers_statements(text, range, statements[0], statements.last()) {
        None
    } else if exists|i: int|
        0 <= i < statements.len() && !owns_lines(text, (#[trigger] statements[i]).range) {
        None
    } else {
        Some(statements)
    }
}

/// Whole statements, siblings in one suite, that the selection covers.
pub open spec fn selected_statements(context: RefactorContext, range: TextRange) -> Option<
    Seq<Node>,
> {
    match trimmed_range(context.source@, range) {
        Some(range) => match context.spec_suite() {
            Some(suite) => covered_in(context.source@, suite, range),
            None => None,
        },
        None => None,
    }
}

/// The statements covered are not none, and cover the text when the suite does.
proof fn lemma_covered(text: Seq<char>, suite: Node, range: TextRange)
    requires
        placed(text, suite),
    ensures
        covered_in(text, suite, range) matches Some(statements) ==> statements.len() > 0
            && forall|i: int|
            0 <= i < statements.len() ==> placed(text, #[trigger] statements[i]),
    decreases height(suite),
{
    let statements = overlapping(suite.children@, range);
    lemma_inner_suite_height(suite, range);
    assert forall|i: int| 0 <= i < statements.len() implies placed(
        text,
        #[trigger] statements[i],
    ) by {
        let k = lemma_overlapping(suite.children@, range, i);
        lemma_placed_child(text, suite, k);
    }
    if statements.len() > 0 {
        if let Some(nested) = first_touched(suites_in(statements[0]), range) {
            lemma_first_touched(suites_in(statements[0]), range);
            let j = choose|j: int|
                0 <= j < suites_in(statements[0]).len() && suites_in(statements[0])[j] == nested;
            lemma_placed_suite(text, statements[0], j);
            lemma_covered(text, nested, range);
        }
    }
}

fn range_overlaps(statement: TextRange, range: TextRange) -> (found: bool)
    ensures
        found == overlaps(statement, range),
{
    let shared = match statement.intersect(range) {
        Some(shared) => shared.start != shared.end,
        None => false,
    };
    shared || range.contains_range(statement)
}

fn overlapping_statements<'a>(suite: &'a Node, range: TextRange) -> (found: Vec<&'a Node>)
    ensures
        found@.unref() == overlapping(suite.children@, range),
{
    let statements = &suite.children;
    let mut found: Vec<&'a Node> = Vec::new();
    let mut i: usize = 0;
    assert(found@.unref() =~= overlapping(statements@.take(0), range));
    while i < statements.len()
        invariant
            i <= statements.len(),
            found@.unref() == overlapping(statements@.take(i as int), range),
        decreases statements.len() - i,
    {
        assert(statements@.take(i + 1).drop_last() =~= statements@.take(i as int));
        assert(statements@.take(i + 1).last() == statements@[i as int]);
        if range_overlaps(statements[i].range, range) {
            let ghost before = found@;
            found.push(&statements[i]);
            assert(found@.unref() =~= before.unref().push(statements@[i as int]));
        }
        i += 1;
    }
    assert(statements@.take(i as int) =~= statements@);
    found
}

fn any_touched(statements: &Vec<Node>, range: TextRange) -> (touched: bool)
    ensures
        touched == touches_any(statements@, range),
{
    let mut i: usize = 0;
    while i < statements.len()
        invariant
            i <= statements.len(),
            forall|j: int| 0 <= j < i ==> !touches((#[trigger] statements@[j]).range, range),
        decreases statements.len() - i,
    {
        if statements[i].range.intersect(range).is_some() {
            assert(touches(statements@[i as int].range, range));
            return true;
        }
        i += 1;
    }
    false
}

fn touched_suite<'a>(suites: &Vec<&'a Node>, range: TextRange) -> (found: Option<&'a Node>)
    ensures
        node_in(found) == first_touched(suites@.unref(), range),
{
    let ghost all = suites@.unref();
    let mut i: usize = 0;
    assert(all.skip(0) =~= all);
    while i < suites.len()
        invariant
            i <= suites.len(),
            all == suites@.unref(),
            first_touched(all, range) == first_touched(all.skip(i as int), range),
        decreases suites.len() - i,
    {
        assert(*suites@[i as int] == all[i as int]);
        assert(all.skip(i as int)[0] == all[i as int]);
        assert(all.skip(i as int).skip(1) =~= all.skip(i + 1));
        if any_touched(&suites[i].children, range) {
            return Some(suites[i]);
        }
        i += 1;
    }
    None
}

/// Whether `range` starts at `first` and ends at `last`, allowing the rest of
/// `last`'s line (a trailing comment) to be selected too.
fn covers(source: &str, range: TextRange, first: &Node, last: &Node) -> (covers: bool)
    requires
        is_source(source@),
        is_cut(source@, range),
        is_span(source@, first.range),
        is_span(source@, last.range),
    ensures
        covers == covers_statements(source@, range, *first, *last),
{
    range.start <= first.range.start && line_start(source, range.start) == line_start(
        source,
        first.range.start,
    ) && range.end >= last.range.end && range.end <= line_end(source, last.range.end)
}

fn select_in<'a>(context: &RefactorContext, suite: &'a Node, range: TextRange) -> (found: Option<
    Vec<&'a Node>,
>)
    requires
        context.wf(),
        placed(context.source@, *suite),
        is_cut(context.source@, range),
    ensures
        match found {
            Some(statements) => covered_in(context.source@, *suite, range) == Some(
                statements@.unref(),
            ),
            None => covered_in(context.source@, *suite, range) is None,
        },
    decreases height(*suite),
{
    let source = context.source.as_str();
    let statements = overlapping_statements(suite, range);
    let ghost all = overlapping(suite.children@, range);
    proof {
        lemma_inner_suite_height(*suite, range);
        assert forall|i: int| 0 <= i < all.len() implies placed(
            context.source@,
            #[trigger] all[i],
        ) by {
            let k = lemma_overlapping(suite.children@, range, i);
            lemma_placed_child(context.source@, *suite, k);
        }
    }
    if statements.len() == 0 {
        return None;
    }
    let first = statements[0];
    let last = statements[statements.len() - 1];
    assert(*first == all[0]);
    assert(*last == all[all.len() - 1]);
    if statements.len() == 1 && !covers(source, range, first, first) {
        return match touched_suite(&nested_suites(first), range) {
            Some(nested) => {
                proof {
                    lemma_first_touched(suites_in(*first), range);
                    let j = choose|j: int|
                        0 <= j < suites_in(*first).len() && suites_in(*first)[j] == *nested;
                    lemma_placed_suite(context.source@, *first, j);
                }
                select_in(context, nested, range)
            },
            None => None,
        };
    }
    if !covers(source, range, first, last) {
        return None;
    }
    let mut i: usize = 0;
    while i < statements.len()
        invariant
            i <= statements.len(),
            context.wf(),
            statements@.unref() == all,
            forall|j: int| 0 <= j < all.len() ==> placed(context.source@, #[trigger] all[j]),
            forall|j: int|
                0 <= j < i ==> owns_lines(context.source@, (#[trigger] all[j]).range),
            all.len() > 0,
            all == overlapping(suite.children@, range),
            covers_statements(context.source@, range, all[0], all.last()),
            !(all.len() == 1 && !covers_statements(context.source@, range, all[0], all[0])),
        decreases statements.len() - i,
    {
        assert(*statements@[i as int] == all[i as int]);
        if !context.owns_its_lines(statements[i].range) {
            assert(!owns_lines(context.source@, all[i as int].range));
            return None;
        }
        i += 1;
    }
    Some(statements)
}

/// Whole statements, siblings in one suite, that the selection covers.
fn select_statements<'a>(context: &'a RefactorContext, range: TextRange) -> (found: Option<
    Vec<&'a Node>,
>)
    requires
        context.wf(),
    ensures
        match found {
            Some(statements) => selected_statements(*context, range) == Some(
                statements@.unref(),
            ),
            None => selected_statements(*context, range) is None,
        },
        found matches Some(statements) ==> statements.len() > 0 && forall|i: int|
            0 <= i < statements.len() ==> placed(context.source@, *#[trigger] statements@[i]),
{
    let range = match trim_range(context.source.as_str(), range) {
        Some(range) => range,
        None => {
            return None;
        },
    };
    let suite = match context.suite() {
        Some(suite) => suite,
        None => {
            return None;
        },
    };
    let found = select_in(context, suite, range);
    proof {
        lemma_covered(context.source@, *suite, range);
        if let Some(ref statements) = found {
            assert forall|i: int| 0 <= i < statements.len() implies placed(
                context.source@,
                *#[trigger] statements@[i],
            ) by {
                assert(statements@.unref()[i] == *statements@[i]);
            }
        }
    }
    found
}

/// The receiver a method is called through, and whether that is the class.
#[derive(Debug)]
pub struct Method {
    pub receiver: String,
    pub kind: MethodKind,
}

#[derive(Debug, Clone, Copy, PartialEq, Eq, Structural)]
pub enum MethodKind {
    Instance,
    Class,
}

/// A [`Method`] as a mathematical value.
pub ghost struct MethodModel {
    pub receiver: Seq<char>,
    pub kind: MethodKind,
}

impl View for Method {
    type V = MethodModel;

    open spec fn view(&self) -> MethodModel {
        MethodModel { receiver: self.receiver@, kind: self.kind }
    }
}

/// The name `decorator` is, when it is one.
pub open spec fn decorator_name(decorator: Node) -> Option<Seq<char>> {
    match child_of(decorator, Field::Expression) {
        Some(expression) => match expression.kind {
            NodeKind::ExprName { id, .. } => Some(id@),
            _ => None,
        },
        None => None,
    }
}

/// Whether `function` is decorated with `name`.
pub open spec fn is_decorated(function: Node, name: Seq<char>) -> bool {
    exists|i: int|
        0 <= i < children_of(function, Field::Decorator).len() && decorator_name(
            #[trigger] children_of(function, Field::Decorator)[i],
        ) == Some(name)
}

/// The first parameter of `function` that can be passed by position.
pub open spec fn first_positional(function: Node) -> Option<Node> {
    match child_of(function, Field::Parameters) {
        Some(parameters) => match child_of(parameters, Field::PositionalOnly) {
            Some(parameter) => Some(parameter),
            None => child_of(parameters, Field::Parameter),
        },
        None => None,
    }
}

/// The name of `function`'s receiver.
pub open spec fn receiver_of(function: Node) -> Option<Seq<char>> {
    match first_positional(function) {
        Some(parameter) => match parameter.kind {
            NodeKind::Parameter { name, .. } => Some(name@),
            _ => None,
        },
        None => None,
    }
}

/// How a new method is called from `function`, or why it cannot be.
pub open spec fn method_of(function: Node) -> Result<MethodModel, RefusalModel> {
    if is_decorated(function, "staticmethod"@) || is_decorated(function, "static"@) {
        Err(
            RefusalModel::Refused {
                title: "Extract method"@,
                reason: "a static method has no receiver to call a new method through"@,
            },
        )
    } else {
        match receiver_of(function) {
            Some(receiver) => Ok(
                MethodModel {
                    receiver,
                    kind: if is_decorated(function, "classmethod"@) {
                        MethodKind::Class
                    } else {
                        MethodKind::Instance
                    },
                },
            ),
            None => Err(
                RefusalModel::Refused {
                    title: "Extract method"@,
                    reason: "the method has no receiver parameter"@,
                },
            ),
        }
    }
}

/// Whether `function` is decorated with `name`.
pub fn has_decorator(function: &Node, name: &str) -> (decorated: bool)
    ensures
        decorated == is_decorated(*function, name@),
{
    let decorators = function.children_filling(Field::Decorator);
    let ghost all = children_of(*function, Field::Decorator);
    let mut i: usize = 0;
    while i < decorators.len()
        invariant
            i <= decorators.len(),
            decorators@.unref() == all,
            all == children_of(*function, Field::Decorator),
            forall|j: int|
                0 <= j < i ==> decorator_name(
                    #[trigger] children_of(*function, Field::Decorator)[j],
                ) != Some(name@),
        decreases decorators.len() - i,
    {
        assert(*decorators@[i as int] == all[i as int]);
        if let Some(expression) = decorators[i].child(Field::Expression) {
            if let NodeKind::ExprName { id, .. } = &expression.kind {
                if same_text(id.as_str(), name) {
                    assert(decorator_name(children_of(*function, Field::Decorator)[i as int])
                        == Some(name@));
                    return true;
                }
            }
        }
        i += 1;
    }
    false
}

/// The first parameter of `function` that can be passed by position.
pub fn first_positional_parameter(function: &Node) -> (parameter: Option<&Node>)
    ensures
        node_in(parameter) == first_positional(*function),
{
    match function.child(Field::Parameters) {
        Some(parameters) => match parameters.child(Field::PositionalOnly) {
            Some(parameter) => Some(parameter),
            None => parameters.child(Field::Parameter),
        },
        None => None,
    }
}

impl Method {
    pub fn of(function: &Node) -> (method: Result<Method, Refusal>)
        ensures
            match method {
                Ok(method) => method_of(*function) == Ok::<MethodModel, RefusalModel>(method@),
                Err(refusal) => method_of(*function) == Err::<MethodModel, RefusalModel>(
                    refusal@,
                ),
            },
    {
        if has_decorator(function, "staticmethod") || has_decorator(function, "static") {
            return Err(
                Refusal::refused(
                    "Extract method",
                    "a static method has no receiver to call a new method through",
                ),
            );
        }
        let kind = if has_decorator(function, "classmethod") {
            MethodKind::Class
        } else {
            MethodKind::Instance
        };
        if let Some(parameter) = first_positional_parameter(function) {
            if let NodeKind::Parameter { name, .. } = &parameter.kind {
                return Ok(Method { receiver: owned(name.as_str()), kind });
            }
        }
        Err(Refusal::refused("Extract method", "the method has no receiver parameter"))
    }
}

/// Why `node` itself cannot be moved into a function, inside a loop of the statements or not:
/// it leaves the statements, or only means something where it is.
pub open spec fn own_leaving(node: Node, in_loop: bool) -> Option<Seq<char>> {
    match node.kind {
        NodeKind::StmtReturn => Some("the statements `return`"@),
        NodeKind::ExprYield | NodeKind::ExprYieldFrom => Some("the statements `yield`"@),
        NodeKind::StmtGlobal | NodeKind::StmtNonlocal => Some(
            "the statements declare `global` or `nonlocal`"@,
        ),
        NodeKind::StmtBreak { has_value } => if !in_loop || has_value {
            Some("the statements `break` out of a loop around them"@)
        } else {
            None
        },
        NodeKind::StmtContinue => if !in_loop {
            Some("the statements `continue` a loop around them"@)
        } else {
            None
        },
        NodeKind::StmtLet => Some(
            "a `let` pattern statement leaves its suite when it does not match"@,
        ),
        NodeKind::StmtDelete => Some("the statements delete a variable"@),
        _ => None,
    }
}

pub open spec fn is_loop(node: Node) -> bool {
    node.kind is StmtFor || node.kind is StmtWhile
}

/// Why `node` cannot be moved into a function, for the first thing in it that says so. A nested
/// scope's control flow is its own. A loop's `break` and `continue` are its body's; the ones in
/// its `else` belong to the loop around it.
pub open spec fn leaving(node: Node, in_loop: bool) -> Option<Seq<char>>
    decreases node, 1int,
{
    if Prune::Scopes.spec_skips(node) {
        None
    } else {
        match own_leaving(node, in_loop) {
            Some(reason) => Some(reason),
            None => leaving_any(node.children@, is_loop(node), in_loop),
        }
    }
}

/// Why the first of `nodes` that cannot be moved cannot, where they are the children of a loop or
/// not.
pub open spec fn leaving_any(nodes: Seq<Node>, of_loop: bool, in_loop: bool) -> Option<Seq<char>>
    decreases nodes, 0int,
{
    if nodes.len() == 0 {
        None
    } else {
        match leaving_any(nodes.drop_last(), of_loop, in_loop) {
            Some(reason) => Some(reason),
            None => leaving(nodes.last(), in_loop || of_loop && nodes.last().field == Field::Body),
        }
    }
}

/// Whether `node` itself awaits.
pub open spec fn own_awaits(node: Node) -> bool {
    match node.kind {
        NodeKind::ExprAwait => true,
        NodeKind::StmtWith { is_async } => is_async,
        NodeKind::Comprehension { is_async } => is_async,
        NodeKind::StmtFor { is_async } => is_async,
        _ => false,
    }
}

/// Whether anything in `statements` awaits, outside a nested scope.
pub open spec fn any_awaits(statements: Seq<Node>) -> bool {
    exists|i: int|
        0 <= i < walked_all(statements, Prune::Scopes).len() && own_awaits(
            #[trigger] walked_all(statements, Prune::Scopes)[i],
        )
}

fn leaves_itself(node: &Node, in_loop: bool) -> (reason: Option<&'static str>)
    ensures
        match reason {
            Some(reason) => own_leaving(*node, in_loop) == Some(reason@),
            None => own_leaving(*node, in_loop) is None,
        },
{
    match &node.kind {
        NodeKind::StmtReturn => Some("the statements `return`"),
        NodeKind::ExprYield | NodeKind::ExprYieldFrom => Some("the statements `yield`"),
        NodeKind::StmtGlobal | NodeKind::StmtNonlocal => Some(
            "the statements declare `global` or `nonlocal`",
        ),
        NodeKind::StmtBreak { has_value } => {
            if !in_loop || *has_value {
                Some("the statements `break` out of a loop around them")
            } else {
                None
            }
        },
        NodeKind::StmtContinue => {
            if !in_loop {
                Some("the statements `continue` a loop around them")
            } else {
                None
            }
        },
        NodeKind::StmtLet => Some(
            "a `let` pattern statement leaves its suite when it does not match",
        ),
        NodeKind::StmtDelete => Some("the statements delete a variable"),
        _ => None,
    }
}

fn leaves(node: &Node, in_loop: bool) -> (reason: Option<&'static str>)
    ensures
        match reason {
            Some(reason) => leaving(*node, in_loop) == Some(reason@),
            None => leaving(*node, in_loop) is None,
        },
    decreases node,
{
    if matches!(node.kind, NodeKind::StmtFunctionDef { .. }) || matches!(
        node.kind,
        NodeKind::StmtClassDef { .. }
    ) || matches!(node.kind, NodeKind::ExprLambda) {
        return None;
    }
    let own = leaves_itself(node, in_loop);
    if own.is_some() {
        return own;
    }
    let of_loop = matches!(node.kind, NodeKind::StmtFor { .. }) || matches!(
        node.kind,
        NodeKind::StmtWhile
    );
    let children = &node.children;
    let mut i: usize = 0;
    while i < children.len()
        invariant
            i <= children.len(),
            children == node.children,
            leaving_any(children@.take(i as int), of_loop, in_loop) is None,
            leaving(*node, in_loop) == leaving_any(node.children@, of_loop, in_loop),
        decreases children.len() - i,
    {
        assert(children@.take(i + 1).drop_last() =~= children@.take(i as int));
        assert(children@.take(i + 1).last() == children@[i as int]);
        let reason = leaves(
            &children[i],
            in_loop || of_loop && children[i].field == Field::Body,
        );
        if reason.is_some() {
            proof {
                lemma_leaving_stays(children@, i + 1, of_loop, in_loop);
            }
            return reason;
        }
        i += 1;
    }
    assert(children@.take(i as int) =~= children@);
    None
}

/// What cannot be moved among the first nodes cannot be moved among all of them.
proof fn lemma_leaving_stays(nodes: Seq<Node>, upto: int, of_loop: bool, in_loop: bool)
    requires
        0 <= upto <= nodes.len(),
        leaving_any(nodes.take(upto), of_loop, in_loop) is Some,
    ensures
        leaving_any(nodes, of_loop, in_loop) == leaving_any(nodes.take(upto), of_loop, in_loop),
    decreases nodes.len() - upto,
{
    if upto < nodes.len() {
        assert(nodes.take(upto + 1).drop_last() =~= nodes.take(upto));
        lemma_leaving_stays(nodes, upto + 1, of_loop, in_loop);
    } else {
        assert(nodes.take(upto) =~= nodes);
    }
}

/// Why `statements` cannot be moved into a function, for the first thing in them that says so.
fn control_flow_leaving(statements: &Vec<&Node>) -> (reason: Option<&'static str>)
    ensures
        match reason {
            Some(reason) => leaving_any(statements@.unref(), false, false) == Some(reason@),
            None => leaving_any(statements@.unref(), false, false) is None,
        },
{
    let ghost all = statements@.unref();
    let mut i: usize = 0;
    while i < statements.len()
        invariant
            i <= statements.len(),
            all == statements@.unref(),
            leaving_any(all.take(i as int), false, false) is None,
        decreases statements.len() - i,
    {
        assert(all.take(i + 1).drop_last() =~= all.take(i as int));
        assert(all.take(i + 1).last() == *statements@[i as int]);
        let reason = leaves(statements[i], false);
        if reason.is_some() {
            proof {
                lemma_leaving_stays(all, i + 1, false, false);
            }
            return reason;
        }
        i += 1;
    }
    assert(all.take(i as int) =~= all);
    None
}

/// Whether anything in `statements` awaits, outside a nested scope.
fn awaits(statements: &Vec<&Node>) -> (awaits: bool)
    ensures
        awaits == any_awaits(statements@.unref()),
{
    let nodes = walk_each(statements, Prune::Scopes);
    let ghost all = walked_all(statements@.unref(), Prune::Scopes);
    let mut i: usize = 0;
    while i < nodes.len()
        invariant
            i <= nodes.len(),
            nodes@.unref() == all,
            all == walked_all(statements@.unref(), Prune::Scopes),
            forall|j: int|
                0 <= j < i ==> !own_awaits(
                    #[trigger] walked_all(statements@.unref(), Prune::Scopes)[j],
                ),
        decreases nodes.len() - i,
    {
        assert(*nodes@[i as int] == all[i as int]);
        let here = match &nodes[i].kind {
            NodeKind::ExprAwait => true,
            NodeKind::StmtWith { is_async } => *is_async,
            NodeKind::Comprehension { is_async } => *is_async,
            NodeKind::StmtFor { is_async } => *is_async,
            _ => false,
        };
        if here {
            assert(own_awaits(walked_all(statements@.unref(), Prune::Scopes)[i as int]));
            return true;
        }
        i += 1;
    }
    false
}

/// A load of a variable.
#[derive(Debug, Clone, Copy)]
pub struct Read<'a> {
    pub node: &'a Node,
    /// The load is in a scope nested in the enclosing one, so it runs whenever
    /// that scope runs rather than where it is written.
    pub nested: bool,
}

/// A [`Read`] as a mathematical value.
pub ghost struct ReadModel {
    pub node: Node,
    pub nested: bool,
}

impl<'a> View for Read<'a> {
    type V = ReadModel;

    open spec fn view(&self) -> ReadModel {
        ReadModel { node: *self.node, nested: self.nested }
    }
}

pub open spec fn read_models(reads: Seq<Read<'_>>) -> Seq<ReadModel> {
    reads.map_values(|read: Read<'_>| read@)
}

/// The name a node loads, when it loads one.
pub open spec fn loaded_name(node: Node) -> Option<Seq<char>> {
    match node.kind {
        NodeKind::ExprName { id, ctx } => if ctx == ExprContext::Load {
            Some(id@)
        } else {
            None
        },
        _ => None,
    }
}

/// The scope the load `node` is made in, when it reads a variable of `scope`.
pub open spec fn reading_scope(index: SemanticIndex, scope: ScopeId, node: Node) -> Option<
    ScopeId,
> {
    match loaded_name(node) {
        Some(name) => match index.spec_expression_scope(node.id) {
            Some(use_scope) => if resolved(index, use_scope, name) == Some(scope) {
                Some(use_scope)
            } else {
                None
            },
            None => None,
        },
        None => None,
    }
}

/// The loads, among `nodes`, of names that resolve to `scope`, in order.
pub open spec fn reads_among(index: SemanticIndex, scope: ScopeId, nodes: Seq<Node>) -> Seq<
    ReadModel,
>
    decreases nodes.len(),
{
    if nodes.len() == 0 {
        Seq::empty()
    } else {
        let before = reads_among(index, scope, nodes.drop_last());
        match reading_scope(index, scope, nodes.last()) {
            Some(use_scope) => before.push(
                ReadModel { node: nodes.last(), nested: use_scope != scope },
            ),
            None => before,
        }
    }
}

/// The loads, in `statements` but not in `excluded`, of names that resolve to `scope`.
pub open spec fn reads_in(
    index: SemanticIndex,
    scope: ScopeId,
    statements: Seq<Node>,
    excluded: TextRange,
) -> Seq<ReadModel> {
    reads_among(index, scope, walked_all(statements, Prune::Within(excluded)))
}

/// Every read is a load of a name.
proof fn lemma_reads_load(index: SemanticIndex, scope: ScopeId, nodes: Seq<Node>, i: int)
    requires
        0 <= i < reads_among(index, scope, nodes).len(),
    ensures
        loaded_name(reads_among(index, scope, nodes)[i].node) is Some,
    decreases nodes.len(),
{
    let before = reads_among(index, scope, nodes.drop_last());
    if i < before.len() {
        lemma_reads_load(index, scope, nodes.drop_last(), i);
        assert(reads_among(index, scope, nodes)[i] == before[i]);
    }
}

fn collect_reads<'a>(index: &SemanticIndex, scope: ScopeId, nodes: &Vec<&'a Node>) -> (reads: Vec<
    Read<'a>,
>)
    requires
        index.wf(),
    ensures
        read_models(reads@) == reads_among(*index, scope, nodes@.unref()),
{
    let ghost all = nodes@.unref();
    let mut reads: Vec<Read<'a>> = Vec::new();
    let mut i: usize = 0;
    assert(read_models(reads@) =~= reads_among(*index, scope, all.take(0)));
    while i < nodes.len()
        invariant
            i <= nodes.len(),
            index.wf(),
            all == nodes@.unref(),
            read_models(reads@) == reads_among(*index, scope, all.take(i as int)),
        decreases nodes.len() - i,
    {
        assert(all.take(i + 1).drop_last() =~= all.take(i as int));
        assert(all.take(i + 1).last() == *nodes@[i as int]);
        let node = nodes[i];
        if let NodeKind::ExprName { id, ctx } = &node.kind {
            if *ctx == ExprContext::Load {
                if let Some(use_scope) = index.expression_scope(node.id) {
                    if resolving_scope(index, use_scope, id.as_str()) == Some(scope) {
                        let ghost before = reads@;
                        let read = Read { node, nested: use_scope != scope };
                        reads.push(read);
                        assert(read_models(reads@) =~= read_models(before).push(read@));
                    }
                }
            }
        }
        i += 1;
    }
    assert(all.take(i as int) =~= all);
    reads
}

/// Whether `definition` binds a name of its scope inside `selected`.
pub open spec fn is_bound_here(definition: Definition, selected: TextRange) -> bool {
    &&& definition.symbol is Some
    &&& definition.kind != DefinitionKind::LoopHeader
    &&& definition.kind != DefinitionKind::NestedBindings
    &&& selected.spec_contains_range(definition.target_range)
}

/// What those of `definitions` made inside `selected` bind, or why the statements there cannot
/// be moved.
pub open spec fn bound_among(
    index: SemanticIndex,
    symbols: Seq<Symbol>,
    definitions: Seq<DefinitionId>,
    selected: TextRange,
) -> Result<Seq<(Seq<char>, DefinitionId)>, Seq<char>>
    decreases definitions.len(),
{
    if definitions.len() == 0 {
        Ok(Seq::empty())
    } else {
        match bound_among(index, symbols, definitions.drop_last(), selected) {
            Err(reason) => Err(reason),
            Ok(before) => {
                let definition = index.definitions@[definitions.last() as int];
                if !is_bound_here(definition, selected) {
                    Ok(before)
                } else {
                    let symbol = symbols[definition.symbol->0 as int];
                    if symbol.is_global || symbol.is_nonlocal {
                        Err(
                            "`"@ + symbol.name@
                                + "` is declared `global` or `nonlocal`, so assigning it inside a new function would need the same declaration"@,
                        )
                    } else {
                        Ok(before.push((symbol.name@, definitions.last())))
                    }
                }
            },
        }
    }
}

/// What the statements at `selected` bind in `scope`, or why they cannot be moved.
pub open spec fn bound_in(index: SemanticIndex, scope: ScopeId, selected: TextRange) -> Result<
    Seq<(Seq<char>, DefinitionId)>,
    Seq<char>,
> {
    let scope = index.scopes@[scope as int];
    bound_among(index, scope.symbols@, scope.definitions@, selected)
}

pub open spec fn binds_name(bound: Seq<(Seq<char>, DefinitionId)>, name: Seq<char>) -> bool {
    exists|i: int| 0 <= i < bound.len() && (#[trigger] bound[i]).0 == name
}

/// Whether `name` has a binding in `scope` outside `selected`.
pub open spec fn bound_outside(
    index: SemanticIndex,
    scope: ScopeId,
    name: Seq<char>,
    selected: TextRange,
) -> bool {
    &&& index.spec_symbol(scope, name) matches Some(symbol)
    &&& exists|i: int|
        0 <= i < index.scopes@[scope as int].definitions@.len() && defines_outside(
            index.definitions@[#[trigger] index.scopes@[scope as int].definitions@[i] as int],
            symbol,
            selected,
        )
}

pub open spec fn defines_outside(definition: Definition, symbol: int, selected: TextRange) -> bool {
    &&& definition.symbol matches Some(defined)
    &&& defined == symbol
    &&& definition.kind != DefinitionKind::LoopHeader
    &&& !selected.spec_contains_range(definition.target_range)
}

/// Whether the load `node` in `scope` may read a definition made outside `selected`.
pub open spec fn reads_outside(
    index: SemanticIndex,
    scope: ScopeId,
    node: u32,
    selected: TextRange,
) -> bool {
    exists|definition: DefinitionId| #[trigger]
        may_read(index, scope, node, definition) && !selected.spec_contains_range(
            index.definitions@[definition as int].target_range,
        )
}

pub open spec fn with_name(names: Seq<Seq<char>>, name: Seq<char>) -> Seq<Seq<char>> {
    if names.contains(name) {
        names
    } else {
        names.push(name)
    }
}

/// What the new function reads and binds of the scope around the statements.
pub ghost struct Surroundings {
    pub index: SemanticIndex,
    pub scope: ScopeId,
    pub selected: TextRange,
    pub receiver: Option<Seq<char>>,
    pub bound: Seq<(Seq<char>, DefinitionId)>,
}

/// The parameters once `read` has been looked at, or why the statements cannot be moved.
pub open spec fn parameters_with(
    around: Surroundings,
    parameters: Seq<Seq<char>>,
    read: ReadModel,
) -> Result<Seq<Seq<char>>, Seq<char>> {
    let name = loaded_name(read.node)->0;
    let bound = binds_name(around.bound, name);
    let is_module = around.scope == GLOBAL;
    if around.receiver == Some(name) {
        if bound {
            Err("the statements assign the receiver `"@ + name + "`"@)
        } else {
            Ok(parameters)
        }
    } else if read.nested {
        let outside = bound_outside(around.index, around.scope, name, around.selected);
        if is_module && bound {
            Err(
                "a function defined in the statements reads `"@ + name
                    + "`, which would become a variable of the new function"@,
            )
        } else if is_module {
            Ok(parameters)
        } else if outside && bound {
            Err(
                "a function defined in the statements reads `"@ + name
                    + "`, which is assigned both inside and outside them"@,
            )
        } else if outside {
            Ok(with_name(parameters, name))
        } else {
            Ok(parameters)
        }
    } else if !reads_outside(around.index, around.scope, read.node.id, around.selected) {
        Ok(parameters)
    } else if is_module && !bound {
        // a module's variable is read where it is when nothing in the statements
        // makes it local to the new function
        Ok(parameters)
    } else if may_be_unbound(around.index, around.scope, read.node.id) {
        Err("`"@ + name + "` may be unbound where the new function would be called"@)
    } else {
        Ok(with_name(parameters, name))
    }
}

/// The parameters of the new function, in the order the statements read them, or why the
/// statements cannot be moved.
pub open spec fn parameters_of(around: Surroundings, reads: Seq<ReadModel>) -> Result<
    Seq<Seq<char>>,
    Seq<char>,
>
    decreases reads.len(),
{
    if reads.len() == 0 {
        Ok(Seq::empty())
    } else {
        match parameters_of(around, reads.drop_last()) {
            Err(reason) => Err(reason),
            Ok(parameters) => parameters_with(around, parameters, reads.last()),
        }
    }
}

/// Whether `target` binds `name`.
pub open spec fn target_binds_name(target: Node, name: Seq<char>) -> bool
    decreases height(target),
{
    match target.kind {
        NodeKind::ExprName { id, .. } => id@ == name,
        NodeKind::ExprTuple { .. } | NodeKind::ExprList { .. } => exists|i: int|
            0 <= i < children_of(target, Field::Elt).len() && target_binds_name(
                #[trigger] children_of(target, Field::Elt)[i],
                name,
            ),
        NodeKind::ExprStarred => match child_of(target, Field::Value) {
            Some(value) => target_binds_name(value, name),
            None => false,
        },
        _ => false,
    }
}

/// Whether importing `alias` binds `name`, in a `from` import or a plain one.
pub open spec fn alias_binds(alias: Node, name: Seq<char>, from: bool) -> bool {
    match alias.kind {
        NodeKind::Alias { name: imported, asname, .. } => match asname {
            Some(asname) => asname@ == name,
            None => if from {
                imported@ == name
            } else {
                before_dot(imported@) == name
            },
        },
        _ => false,
    }
}

pub open spec fn any_alias_binds(aliases: Seq<Node>, name: Seq<char>, from: bool) -> bool {
    exists|i: int| 0 <= i < aliases.len() && alias_binds(#[trigger] aliases[i], name, from)
}

pub open spec fn any_target_binds(targets: Seq<Node>, name: Seq<char>) -> bool {
    exists|i: int| 0 <= i < targets.len() && target_binds_name(#[trigger] targets[i], name)
}

/// Whether `statement` unconditionally binds `name` to a value.
pub open spec fn surely_binds(statement: Node, name: Seq<char>) -> bool {
    match statement.kind {
        NodeKind::StmtAssign => any_target_binds(children_of(statement, Field::Target), name),
        NodeKind::StmtAugAssign => match child_of(statement, Field::Target) {
            Some(target) => target_binds_name(target, name),
            None => false,
        },
        NodeKind::StmtAnnAssign { .. } => match child_of(statement, Field::Target) {
            Some(target) => child_of(statement, Field::Value) is Some && target_binds_name(
                target,
                name,
            ),
            None => false,
        },
        NodeKind::StmtFunctionDef { name: defined, .. } => defined@ == name,
        NodeKind::StmtClassDef { name: defined, .. } => defined@ == name,
        NodeKind::StmtImport => any_alias_binds(children_of(statement, Field::Name), name, false),
        NodeKind::StmtImportFrom { .. } => any_alias_binds(
            children_of(statement, Field::Name),
            name,
            true,
        ),
        _ => false,
    }
}

/// Whether one of `statements` unconditionally binds `name` to a value.
pub open spec fn any_surely_binds(statements: Seq<Node>, name: Seq<char>) -> bool {
    exists|i: int| 0 <= i < statements.len() && surely_binds(#[trigger] statements[i], name)
}

/// Whether a read among `later`, after the statements, may see `definition` of `name`.
pub open spec fn read_later(
    index: SemanticIndex,
    scope: ScopeId,
    later: Seq<ReadModel>,
    name: Seq<char>,
    definition: DefinitionId,
) -> bool {
    exists|i: int|
        0 <= i < later.len() && sees(index, scope, #[trigger] later[i], name, definition)
}

pub open spec fn sees(
    index: SemanticIndex,
    scope: ScopeId,
    read: ReadModel,
    name: Seq<char>,
    definition: DefinitionId,
) -> bool {
    loaded_name(read.node) == Some(name) && (read.nested || may_read(
        index,
        scope,
        read.node.id,
        definition,
    ))
}

/// Whether `scope` declares the type of `name`.
pub open spec fn is_declared(index: SemanticIndex, scope: ScopeId, name: Seq<char>) -> bool {
    match index.spec_symbol(scope, name) {
        Some(i) => index.scopes@[scope as int].symbols@[i].is_declared,
        None => false,
    }
}

/// What the new function returns once `binding` has been looked at, or why the statements
/// cannot be moved.
pub open spec fn returned_with(
    around: Surroundings,
    statements: Seq<Node>,
    parameters: Seq<Seq<char>>,
    later: Seq<ReadModel>,
    returned: Seq<Seq<char>>,
    binding: (Seq<char>, DefinitionId),
) -> Result<Seq<Seq<char>>, Seq<char>> {
    let (name, definition) = binding;
    if returned.contains(name) {
        Ok(returned)
    } else if !(around.scope == GLOBAL || read_later(
        around.index,
        around.scope,
        later,
        name,
        definition,
    )) {
        // a module's variables are its attributes, read by whoever imports it
        Ok(returned)
    } else if is_declared(around.index, around.scope, name) {
        Err(
            "`"@ + name
                + "` is declared in the statements and read after them, and a declaration can't be returned"@,
        )
    } else if !parameters.contains(name) && !any_surely_binds(statements, name) {
        Err(
            "`"@ + name
                + "` is read after the statements but not assigned on every path through them"@,
        )
    } else {
        Ok(returned.push(name))
    }
}

/// What the new function returns, of what the statements bind first to `bound`, or why the
/// statements cannot be moved.
pub open spec fn returned_of(
    around: Surroundings,
    statements: Seq<Node>,
    parameters: Seq<Seq<char>>,
    later: Seq<ReadModel>,
    bound: Seq<(Seq<char>, DefinitionId)>,
) -> Result<Seq<Seq<char>>, Seq<char>>
    decreases bound.len(),
{
    if bound.len() == 0 {
        Ok(Seq::empty())
    } else {
        match returned_of(around, statements, parameters, later, bound.drop_last()) {
            Err(reason) => Err(reason),
            Ok(returned) => returned_with(
                around,
                statements,
                parameters,
                later,
                returned,
                bound.last(),
            ),
        }
    }
}

/// What names are bound to, as mathematical values.
pub open spec fn binding_models(bound: Seq<(String, DefinitionId)>) -> Seq<
    (Seq<char>, DefinitionId),
> {
    bound.map_values(|binding: (String, DefinitionId)| (binding.0@, binding.1))
}

fn bindings_inside(index: &SemanticIndex, scope: ScopeId, selected: TextRange) -> (bound: Result<
    Vec<(String, DefinitionId)>,
    String,
>)
    requires
        index.wf(),
        scope < index.scopes.len(),
    ensures
        match bound {
            Ok(bound) => bound_in(*index, scope, selected) == Ok::<
                Seq<(Seq<char>, DefinitionId)>,
                Seq<char>,
            >(binding_models(bound@)),
            Err(reason) => bound_in(*index, scope, selected) == Err::<
                Seq<(Seq<char>, DefinitionId)>,
                Seq<char>,
            >(reason@),
        },
{
    let definitions = &index.scopes[scope as usize].definitions;
    let symbols = &index.scopes[scope as usize].symbols;
    assert(index.scope_wf(scope as int, index.scopes@[scope as int]));
    let mut bound: Vec<(String, DefinitionId)> = Vec::new();
    let mut i: usize = 0;
    assert(binding_models(bound@) =~= Seq::empty());
    while i < definitions.len()
        invariant
            i <= definitions.len(),
            index.scope_wf(scope as int, index.scopes@[scope as int]),
            definitions == index.scopes@[scope as int].definitions,
            symbols == index.scopes@[scope as int].symbols,
            bound_among(*index, symbols@, definitions@.take(i as int), selected) == Ok::<
                Seq<(Seq<char>, DefinitionId)>,
                Seq<char>,
            >(binding_models(bound@)),
        decreases definitions.len() - i,
    {
        assert(definitions@.take(i + 1).drop_last() =~= definitions@.take(i as int));
        assert(definitions@.take(i + 1).last() == definitions@[i as int]);
        let definition = &index.definitions[definitions[i] as usize];
        if let Some(symbol) = definition.symbol {
            if definition.kind != DefinitionKind::LoopHeader && definition.kind
                != DefinitionKind::NestedBindings && selected.contains_range(
                definition.target_range,
            ) {
                let symbol = &symbols[symbol as usize];
                if symbol.is_global || symbol.is_nonlocal {
                    proof {
                        lemma_bound_stays(*index, symbols@, definitions@, selected, i + 1);
                    }
                    return Err(
                        join3(
                            "`",
                            symbol.name.as_str(),
                            "` is declared `global` or `nonlocal`, so assigning it inside a new function would need the same declaration",
                        ),
                    );
                }
                let ghost before = bound@;
                let name = owned(symbol.name.as_str());
                bound.push((name, definitions[i]));
                assert(binding_models(bound@) =~= binding_models(before).push(
                    (symbol.name@, definitions@[i as int]),
                ));
            }
        }
        i += 1;
    }
    assert(definitions@.take(i as int) =~= definitions@);
    Ok(bound)
}

/// A refusal among the first definitions is one among all of them.
proof fn lemma_bound_stays(
    index: SemanticIndex,
    symbols: Seq<Symbol>,
    definitions: Seq<DefinitionId>,
    selected: TextRange,
    upto: int,
)
    requires
        0 <= upto <= definitions.len(),
        bound_among(index, symbols, definitions.take(upto), selected) is Err,
    ensures
        bound_among(index, symbols, definitions, selected) == bound_among(
            index,
            symbols,
            definitions.take(upto),
            selected,
        ),
    decreases definitions.len() - upto,
{
    if upto < definitions.len() {
        assert(definitions.take(upto + 1).drop_last() =~= definitions.take(upto));
        lemma_bound_stays(index, symbols, definitions, selected, upto + 1);
    } else {
        assert(definitions.take(upto) =~= definitions);
    }
}

fn has_binding(bound: &Vec<(String, DefinitionId)>, name: &str) -> (has: bool)
    ensures
        has == binds_name(binding_models(bound@), name@),
{
    let ghost models = binding_models(bound@);
    let mut i: usize = 0;
    while i < bound.len()
        invariant
            i <= bound.len(),
            models == binding_models(bound@),
            forall|j: int| 0 <= j < i ==> (#[trigger] models[j]).0 != name@,
        decreases bound.len() - i,
    {
        assert(models[i as int] == (bound@[i as int].0@, bound@[i as int].1));
        if same_text(bound[i].0.as_str(), name) {
            return true;
        }
        i += 1;
    }
    false
}

/// Whether `name` has a binding in `scope` outside `selected`.
fn bindings_outside(index: &SemanticIndex, scope: ScopeId, name: &str, selected: TextRange) -> (found:
    bool)
    requires
        index.wf(),
        scope < index.scopes.len(),
    ensures
        found == bound_outside(*index, scope, name@, selected),
{
    let symbol = match index.symbol_id(scope, name) {
        Some(symbol) => symbol,
        None => {
            return false;
        },
    };
    let definitions = &index.scopes[scope as usize].definitions;
    assert(index.scope_wf(scope as int, index.scopes@[scope as int]));
    let mut i: usize = 0;
    while i < definitions.len()
        invariant
            i <= definitions.len(),
            index.scope_wf(scope as int, index.scopes@[scope as int]),
            definitions == index.scopes@[scope as int].definitions,
            index.spec_symbol(scope, name@) == Some(symbol as int),
            forall|j: int|
                0 <= j < i ==> !defines_outside(
                    index.definitions@[
                        #[trigger] index.scopes@[scope as int].definitions@[j] as int
                    ],
                    symbol as int,
                    selected,
                ),
        decreases definitions.len() - i,
    {
        let definition = &index.definitions[definitions[i] as usize];
        let defines = match definition.symbol {
            Some(defined) => defined as usize == symbol,
            None => false,
        };
        if defines && definition.kind != DefinitionKind::LoopHeader && !selected.contains_range(
            definition.target_range,
        ) {
            assert(defines_outside(
                index.definitions@[index.scopes@[scope as int].definitions@[i as int] as int],
                symbol as int,
                selected,
            ));
            return true;
        }
        i += 1;
    }
    false
}

/// Whether one of the definitions reaching a load is made outside `selected`.
fn any_outside(index: &SemanticIndex, reaching: &Reaching, selected: TextRange) -> (found: bool)
    requires
        forall|i: int|
            0 <= i < reaching.definitions.len() ==> (#[trigger] reaching.definitions@[i])
                < index.definitions.len(),
    ensures
        found == exists|definition: DefinitionId| #[trigger]
            reaching.definitions@.contains(definition) && !selected.spec_contains_range(
                index.definitions@[definition as int].target_range,
            ),
{
    let mut i: usize = 0;
    while i < reaching.definitions.len()
        invariant
            i <= reaching.definitions.len(),
            forall|j: int|
                0 <= j < reaching.definitions.len() ==> (#[trigger] reaching.definitions@[j])
                    < index.definitions.len(),
            forall|j: int|
                0 <= j < i ==> selected.spec_contains_range(
                    index.definitions@[(#[trigger] reaching.definitions@[j]) as int].target_range,
                ),
        decreases reaching.definitions.len() - i,
    {
        let definition = reaching.definitions[i];
        if !selected.contains_range(index.definitions[definition as usize].target_range) {
            assert(reaching.definitions@.contains(definition));
            return true;
        }
        i += 1;
    }
    false
}

/// What surrounds the statements, in memory.
struct Around<'a> {
    index: &'a SemanticIndex,
    scope: ScopeId,
    selected: TextRange,
    receiver: Option<&'a str>,
    bound: &'a Vec<(String, DefinitionId)>,
}

impl<'a> Around<'a> {
    spec fn model(&self) -> Surroundings {
        Surroundings {
            index: *self.index,
            scope: self.scope,
            selected: self.selected,
            receiver: match self.receiver {
                Some(receiver) => Some(receiver@),
                None => None,
            },
            bound: binding_models(self.bound@),
        }
    }

    spec fn wf(&self) -> bool {
        self.index.wf() && self.scope < self.index.scopes.len()
    }

    /// Takes note of what `read` asks for; `Err` holds why the statements cannot be moved.
    fn add_parameter(&self, parameters: &mut Vec<String>, read: &Read<'_>, name: &str) -> (done:
        Result<(), String>)
        requires
            self.wf(),
            loaded_name(*read.node) == Some(name@),
        ensures
            match done {
                Ok(()) => parameters_with(self.model(), texts(old(parameters)@), read@) == Ok::<
                    Seq<Seq<char>>,
                    Seq<char>,
                >(texts(final(parameters)@)),
                Err(reason) => parameters_with(self.model(), texts(old(parameters)@), read@)
                    == Err::<Seq<Seq<char>>, Seq<char>>(reason@),
            },
    {
        let is_receiver = match self.receiver {
            Some(receiver) => same_text(receiver, name),
            None => false,
        };
        let bound = has_binding(self.bound, name);
        if is_receiver {
            if bound {
                return Err(join3("the statements assign the receiver `", name, "`"));
            }
            return Ok(());
        }
        if read.nested {
            if self.scope == GLOBAL {
                if bound {
                    return Err(
                        join3(
                            "a function defined in the statements reads `",
                            name,
                            "`, which would become a variable of the new function",
                        ),
                    );
                }
                return Ok(());
            }
            if bindings_outside(self.index, self.scope, name, self.selected) {
                if bound {
                    return Err(
                        join3(
                            "a function defined in the statements reads `",
                            name,
                            "`, which is assigned both inside and outside them",
                        ),
                    );
                }
                push_once(parameters, name);
            }
            return Ok(());
        }
        let reaching = reaching_definitions(self.index, self.scope, read.node.id);
        let outside = any_outside(self.index, &reaching, self.selected);
        proof {
            let node = read.node.id;
            if outside {
                let d = choose|d: DefinitionId| #[trigger]
                    reaching.definitions@.contains(d) && !self.selected.spec_contains_range(
                        self.index.definitions@[d as int].target_range,
                    );
                assert(may_read(*self.index, self.scope, node, d));
            } else {
                assert forall|d: DefinitionId| #[trigger] may_read(
                    *self.index,
                    self.scope,
                    node,
                    d,
                ) implies self.selected.spec_contains_range(
                    self.index.definitions@[d as int].target_range,
                ) by {
                    assert(reaching.definitions@.contains(d));
                }
            }
        }
        if !outside {
            return Ok(());
        }
        if self.scope == GLOBAL && !bound {
            return Ok(());
        }
        if reaching.maybe_unbound {
            return Err(
                join3("`", name, "` may be unbound where the new function would be called"),
            );
        }
        push_once(parameters, name);
        Ok(())
    }

    /// The parameters of the new function, or why the statements cannot be moved.
    fn parameters(&self, reads: &Vec<Read<'_>>) -> (found: Result<Vec<String>, String>)
        requires
            self.wf(),
            forall|i: int|
                0 <= i < reads.len() ==> loaded_name(
                    #[trigger] read_models(reads@)[i].node,
                ) is Some,
        ensures
            match found {
                Ok(parameters) => parameters_of(self.model(), read_models(reads@)) == Ok::<
                    Seq<Seq<char>>,
                    Seq<char>,
                >(texts(parameters@)),
                Err(reason) => parameters_of(self.model(), read_models(reads@)) == Err::<
                    Seq<Seq<char>>,
                    Seq<char>,
                >(reason@),
            },
    {
        let ghost models = read_models(reads@);
        let mut parameters: Vec<String> = Vec::new();
        let mut i: usize = 0;
        assert(texts(parameters@) =~= Seq::empty());
        while i < reads.len()
            invariant
                i <= reads.len(),
                self.wf(),
                models == read_models(reads@),
                forall|j: int|
                    0 <= j < reads.len() ==> loaded_name((#[trigger] models[j]).node) is Some,
                parameters_of(self.model(), models.take(i as int)) == Ok::<
                    Seq<Seq<char>>,
                    Seq<char>,
                >(texts(parameters@)),
            decreases reads.len() - i,
        {
            assert(models.take(i + 1).drop_last() =~= models.take(i as int));
            assert(models.take(i + 1).last() == models[i as int]);
            assert(models[i as int] == reads@[i as int]@);
            if let NodeKind::ExprName { id, .. } = &reads[i].node.kind {
                let done = self.add_parameter(&mut parameters, &reads[i], id.as_str());
                if let Err(reason) = done {
                    proof {
                        lemma_parameters_stay(self.model(), models, i + 1);
                    }
                    return Err(reason);
                }
            }
            i += 1;
        }
        assert(models.take(i as int) =~= models);
        Ok(parameters)
    }

    fn is_read_later(&self, later: &Vec<Read<'_>>, name: &str, definition: DefinitionId) -> (found:
        bool)
        requires
            self.wf(),
        ensures
            found == read_later(
                *self.index,
                self.scope,
                read_models(later@),
                name@,
                definition,
            ),
    {
        let ghost models = read_models(later@);
        let mut i: usize = 0;
        while i < later.len()
            invariant
                i <= later.len(),
                self.wf(),
                models == read_models(later@),
                forall|j: int|
                    0 <= j < i ==> !sees(
                        *self.index,
                        self.scope,
                        #[trigger] models[j],
                        name@,
                        definition,
                    ),
            decreases later.len() - i,
        {
            assert(models[i as int] == later@[i as int]@);
            if let NodeKind::ExprName { id, ctx } = &later[i].node.kind {
                if *ctx == ExprContext::Load && same_text(id.as_str(), name) {
                    if later[i].nested {
                        assert(sees(
                            *self.index,
                            self.scope,
                            models[i as int],
                            name@,
                            definition,
                        ));
                        return true;
                    }
                    let reaching = reaching_definitions(
                        self.index,
                        self.scope,
                        later[i].node.id,
                    );
                    if crate::lookup::holds(&reaching.definitions, definition) {
                        assert(sees(
                            *self.index,
                            self.scope,
                            models[i as int],
                            name@,
                            definition,
                        ));
                        return true;
                    }
                }
            }
            i += 1;
        }
        false
    }

    /// Whether the scope declares the type of `name`.
    fn declares(&self, name: &str) -> (declares: bool)
        requires
            self.wf(),
        ensures
            declares == is_declared(*self.index, self.scope, name@),
    {
        match self.index.symbol_id(self.scope, name) {
            Some(symbol) => self.index.scopes[self.scope as usize].symbols[symbol].is_declared,
            None => false,
        }
    }

    /// What the new function returns, or why the statements cannot be moved.
    fn returned(
        &self,
        statements: &Vec<&Node>,
        parameters: &Vec<String>,
        later: &Vec<Read<'_>>,
    ) -> (found: Result<Vec<String>, String>)
        requires
            self.wf(),
        ensures
            match found {
                Ok(returned) => returned_of(
                    self.model(),
                    statements@.unref(),
                    texts(parameters@),
                    read_models(later@),
                    binding_models(self.bound@),
                ) == Ok::<Seq<Seq<char>>, Seq<char>>(texts(returned@)),
                Err(reason) => returned_of(
                    self.model(),
                    statements@.unref(),
                    texts(parameters@),
                    read_models(later@),
                    binding_models(self.bound@),
                ) == Err::<Seq<Seq<char>>, Seq<char>>(reason@),
            },
    {
        let ghost bound = binding_models(self.bound@);
        let ghost stmts = statements@.unref();
        let ghost params = texts(parameters@);
        let ghost afterwards = read_models(later@);
        let mut returned: Vec<String> = Vec::new();
        let mut i: usize = 0;
        assert(texts(returned@) =~= Seq::empty());
        while i < self.bound.len()
            invariant
                i <= self.bound.len(),
                self.wf(),
                bound == binding_models(self.bound@),
                stmts == statements@.unref(),
                params == texts(parameters@),
                afterwards == read_models(later@),
                returned_of(self.model(), stmts, params, afterwards, bound.take(i as int)) == Ok::<
                    Seq<Seq<char>>,
                    Seq<char>,
                >(texts(returned@)),
            decreases self.bound.len() - i,
        {
            assert(bound.take(i + 1).drop_last() =~= bound.take(i as int));
            assert(bound.take(i + 1).last() == bound[i as int]);
            let name = self.bound[i].0.as_str();
            let definition = self.bound[i].1;
            assert(bound[i as int] == (name@, definition));
            if !holds_text(&returned, name) && (self.scope == GLOBAL || self.is_read_later(
                later,
                name,
                definition,
            )) {
                if self.declares(name) {
                    proof {
                        lemma_returned_stay(
                            self.model(),
                            stmts,
                            params,
                            afterwards,
                            bound,
                            i + 1,
                        );
                    }
                    return Err(
                        join3(
                            "`",
                            name,
                            "` is declared in the statements and read after them, and a declaration can't be returned",
                        ),
                    );
                }
                if !holds_text(parameters, name) && !always_binds(statements, name) {
                    proof {
                        lemma_returned_stay(
                            self.model(),
                            stmts,
                            params,
                            afterwards,
                            bound,
                            i + 1,
                        );
                    }
                    return Err(
                        join3(
                            "`",
                            name,
                            "` is read after the statements but not assigned on every path through them",
                        ),
                    );
                }
                let ghost before = returned@;
                let kept = owned(name);
                returned.push(kept);
                assert(texts(returned@) =~= texts(before).push(name@));
            }
            i += 1;
        }
        assert(bound.take(i as int) =~= bound);
        Ok(returned)
    }
}

proof fn lemma_parameters_stay(around: Surroundings, reads: Seq<ReadModel>, upto: int)
    requires
        0 <= upto <= reads.len(),
        parameters_of(around, reads.take(upto)) is Err,
    ensures
        parameters_of(around, reads) == parameters_of(around, reads.take(upto)),
    decreases reads.len() - upto,
{
    if upto < reads.len() {
        assert(reads.take(upto + 1).drop_last() =~= reads.take(upto));
        lemma_parameters_stay(around, reads, upto + 1);
    } else {
        assert(reads.take(upto) =~= reads);
    }
}

proof fn lemma_returned_stay(
    around: Surroundings,
    statements: Seq<Node>,
    parameters: Seq<Seq<char>>,
    later: Seq<ReadModel>,
    bound: Seq<(Seq<char>, DefinitionId)>,
    upto: int,
)
    requires
        0 <= upto <= bound.len(),
        returned_of(around, statements, parameters, later, bound.take(upto)) is Err,
    ensures
        returned_of(around, statements, parameters, later, bound) == returned_of(
            around,
            statements,
            parameters,
            later,
            bound.take(upto),
        ),
    decreases bound.len() - upto,
{
    if upto < bound.len() {
        assert(bound.take(upto + 1).drop_last() =~= bound.take(upto));
        lemma_returned_stay(around, statements, parameters, later, bound, upto + 1);
    } else {
        assert(bound.take(upto) =~= bound);
    }
}

fn push_once(names: &mut Vec<String>, name: &str)
    ensures
        texts(final(names)@) == with_name(texts(old(names)@), name@),
{
    if !holds_text(names, name) {
        let copy = owned(name);
        names.push(copy);
        assert(texts(names@) =~= texts(old(names)@).push(name@));
    }
}

#[verifier::loop_isolation(false)]
fn target_binds(target: &Node, name: &str) -> (binds: bool)
    ensures
        binds == target_binds_name(*target, name@),
    decreases height(*target),
{
    match &target.kind {
        NodeKind::ExprName { id, .. } => same_text(id.as_str(), name),
        NodeKind::ExprTuple { .. } | NodeKind::ExprList { .. } => {
            let elements = target.children_filling(Field::Elt);
            let ghost all = children_of(*target, Field::Elt);
            let mut i: usize = 0;
            while i < elements.len()
                invariant
                    i <= elements.len(),
                    elements@.unref() == all,
                    all == children_of(*target, Field::Elt),
                    forall|j: int| 0 <= j < i ==> !target_binds_name(#[trigger] all[j], name@),
                decreases elements.len() - i,
            {
                assert(*elements@[i as int] == all[i as int]);
                if target_binds(elements[i], name) {
                    assert(target_binds_name(
                        children_of(*target, Field::Elt)[i as int],
                        name@,
                    ));
                    return true;
                }
                i += 1;
            }
            false
        },
        NodeKind::ExprStarred => match target.child(Field::Value) {
            Some(value) => target_binds(value, name),
            None => false,
        },
        _ => false,
    }
}

fn one_target_binds(targets: &Vec<&Node>, name: &str) -> (binds: bool)
    ensures
        binds == any_target_binds(targets@.unref(), name@),
{
    let ghost all = targets@.unref();
    let mut i: usize = 0;
    while i < targets.len()
        invariant
            i <= targets.len(),
            all == targets@.unref(),
            forall|j: int| 0 <= j < i ==> !target_binds_name(#[trigger] all[j], name@),
        decreases targets.len() - i,
    {
        assert(all[i as int] == *targets@[i as int]);
        if target_binds(targets[i], name) {
            return true;
        }
        i += 1;
    }
    false
}

fn one_alias_binds(aliases: &Vec<&Node>, name: &str, from: bool) -> (binds: bool)
    ensures
        binds == any_alias_binds(aliases@.unref(), name@, from),
{
    let ghost all = aliases@.unref();
    let mut i: usize = 0;
    while i < aliases.len()
        invariant
            i <= aliases.len(),
            all == aliases@.unref(),
            forall|j: int| 0 <= j < i ==> !alias_binds(#[trigger] all[j], name@, from),
        decreases aliases.len() - i,
    {
        assert(all[i as int] == *aliases@[i as int]);
        let binds = match &aliases[i].kind {
            NodeKind::Alias { name: imported, asname, .. } => match asname {
                Some(asname) => same_text(asname.as_str(), name),
                None => if from {
                    same_text(imported.as_str(), name)
                } else {
                    same_text(first_component(imported.as_str()), name)
                },
            },
            _ => false,
        };
        if binds {
            assert(alias_binds(all[i as int], name@, from));
            return true;
        }
        i += 1;
    }
    false
}

fn statement_binds(statement: &Node, name: &str) -> (binds: bool)
    ensures
        binds == surely_binds(*statement, name@),
{
    match &statement.kind {
        NodeKind::StmtAssign => one_target_binds(
            &statement.children_filling(Field::Target),
            name,
        ),
        NodeKind::StmtAugAssign => match statement.child(Field::Target) {
            Some(target) => target_binds(target, name),
            None => false,
        },
        NodeKind::StmtAnnAssign { .. } => match statement.child(Field::Target) {
            Some(target) => statement.child(Field::Value).is_some() && target_binds(target, name),
            None => false,
        },
        NodeKind::StmtFunctionDef { name: defined, .. } => same_text(defined.as_str(), name),
        NodeKind::StmtClassDef { name: defined, .. } => same_text(defined.as_str(), name),
        NodeKind::StmtImport => one_alias_binds(
            &statement.children_filling(Field::Name),
            name,
            false,
        ),
        NodeKind::StmtImportFrom { .. } => one_alias_binds(
            &statement.children_filling(Field::Name),
            name,
            true,
        ),
        _ => false,
    }
}

/// Whether one of `statements` unconditionally binds `name` to a value.
fn always_binds(statements: &Vec<&Node>, name: &str) -> (binds: bool)
    ensures
        binds == any_surely_binds(statements@.unref(), name@),
{
    let ghost all = statements@.unref();
    let mut i: usize = 0;
    while i < statements.len()
        invariant
            i <= statements.len(),
            all == statements@.unref(),
            forall|j: int| 0 <= j < i ==> !surely_binds(#[trigger] all[j], name@),
        decreases statements.len() - i,
    {
        assert(all[i as int] == *statements@[i as int]);
        if statement_binds(statements[i], name) {
            return true;
        }
        i += 1;
    }
    false
}

/// Lines to move from one indentation to another.
pub ghost struct Moved {
    pub text: Seq<char>,
    pub tokens: Seq<Token>,
    /// The tree of the file.
    pub tree: Node,
    pub line_ending: Seq<char>,
    pub lines: TextRange,
    pub from: Seq<char>,
    pub to: Seq<char>,
}

pub open spec fn at_most(offset: int, end: int) -> int {
    if offset <= end {
        offset
    } else {
        end
    }
}

/// Whether a token starts before `offset` and ends after it.
pub open spec fn is_inside_token(tokens: Seq<Token>, offset: int) -> bool {
    let at = ending_by(tokens, offset);
    at < tokens.len() && tokens[at].range.start < offset
}

/// Whether `node` is a part of a string that is made up of several tokens.
pub open spec fn is_interpolated_part(node: Node) -> bool {
    node.kind is FStringPart || node.kind is TStringPart
}

/// Whether `offset` is inside a string of `nodes` that is made up of several tokens.
pub open spec fn is_inside_interpolated(nodes: Seq<Node>, offset: int) -> bool {
    exists|i: int|
        0 <= i < nodes.len() && is_interpolated_part(#[trigger] nodes[i]) && nodes[i].range.start
            < offset < nodes[i].range.end
}

/// Whether `offset` is inside a string: in a token, or between those of one that has several.
pub open spec fn is_inside_string(moved: Moved, offset: int) -> bool {
    is_inside_token(moved.tokens, offset) || is_inside_interpolated(subtree(moved.tree), offset)
}

/// The line at `offset`, moved to its new indentation. A line that starts inside a string is part
/// of the string and is left alone, and a blank line carries no indentation.
pub open spec fn moved_line(moved: Moved, offset: int, is_first: bool) -> Seq<char> {
    let end = at_most(line_end_of(moved.text, offset), moved.lines.end as int);
    let line = text_of(moved.text, TextRange { start: offset as u32, end: end as u32 });
    if !is_first && is_inside_string(moved, offset) {
        line
    } else if trimmed(line).len() == 0 {
        Seq::empty()
    } else if has_prefix(indentation_of(line), moved.from) {
        moved.to + line.skip(moved.from.len() as int)
    } else {
        moved.to + line.skip(indentation_of(line).len() as int)
    }
}

/// The lines from the one at `offset` on, moved to their new indentation.
pub open spec fn moved_from(moved: Moved, offset: int, is_first: bool) -> Seq<char>
    decreases moved.lines.end - offset,
{
    if offset > moved.lines.end {
        Seq::empty()
    } else {
        let line = (if is_first {
            Seq::empty()
        } else {
            moved.line_ending
        }) + moved_line(moved, offset, is_first);
        let next = at_most(full_line_end_of(moved.text, offset), moved.lines.end as int);
        if next >= moved.lines.end || next <= offset {
            line
        } else {
            line + moved_from(moved, next, false)
        }
    }
}

/// The lines at `moved`, moved to their new indentation.
pub open spec fn reindented(moved: Moved) -> Seq<char> {
    moved_from(moved, moved.lines.start as int, true)
}

/// Whether `offset` is inside a string of `nodes` that is made up of several tokens.
fn stands_in_interpolated(nodes: &Vec<&Node>, offset: TextSize) -> (inside: bool)
    ensures
        inside == is_inside_interpolated(nodes@.unref(), offset as int),
{
    let ghost all = nodes@.unref();
    let mut i: usize = 0;
    while i < nodes.len()
        invariant
            i <= nodes.len(),
            all == nodes@.unref(),
            forall|j: int|
                0 <= j < i ==> !(is_interpolated_part(#[trigger] all[j]) && all[j].range.start
                    < offset < all[j].range.end),
        decreases nodes.len() - i,
    {
        let node = nodes[i];
        assert(all[i as int] == *node);
        let interpolated = matches!(
            node.kind,
            NodeKind::FStringPart { .. } | NodeKind::TStringPart { .. }
        );
        if interpolated && node.range.start < offset && offset < node.range.end {
            return true;
        }
        i += 1;
    }
    false
}

/// A line that starts inside a string keeps its text, whatever the indentation it would be moved
/// to.
pub proof fn law_strings_are_left_alone(moved: Moved, offset: int)
    requires
        is_inside_string(moved, offset),
    ensures
        moved_line(moved, offset, false) == text_of(
            moved.text,
            TextRange {
                start: offset as u32,
                end: at_most(line_end_of(moved.text, offset), moved.lines.end as int) as u32,
            },
        ),
{
}

/// The lines of `lines`, moved from `from` indentation to `to`. A line that
/// starts inside a multi-line string is part of the string and is left alone.
fn reindent(context: &RefactorContext, lines: TextRange, from: &str, to: &str) -> (result: String)
    requires
        context.wf(),
        is_cut(context.source@, lines) || lines.start > lines.end,
    ensures
        result@ == reindented(
            Moved {
                text: context.source@,
                tokens: context.tokens@,
                tree: context.module,
                line_ending: context.style.line_ending@,
                lines,
                from: from@,
                to: to@,
            },
        ),
{
    let source = context.source.as_str();
    let ghost moved = Moved {
        text: context.source@,
        tokens: context.tokens@,
        tree: context.module,
        line_ending: context.style.line_ending@,
        lines,
        from: from@,
        to: to@,
    };
    let nodes = walk(&context.module, Prune::Nothing);
    let mut result = String::new();
    let mut offset: u32 = lines.start;
    let mut first = true;
    let mut done = offset > lines.end;
    assert(!done ==> result@ + moved_from(moved, offset as int, first) =~= reindented(moved));
    assert(done ==> result@ =~= reindented(moved));
    while !done
        invariant
            context.wf(),
            source@ == context.source@,
            moved == (Moved {
                text: context.source@,
                tokens: context.tokens@,
                tree: context.module,
                line_ending: context.style.line_ending@,
                lines,
                from: from@,
                to: to@,
            }),
            nodes@.unref() == subtree(context.module),
            !done ==> is_cut(context.source@, lines),
            !done ==> offset <= lines.end && is_offset(source@, offset as int),
            !done ==> result@ + moved_from(moved, offset as int, first) == reindented(moved),
            done ==> result@ == reindented(moved),
        decreases (if done { 0int } else { lines.end - offset + 1 }),
    {
        let ghost before = result@;
        let ghost at = offset as int;
        let ghost was_first = first;
        proof {
            lemma_line_end(source@, offset as int);
        }
        let line_end = line_end(source, offset);
        let full_end = full_line_end(source, offset);
        let full_end: u32 = if full_end <= lines.end { full_end } else { lines.end };
        let end: u32 = if line_end <= lines.end { line_end } else { lines.end };
        let line = slice(source, TextRange { start: offset, end });
        // tokens are in source order, so the one that could span `offset` is the
        // first that ends after it
        let index = count_ending_by(&context.tokens, offset);
        let inside_string = !first && ((index < context.tokens.len()
            && context.tokens[index].range.start < offset) || stands_in_interpolated(
            &nodes,
            offset,
        ));
        if !first {
            result.append(context.style.line_ending.as_str());
        }
        first = false;
        if inside_string {
            result.append(line);
        } else if !trim_whitespace(line).is_empty() {
            let indentation = leading_indentation(line);
            proof {
                crate::source::lemma_trimmed_start(line@);
            }
            let kept = if starts_with(indentation, from) {
                without_first(line, from.unicode_len())
            } else {
                without_first(line, indentation.unicode_len())
            };
            result.append(to);
            result.append(kept);
        }
        let ghost ending = if was_first {
            Seq::empty()
        } else {
            moved.line_ending
        };
        assert(result@ =~= before + (ending + moved_line(moved, at, was_first)));
        if full_end >= lines.end {
            done = true;
            assert(result@ =~= before + moved_from(moved, at, was_first));
        } else {
            offset = full_end;
            assert(result@ + moved_from(moved, offset as int, false) =~= before + moved_from(
                moved,
                at,
                was_first,
            ));
        }
    }
    result
}

/// Where the statements to extract are written.
pub ghost struct SiteModel {
    pub statements: Seq<Node>,
    /// The first statement, with the statements around it, outermost first.
    pub ancestors: Seq<Node>,
    /// The function around the statements.
    pub enclosing: Option<Node>,
    pub scope: ScopeId,
    pub method: Option<MethodModel>,
}

/// Where the statements to extract are written.
struct Site<'a> {
    statements: Vec<&'a Node>,
    ancestors: Vec<&'a Node>,
    enclosing: Option<&'a Node>,
    scope: ScopeId,
    method: Option<Method>,
}

impl<'a> View for Site<'a> {
    type V = SiteModel;

    closed spec fn view(&self) -> SiteModel {
        SiteModel {
            statements: self.statements@.unref(),
            ancestors: self.ancestors@.unref(),
            enclosing: node_in(self.enclosing),
            scope: self.scope,
            method: match self.method {
                Some(method) => Some(method@),
                None => None,
            },
        }
    }
}

/// The last of `nodes` that is a class.
pub open spec fn last_class(nodes: Seq<Node>) -> Option<Node>
    decreases nodes.len(),
{
    if nodes.len() == 0 {
        None
    } else if nodes.last().kind is StmtClassDef {
        Some(nodes.last())
    } else {
        last_class(nodes.drop_last())
    }
}

/// The definition the last of `ancestors` is written in.
pub open spec fn owner_of(ancestors: Seq<Node>) -> Option<Node> {
    if ancestors.len() == 0 {
        None
    } else {
        last_definition(ancestors.drop_last())
    }
}

/// Whether `function` is a trailing lambda block.
pub open spec fn is_block(function: Node) -> bool {
    match function.kind {
        NodeKind::StmtFunctionDef { is_trailing_lambda, .. } => is_trailing_lambda,
        _ => false,
    }
}

pub open spec fn is_async_function(function: Node) -> bool {
    match function.kind {
        NodeKind::StmtFunctionDef { is_async, .. } => is_async,
        _ => false,
    }
}

pub open spec fn cannot_extract(reason: Seq<char>) -> Result<SiteModel, RefusalModel> {
    Err(RefusalModel::Refused { title: "Extract function"@, reason })
}

/// Where the statements at `range` are written, or why they cannot be extracted.
pub open spec fn site_at(context: RefactorContext, range: TextRange) -> Result<
    SiteModel,
    RefusalModel,
> {
    let index = context.index;
    match selected_statements(context, range) {
        None => Err(RefusalModel::NotApplicable),
        Some(statements) => {
            let ancestors = ancestors_in(context.spec_suite()->0, statements[0].range);
            if ancestors.len() == 0 {
                Err(RefusalModel::NotApplicable)
            } else {
                match owner_of(ancestors) {
                    None => Ok(
                        SiteModel {
                            statements,
                            ancestors,
                            enclosing: None,
                            scope: GLOBAL,
                            method: None,
                        },
                    ),
                    Some(owner) => if owner.kind is StmtClassDef {
                        cannot_extract("statements in a class body define the class's attributes"@)
                    } else if is_block(owner) {
                        cannot_extract("the statements are in a trailing lambda block"@)
                    } else {
                        match index.spec_function_scope(owner.id) {
                            None => Err(RefusalModel::NotApplicable),
                            Some(scope) => {
                                let site = SiteModel {
                                    statements,
                                    ancestors,
                                    enclosing: Some(owner),
                                    scope,
                                    method: None,
                                };
                                if index.scopes@[scope as int].is_method {
                                    match method_of(owner) {
                                        Ok(method) => Ok(
                                            SiteModel { method: Some(method), ..site },
                                        ),
                                        Err(refusal) => Err(refusal),
                                    }
                                } else {
                                    Ok(site)
                                }
                            },
                        }
                    },
                }
            }
        },
    }
}

impl SiteModel {
    /// What the statements cover, from the start of the first to the end of the last.
    pub open spec fn selected(self) -> TextRange {
        TextRange {
            start: self.statements[0].range.start,
            end: self.statements.last().range.end,
        }
    }

    /// The class the new method belongs to.
    pub open spec fn class(self) -> Option<Node> {
        if self.method is Some && self.ancestors.len() > 0 {
            last_class(self.ancestors.drop_last())
        } else {
            None
        }
    }

    pub open spec fn is_async(self) -> bool {
        match self.enclosing {
            Some(function) => is_async_function(function),
            None => false,
        }
    }

    pub open spec fn receiver(self) -> Option<Seq<char>> {
        match self.method {
            Some(method) => Some(method.receiver),
            None => None,
        }
    }
}

/// Finds the last of the first `upto` of `nodes` that is a class.
fn find_last_class<'a>(nodes: &Vec<&'a Node>, upto: usize) -> (found: Option<&'a Node>)
    requires
        upto <= nodes.len(),
    ensures
        node_in(found) == last_class(nodes@.unref().take(upto as int)),
{
    let ghost all = nodes@.unref();
    let mut left: usize = upto;
    while left > 0
        invariant
            left <= upto <= nodes.len(),
            all == nodes@.unref(),
            last_class(all.take(upto as int)) == last_class(all.take(left as int)),
        decreases left,
    {
        assert(all.take(left as int).drop_last() =~= all.take(left - 1));
        assert(all.take(left as int).last() == *nodes@[left - 1]);
        let node = nodes[left - 1];
        if matches!(node.kind, NodeKind::StmtClassDef { .. }) {
            return Some(node);
        }
        left -= 1;
    }
    None
}

/// Where the statements at `range` are written, or why they cannot be extracted.
fn find_site<'a>(context: &'a RefactorContext, range: TextRange) -> (site: Result<
    Site<'a>,
    Refusal,
>)
    requires
        context.wf(),
    ensures
        match site {
            Ok(site) => site_at(*context, range) == Ok::<SiteModel, RefusalModel>(site@),
            Err(refusal) => site_at(*context, range) == Err::<SiteModel, RefusalModel>(refusal@),
        },
        site matches Ok(site) ==> {
            &&& site.statements.len() > 0
            &&& site.ancestors.len() > 0
            &&& site.scope < context.index.scopes.len()
            &&& forall|i: int|
                0 <= i < site.statements.len() ==> placed(
                    context.source@,
                    *#[trigger] site.statements@[i],
                )
            &&& forall|i: int|
                0 <= i < site.ancestors.len() ==> placed(
                    context.source@,
                    *#[trigger] site.ancestors@[i],
                )
            &&& site.enclosing matches Some(function) ==> placed(context.source@, *function)
        },
{
    let index = &context.index;
    let statements = match select_statements(context, range) {
        Some(statements) => statements,
        None => {
            return Err(Refusal::NotApplicable);
        },
    };
    let suite = match context.suite() {
        Some(suite) => suite,
        None => {
            return Err(Refusal::NotApplicable);
        },
    };
    assert(statements@.unref()[0] == *statements@[0]);
    let ancestors = statement_ancestors(suite, statements[0].range);
    let ghost around = ancestors_in(*suite, statements@[0].range);
    proof {
        lemma_ancestors(context.source@, *suite, statements@[0].range);
        assert forall|i: int| 0 <= i < ancestors.len() implies placed(
            context.source@,
            *#[trigger] ancestors@[i],
        ) by {
            assert(around[i] == *ancestors@[i]);
        }
    }
    if ancestors.len() == 0 {
        return Err(Refusal::NotApplicable);
    }
    let owner = find_last_definition(&ancestors, ancestors.len() - 1);
    assert(around.take(around.len() - 1) =~= around.drop_last());
    let function = match owner {
        Some(owner) => owner,
        None => {
            return Ok(
                Site { statements, ancestors, enclosing: None, scope: GLOBAL, method: None },
            );
        },
    };
    match &function.kind {
        NodeKind::StmtFunctionDef { is_trailing_lambda, .. } => {
            if *is_trailing_lambda {
                return Err(
                    Refusal::refused(
                        "Extract function",
                        "the statements are in a trailing lambda block",
                    ),
                );
            }
        },
        NodeKind::StmtClassDef { .. } => {
            return Err(
                Refusal::refused(
                    "Extract function",
                    "statements in a class body define the class's attributes",
                ),
            );
        },
        _ => {},
    }
    let scope = match index.function_scope(function.id) {
        Some(scope) => scope,
        None => {
            return Err(Refusal::NotApplicable);
        },
    };
    let method = if index.scopes[scope as usize].is_method {
        match Method::of(function) {
            Ok(method) => Some(method),
            Err(refusal) => {
                return Err(refusal);
            },
        }
    } else {
        None
    };
    Ok(Site { statements, ancestors, enclosing: Some(function), scope, method })
}

/// `names` and `more`.
pub open spec fn with_names(names: Set<Seq<char>>, more: Seq<Seq<char>>) -> Set<Seq<char>> {
    Set::new(|name: Seq<char>| names.contains(name) || more.contains(name))
}

/// The names the new function stays clear of.
pub open spec fn taken_names(context: RefactorContext, site: SiteModel) -> Set<Seq<char>> {
    let names = file_names(context.index);
    match site.class() {
        Some(class) => match found(context.checker.class_members@, class.id) {
            Some(members) => with_names(names, texts(members@)),
            None => names,
        },
        None => names,
    }
}

fn extend_names(names: &mut FxHashSet<String>, more: &Vec<String>)
    ensures
        names_of(*final(names)) == with_names(names_of(*old(names)), texts(more@)),
{
    let ghost all = texts(more@);
    let ghost start = names_of(*names);
    let mut i: usize = 0;
    assert(names_of(*names) =~= with_names(start, all.take(0)));
    while i < more.len()
        invariant
            i <= more.len(),
            all == texts(more@),
            names_of(*names) == with_names(start, all.take(i as int)),
        decreases more.len() - i,
    {
        let ghost before = all.take(i as int);
        let ghost upto = all.take(i + 1);
        insert_name(names, owned(more[i].as_str()));
        assert(names_of(*names) =~= with_names(start, upto)) by {
            assert(upto[i as int] == more@[i as int]@);
            assert forall|name: Seq<char>| upto.contains(name) <==> before.contains(name) || name
                == more@[i as int]@ by {
                if upto.contains(name) {
                    let k = choose|k: int| 0 <= k < upto.len() && upto[k] == name;
                    if k < i {
                        assert(before[k] == name);
                    }
                }
                if before.contains(name) {
                    let k = choose|k: int| 0 <= k < before.len() && before[k] == name;
                    assert(upto[k] == name);
                }
                if name == more@[i as int]@ {
                    assert(upto[i as int] == name);
                }
            }
        }
        i += 1;
    }
    assert(all.take(i as int) =~= all);
}

/// Why the first of `statements` that cannot be moved cannot.
pub open spec fn first_dependent(context: RefactorContext, statements: Seq<Node>) -> Option<
    Seq<char>,
>
    decreases statements.len(),
{
    if statements.len() == 0 {
        None
    } else {
        match context_dependent(context, statements[0]) {
            Some(reason) => Some(reason),
            None => first_dependent(context, statements.skip(1)),
        }
    }
}

fn find_dependent(context: &RefactorContext, statements: &Vec<&Node>) -> (reason: Option<String>)
    ensures
        text_in(reason) == first_dependent(*context, statements@.unref()),
{
    let ghost all = statements@.unref();
    let mut i: usize = 0;
    assert(all.skip(0) =~= all);
    while i < statements.len()
        invariant
            i <= statements.len(),
            all == statements@.unref(),
            first_dependent(*context, all) == first_dependent(*context, all.skip(i as int)),
        decreases statements.len() - i,
    {
        assert(*statements@[i as int] == all[i as int]);
        assert(all.skip(i as int)[0] == all[i as int]);
        assert(all.skip(i as int).skip(1) =~= all.skip(i + 1));
        let reason = context_dependent_construct(context, statements[i]);
        if reason.is_some() {
            return reason;
        }
        i += 1;
    }
    None
}

/// What the new function is made of.
pub ghost struct Signature {
    pub name: Seq<char>,
    pub awaits: bool,
    pub parameters: Seq<Seq<char>>,
    pub returned: Seq<Seq<char>>,
}

/// The reads that come after the statements, in the function around them.
pub open spec fn later_reads(context: RefactorContext, site: SiteModel) -> Seq<ReadModel> {
    match site.enclosing {
        Some(function) => match child_of(function, Field::Body) {
            Some(body) => reads_in(context.index, site.scope, body.children@, site.selected()),
            None => Seq::empty(),
        },
        None => Seq::empty(),
    }
}

/// What the statements at `site` become as a function called `name`, or why they cannot be
/// moved.
pub open spec fn signature_at(context: RefactorContext, site: SiteModel, name: Seq<char>) -> Result<
    Signature,
    Seq<char>,
> {
    let index = context.index;
    let nowhere = TextRange { start: 0, end: 0 };
    let awaits = any_awaits(site.statements);
    match leaving_any(site.statements, false, false) {
        Some(reason) => Err(reason),
        None => if awaits && !site.is_async() {
            Err("the statements await outside an `async def`"@)
        } else {
            match first_dependent(context, site.statements) {
                Some(reason) => Err("the statements can't be moved: "@ + reason),
                None => match bound_in(index, site.scope, site.selected()) {
                    Err(reason) => Err(reason),
                    Ok(bound) => {
                        let around = Surroundings {
                            index,
                            scope: site.scope,
                            selected: site.selected(),
                            receiver: site.receiver(),
                            bound,
                        };
                        let reads = reads_in(index, site.scope, site.statements, nowhere);
                        match parameters_of(around, reads) {
                            Err(reason) => Err(reason),
                            Ok(parameters) => match returned_of(
                                around,
                                site.statements,
                                parameters,
                                later_reads(context, site),
                                bound,
                            ) {
                                Err(reason) => Err(reason),
                                Ok(returned) => Ok(
                                    Signature { name, awaits, parameters, returned },
                                ),
                            },
                        }
                    },
                },
            }
        },
    }
}

/// The lines the statements are written on.
pub open spec fn lines_of(text: Seq<char>, site: SiteModel) -> TextRange {
    TextRange {
        start: line_start_of(text, site.selected().start as int) as u32,
        end: line_end_of(text, site.selected().end as int) as u32,
    }
}

/// The indentation the new function is written at.
pub open spec fn definition_indent(text: Seq<char>, site: SiteModel) -> Seq<char> {
    match site.enclosing {
        Some(function) => before_on_line(text, function.range.start as int),
        None => ""@,
    }
}

/// Where the new function is written.
pub open spec fn insertion_point(text: Seq<char>, site: SiteModel) -> int {
    match site.enclosing {
        Some(function) => leading_comments(text, function.range.start as int),
        None => leading_comments(text, site.ancestors[0].range.start as int),
    }
}

/// How many blank lines follow the new function: one inside another definition, two in the
/// module.
pub open spec fn blank_lines(index: SemanticIndex, site: SiteModel) -> nat {
    if site.enclosing is Some && (site.method is Some || index.scopes@[site.scope as int].parent
        != Some(GLOBAL)) {
        1
    } else {
        2
    }
}

/// The new function, from its first line to the blank lines after it.
pub open spec fn definition_text(
    context: RefactorContext,
    site: SiteModel,
    signature: Signature,
) -> Seq<char> {
    let text = context.source@;
    let ending = context.style.line_ending@;
    let indent = definition_indent(text, site);
    let body_indent = indent + context.style.indentation@;
    let body = reindented(
        Moved {
            text,
            tokens: context.tokens@,
            tree: context.module,
            line_ending: ending,
            lines: lines_of(text, site),
            from: before_on_line(text, site.selected().start as int),
            to: body_indent,
        },
    );
    let receiver = match site.receiver() {
        Some(receiver) => seq![receiver],
        None => Seq::empty(),
    };
    let decorator = if site.method matches Some(method) && method.kind == MethodKind::Class {
        indent + "@classmethod"@ + ending
    } else {
        Seq::empty()
    };
    let header = indent + (if signature.awaits {
        "async def "@
    } else {
        "def "@
    }) + signature.name + "("@ + joined(receiver + signature.parameters, ", "@) + "):"@ + ending;
    let result = if signature.returned.len() == 0 {
        Seq::empty()
    } else {
        body_indent + "return "@ + joined(signature.returned, ", "@) + ending
    };
    decorator + header + (body + ending) + result + repeated(
        ending,
        blank_lines(context.index, site),
    )
}

/// The statement that calls the new function.
pub open spec fn call_text(
    context: RefactorContext,
    site: SiteModel,
    signature: Signature,
) -> Seq<char> {
    let callee = match site.receiver() {
        Some(receiver) => receiver + "."@ + signature.name,
        None => signature.name,
    };
    let call = (if signature.awaits {
        "await "@
    } else {
        ""@
    }) + callee + "("@ + joined(signature.parameters, ", "@) + ")"@;
    let indent = before_on_line(context.source@, site.selected().start as int);
    if signature.returned.len() == 0 {
        indent + call
    } else {
        indent + joined(signature.returned, ", "@) + " = "@ + call
    }
}

/// The edits that write the new function and call it. A definition written directly above the
/// statements it replaces is one edit, since two edits starting at one offset have no order a
/// client must keep.
pub open spec fn extraction(
    context: RefactorContext,
    site: SiteModel,
    signature: Signature,
) -> Seq<EditModel> {
    let text = context.source@;
    let lines = lines_of(text, site);
    let definition = definition_text(context, site, signature);
    let call = call_text(context, site, signature);
    if insertion_point(text, site) == lines.start {
        seq![replacing(definition + call, lines)]
    } else {
        seq![inserting(definition, insertion_point(text, site)), replacing(call, lines)]
    }
}

pub open spec fn extraction_title(site: SiteModel, name: Seq<char>) -> Seq<char> {
    if site.method is Some {
        "Extract method `"@ + name + "`"@
    } else {
        "Extract function `"@ + name + "`"@
    }
}

/// What extracting the statements at `range` comes to.
pub open spec fn extract_function_at(context: RefactorContext, range: TextRange) -> Result<
    PlanModel,
    RefusalModel,
> {
    match site_at(context, range) {
        Err(refusal) => Err(refusal),
        Ok(site) => {
            let name = fresh("extracted"@, taken_names(context, site));
            let title = extraction_title(site, name);
            match signature_at(context, site, name) {
                Err(reason) => refused(title, reason),
                Ok(signature) => planned(title, extraction(context, site, signature)),
            }
        },
    }
}

proof fn lemma_extracted_is_suffixable()
    ensures
        is_suffixable("extracted"@),
{
    reveal_strlit("extracted");
    reveal_strlit("_");
    reveal_strlit("__");
    crate::strings::lemma_decimal_len(1);
    let name = crate::refactor::names::suffixed("extracted"@, 1);
    assert(name.len() == 11);
    assert(name[0] == 'e');
    assert(name.take(2)[0] == 'e');
    assert("__"@[0] == '_');
    assert forall|i: int| 1 <= i < name.len() implies
        crate::refactor::names::continues_identifier(#[trigger] name[i]) by {
        if i < 9 {
            assert(name[i] == "extracted"@[i]);
        } else if i == 9 {
            assert(name[i] == '_');
        } else {
            assert(name[i] == crate::strings::decimal(1)[0]);
        }
    }
}

/// What the new function is made of, in memory.
struct NewFunction {
    awaits: bool,
    parameters: Vec<String>,
    returned: Vec<String>,
}

/// What the statements at `site` become as a function, or why they cannot be moved.
fn find_signature(context: &RefactorContext, site: &Site<'_>, name: &str) -> (found: Result<
    NewFunction,
    String,
>)
    requires
        context.wf(),
        site.scope < context.index.scopes.len(),
        site.statements.len() > 0,
    ensures
        match found {
            Ok(function) => signature_at(*context, site@, name@) == Ok::<Signature, Seq<char>>(
                Signature {
                    name: name@,
                    awaits: function.awaits,
                    parameters: texts(function.parameters@),
                    returned: texts(function.returned@),
                },
            ),
            Err(reason) => signature_at(*context, site@, name@) == Err::<Signature, Seq<char>>(
                reason@,
            ),
        },
{
    let index = &context.index;
    let first = site.statements[0];
    let last = site.statements[site.statements.len() - 1];
    assert(site@.statements[0] == *first);
    assert(site@.statements.last() == *last);
    let selected = TextRange { start: first.range.start, end: last.range.end };
    // control flow that leaves the statements, and constructs that don't move
    if let Some(reason) = control_flow_leaving(&site.statements) {
        return Err(owned(reason));
    }
    let awaits = awaits(&site.statements);
    let is_async = match site.enclosing {
        Some(function) => match &function.kind {
            NodeKind::StmtFunctionDef { is_async, .. } => *is_async,
            _ => false,
        },
        None => false,
    };
    if awaits && !is_async {
        return Err(owned("the statements await outside an `async def`"));
    }
    if let Some(reason) = find_dependent(context, &site.statements) {
        return Err(join2("the statements can't be moved: ", reason.as_str()));
    }
    // what the statements bind in the enclosing scope
    let bound = match bindings_inside(index, site.scope, selected) {
        Ok(bound) => bound,
        Err(reason) => {
            return Err(reason);
        },
    };
    let receiver = match &site.method {
        Some(method) => Some(method.receiver.as_str()),
        None => None,
    };
    let around = Around { index, scope: site.scope, selected, receiver, bound: &bound };
    // what the statements read from the enclosing scope, in the order they read it
    let nowhere = TextRange::empty(0);
    let nodes = walk_each(&site.statements, Prune::Within(nowhere));
    let reads = collect_reads(index, site.scope, &nodes);
    proof {
        assert forall|i: int| 0 <= i < reads.len() implies loaded_name(
            #[trigger] read_models(reads@)[i].node,
        ) is Some by {
            lemma_reads_load(*index, site.scope, nodes@.unref(), i);
        }
    }
    let parameters = match around.parameters(&reads) {
        Ok(parameters) => parameters,
        Err(reason) => {
            return Err(reason);
        },
    };
    // what the statements bind that is read after them
    let mut later: Vec<Read<'_>> = Vec::new();
    assert(read_models(later@) =~= Seq::empty());
    if let Some(function) = site.enclosing {
        if let Some(body) = function.child(Field::Body) {
            let nodes = walk_nodes(&body.children, Prune::Within(selected));
            later = collect_reads(index, site.scope, &nodes);
        }
    }
    match around.returned(&site.statements, &parameters, &later) {
        Ok(returned) => Ok(NewFunction { awaits, parameters, returned }),
        Err(reason) => Err(reason),
    }
}

/// The new function, from its first line to the blank lines after it.
fn write_definition(
    context: &RefactorContext,
    site: &Site<'_>,
    name: &str,
    function: &NewFunction,
    lines: TextRange,
) -> (definition: String)
    requires
        context.wf(),
        site.scope < context.index.scopes.len(),
        site.statements.len() > 0,
        is_span(context.source@, site@.statements[0].range),
        site.enclosing matches Some(function) ==> is_span(context.source@, function.range),
        lines == lines_of(context.source@, site@),
        is_cut(context.source@, lines) || lines.start > lines.end,
    ensures
        definition@ == definition_text(
            *context,
            site@,
            Signature {
                name: name@,
                awaits: function.awaits,
                parameters: texts(function.parameters@),
                returned: texts(function.returned@),
            },
        ),
{
    let ending = context.style.line_ending.as_str();
    let first = site.statements[0];
    assert(site@.statements[0] == *first);
    let indent = match site.enclosing {
        Some(function) => context.indentation(function.range),
        None => "",
    };
    let body_indent = join2(indent, context.style.indentation.as_str());
    let from = context.indentation(first.range);
    let body = reindent(context, lines, from, body_indent.as_str());
    let (receiver, decorator) = match &site.method {
        Some(method) => (
            Some(method.receiver.as_str()),
            if method.kind == MethodKind::Class {
                join3(indent, "@classmethod", ending)
            } else {
                String::new()
            },
        ),
        None => (None, String::new()),
    };
    let signature = with_receiver(receiver, &function.parameters);
    let mut header = join5(
        indent,
        if function.awaits { "async def " } else { "def " },
        name,
        "(",
        join_all(&signature, ", ").as_str(),
    );
    header.append("):");
    header.append(ending);
    let result = if function.returned.len() == 0 {
        String::new()
    } else {
        join4(body_indent.as_str(), "return ", join_all(&function.returned, ", ").as_str(), ending)
    };
    let one = site.enclosing.is_some() && (site.method.is_some()
        || context.index.scopes[site.scope as usize].parent != Some(GLOBAL));
    let blank = blank_text(ending, one);
    join5(
        decorator.as_str(),
        header.as_str(),
        join2(body.as_str(), ending).as_str(),
        result.as_str(),
        blank.as_str(),
    )
}

/// One blank line, or two.
fn blank_text(ending: &str, one: bool) -> (blank: String)
    ensures
        blank@ == repeated(ending@, if one { 1 } else { 2 }),
{
    proof {
        reveal_with_fuel(repeated, 3);
        assert(repeated(ending@, 1) =~= ending@);
        assert(repeated(ending@, 2) =~= ending@ + ending@);
    }
    if one {
        owned(ending)
    } else {
        join2(ending, ending)
    }
}

/// `parameters`, after the receiver of a method.
fn with_receiver(receiver: Option<&str>, parameters: &Vec<String>) -> (signature: Vec<String>)
    ensures
        texts(signature@) == (match receiver {
            Some(receiver) => seq![receiver@],
            None => Seq::empty(),
        }) + texts(parameters@),
{
    let mut signature: Vec<String> = Vec::new();
    assert(texts(signature@) =~= Seq::empty());
    if let Some(receiver) = receiver {
        let receiver = owned(receiver);
        signature.push(receiver);
        assert(texts(signature@) =~= seq![receiver@]);
    }
    let ghost received = texts(signature@);
    let mut i: usize = 0;
    assert(texts(signature@) =~= received + texts(parameters@).take(0));
    while i < parameters.len()
        invariant
            i <= parameters.len(),
            texts(signature@) == received + texts(parameters@).take(i as int),
        decreases parameters.len() - i,
    {
        let ghost before = signature@;
        let parameter = owned(parameters[i].as_str());
        signature.push(parameter);
        assert(texts(signature@) =~= texts(before).push(parameters@[i as int]@));
        assert(texts(parameters@).take(i + 1) =~= texts(parameters@).take(i as int).push(
            parameters@[i as int]@,
        ));
        assert(texts(signature@) =~= received + texts(parameters@).take(i + 1));
        i += 1;
    }
    assert(texts(parameters@).take(i as int) =~= texts(parameters@));
    signature
}

/// The statement that calls the new function.
fn write_call(
    context: &RefactorContext,
    site: &Site<'_>,
    name: &str,
    function: &NewFunction,
) -> (call: String)
    requires
        context.wf(),
        site.statements.len() > 0,
        is_span(context.source@, site@.statements[0].range),
    ensures
        call@ == call_text(
            *context,
            site@,
            Signature {
                name: name@,
                awaits: function.awaits,
                parameters: texts(function.parameters@),
                returned: texts(function.returned@),
            },
        ),
{
    assert(site@.statements[0] == *site.statements@[0]);
    let callee = match &site.method {
        Some(method) => join3(method.receiver.as_str(), ".", name),
        None => owned(name),
    };
    let call = join5(
        if function.awaits { "await " } else { "" },
        callee.as_str(),
        "(",
        join_all(&function.parameters, ", ").as_str(),
        ")",
    );
    let indent = context.indentation(site.statements[0].range);
    if function.returned.len() == 0 {
        join2(indent, call.as_str())
    } else {
        join4(indent, join_all(&function.returned, ", ").as_str(), " = ", call.as_str())
    }
}

/// Plans moving the statements at `range` into a new function.
pub fn plan(context: &RefactorContext, range: TextRange) -> (plan: Result<Plan, Refusal>)
    requires
        context.wf(),
    ensures
        outcome(plan) == extract_function_at(*context, range),
{
    let source = context.source.as_str();
    let site = match find_site(context, range) {
        Ok(site) => site,
        Err(refusal) => {
            return Err(refusal);
        },
    };
    let mut taken = names_in_file(&context.index);
    if site.method.is_some() {
        let ghost around = site@.ancestors;
        assert(around.take(around.len() - 1) =~= around.drop_last());
        if let Some(class) = find_last_class(&site.ancestors, site.ancestors.len() - 1) {
            if let Some(members) = find(&context.checker.class_members, class.id) {
                extend_names(&mut taken, members);
            }
        }
    }
    proof {
        lemma_extracted_is_suffixable();
    }
    let name = match find_fresh_name("extracted", &taken) {
        Some(name) => name,
        None => {
            return Err(Refusal::NotApplicable);
        },
    };
    let title = if site.method.is_some() {
        join3("Extract method `", name.as_str(), "`")
    } else {
        join3("Extract function `", name.as_str(), "`")
    };
    let function = match find_signature(context, &site, name.as_str()) {
        Ok(function) => function,
        Err(reason) => {
            return Err(Refusal::Refused { title, reason });
        },
    };
    let first = site.statements[0];
    let last = site.statements[site.statements.len() - 1];
    assert(site@.statements[0] == *first);
    assert(site@.statements.last() == *last);
    assert(site@.ancestors[0] == *site.ancestors@[0]);
    proof {
        lemma_line_start(source@, first.range.start as int);
        lemma_line_end(source@, last.range.end as int);
    }
    let lines = TextRange {
        start: line_start(source, first.range.start),
        end: line_end(source, last.range.end),
    };
    let definition = write_definition(context, &site, name.as_str(), &function, lines);
    let call = write_call(context, &site, name.as_str(), &function);
    let insert_at = match site.enclosing {
        Some(function) => leading_comments_start(source, function.range.start),
        None => leading_comments_start(source, site.ancestors[0].range.start),
    };
    if insert_at == lines.start {
        let whole = join2(definition.as_str(), call.as_str());
        Ok(plan_one(title, Edit::range_replacement(whole, lines)))
    } else {
        Ok(
            plan_two(
                title,
                Edit::insertion(definition, insert_at),
                Edit::range_replacement(call, lines),
            ),
        )
    }
}

/// No parameter of the new function is written twice, none is its receiver, and each is a name
/// the statements read.
pub proof fn law_parameters(around: Surroundings, reads: Seq<ReadModel>)
    ensures
        parameters_of(around, reads) matches Ok(parameters) ==> {
            &&& parameters.no_duplicates()
            &&& forall|i: int|
                0 <= i < parameters.len() ==> around.receiver != Some(#[trigger] parameters[i])
            &&& forall|i: int|
                0 <= i < parameters.len() ==> is_read(reads, #[trigger] parameters[i])
        },
    decreases reads.len(),
{
    if reads.len() > 0 {
        law_parameters(around, reads.drop_last());
        if let Ok(before) = parameters_of(around, reads.drop_last()) {
            let name = loaded_name(reads.last().node)->0;
            if let Ok(parameters) = parameters_of(around, reads) {
                assert forall|i: int| 0 <= i < parameters.len() implies is_read(
                    reads,
                    #[trigger] parameters[i],
                ) && around.receiver != Some(parameters[i]) by {
                    if i < before.len() {
                        assert(parameters[i] == before[i]);
                        let k = choose|k: int|
                            0 <= k < reads.drop_last().len() && loaded_name(
                                (#[trigger] reads.drop_last()[k]).node,
                            )->0 == before[i];
                        assert(reads[k] == reads.drop_last()[k]);
                    } else {
                        assert(parameters[i] == name);
                        assert(reads[reads.len() - 1] == reads.last());
                    }
                }
            }
        }
    }
}

/// Whether one of `reads` reads `name`.
pub open spec fn is_read(reads: Seq<ReadModel>, name: Seq<char>) -> bool {
    exists|k: int| 0 <= k < reads.len() && loaded_name((#[trigger] reads[k]).node)->0 == name
}

/// Nothing is returned twice, and everything returned is bound by the statements.
pub proof fn law_returned(
    around: Surroundings,
    statements: Seq<Node>,
    parameters: Seq<Seq<char>>,
    later: Seq<ReadModel>,
    bound: Seq<(Seq<char>, DefinitionId)>,
)
    ensures
        returned_of(around, statements, parameters, later, bound) matches Ok(returned) ==> {
            &&& returned.no_duplicates()
            &&& forall|i: int|
                0 <= i < returned.len() ==> binds_name(bound, #[trigger] returned[i])
        },
    decreases bound.len(),
{
    if bound.len() > 0 {
        law_returned(around, statements, parameters, later, bound.drop_last());
        if let Ok(before) = returned_of(
            around,
            statements,
            parameters,
            later,
            bound.drop_last(),
        ) {
            if let Ok(returned) = returned_of(around, statements, parameters, later, bound) {
                assert forall|i: int| 0 <= i < returned.len() implies binds_name(
                    bound,
                    #[trigger] returned[i],
                ) by {
                    if i < before.len() {
                        assert(returned[i] == before[i]);
                        let k = choose|k: int|
                            0 <= k < bound.drop_last().len() && (
                            #[trigger] bound.drop_last()[k]).0 == before[i];
                        assert(bound[k] == bound.drop_last()[k]);
                    } else {
                        assert(bound[bound.len() - 1] == bound.last());
                    }
                }
            }
        }
    }
}

/// Whether the new function has to be handed what `read` reads: the statements read it from
/// outside themselves, and it is not the receiver, which a method has anyway. A module's variable
/// is read where it is, unless the statements bind it too.
pub open spec fn is_handed(around: Surroundings, read: ReadModel) -> bool {
    let name = loaded_name(read.node)->0;
    &&& around.receiver != Some(name)
    &&& around.scope == GLOBAL ==> binds_name(around.bound, name)
    &&& if read.nested {
        around.scope != GLOBAL && bound_outside(around.index, around.scope, name, around.selected)
    } else {
        reads_outside(around.index, around.scope, read.node.id, around.selected)
    }
}

/// What the statements read from outside themselves is a parameter of the new function, and bound
/// wherever that would be called.
pub proof fn law_outside_reads_are_parameters(
    around: Surroundings,
    reads: Seq<ReadModel>,
    i: int,
)
    requires
        parameters_of(around, reads) is Ok,
        0 <= i < reads.len(),
        is_handed(around, reads[i]),
    ensures
        (parameters_of(around, reads)->Ok_0).contains(loaded_name(reads[i].node)->0),
        reads[i].nested || !may_be_unbound(around.index, around.scope, reads[i].node.id),
    decreases reads.len(),
{
    let before = parameters_of(around, reads.drop_last())->Ok_0;
    let parameters = parameters_of(around, reads)->Ok_0;
    let name = loaded_name(reads[i].node)->0;
    let last = loaded_name(reads.last().node)->0;
    if i < reads.len() - 1 {
        assert(reads.drop_last()[i] == reads[i]);
        law_outside_reads_are_parameters(around, reads.drop_last(), i);
        let k = choose|k: int| 0 <= k < before.len() && before[k] == name;
        assert(parameters[k] == name);
    } else if !before.contains(last) {
        assert(parameters[parameters.len() - 1] == name);
    }
}

/// What the statements bind and is read after them, the new function returns. A module's
/// variables are its attributes, which are always read.
pub proof fn law_later_reads_are_returned(
    around: Surroundings,
    statements: Seq<Node>,
    parameters: Seq<Seq<char>>,
    later: Seq<ReadModel>,
    bound: Seq<(Seq<char>, DefinitionId)>,
    i: int,
)
    requires
        returned_of(around, statements, parameters, later, bound) is Ok,
        0 <= i < bound.len(),
        around.scope == GLOBAL || read_later(
            around.index,
            around.scope,
            later,
            bound[i].0,
            bound[i].1,
        ),
    ensures
        (returned_of(around, statements, parameters, later, bound)->Ok_0).contains(bound[i].0),
    decreases bound.len(),
{
    let before = returned_of(around, statements, parameters, later, bound.drop_last())->Ok_0;
    let returned = returned_of(around, statements, parameters, later, bound)->Ok_0;
    let name = bound[i].0;
    if i < bound.len() - 1 {
        assert(bound.drop_last()[i] == bound[i]);
        law_later_reads_are_returned(around, statements, parameters, later, bound.drop_last(), i);
        let k = choose|k: int| 0 <= k < before.len() && before[k] == name;
        assert(returned[k] == name);
    } else if !before.contains(name) {
        assert(returned[returned.len() - 1] == name);
    }
}

/// What is returned is bound whenever the new function returns: it is handed to the function, or
/// one of the statements binds it on every path.
pub proof fn law_returned_is_bound(
    around: Surroundings,
    statements: Seq<Node>,
    parameters: Seq<Seq<char>>,
    later: Seq<ReadModel>,
    bound: Seq<(Seq<char>, DefinitionId)>,
    name: Seq<char>,
)
    requires
        returned_of(around, statements, parameters, later, bound) matches Ok(returned)
            && returned.contains(name),
    ensures
        parameters.contains(name) || any_surely_binds(statements, name),
    decreases bound.len(),
{
    if bound.len() > 0 {
        let before = returned_of(around, statements, parameters, later, bound.drop_last())->Ok_0;
        let returned = returned_of(around, statements, parameters, later, bound)->Ok_0;
        let k = choose|k: int| 0 <= k < returned.len() && returned[k] == name;
        if k < before.len() {
            assert(before[k] == name);
            law_returned_is_bound(
                around,
                statements,
                parameters,
                later,
                bound.drop_last(),
                name,
            );
        }
    }
}

/// Statements are only moved when none of them leaves the selection, awaits where the function
/// around them does not, or means something else elsewhere, and when the name of the new function
/// is used nowhere in the file.
pub proof fn law_extracted_statements_can_move(context: RefactorContext, range: TextRange)
    requires
        extract_function_at(context, range) is Ok,
    ensures
        ({
            let site = site_at(context, range)->Ok_0;
            let name = fresh("extracted"@, taken_names(context, site));
            &&& site_at(context, range) is Ok
            &&& leaving_any(site.statements, false, false) is None
            &&& any_awaits(site.statements) ==> site.is_async()
            &&& first_dependent(context, site.statements) is None
            &&& signature_at(context, site, name) is Ok
            &&& !file_names(context.index).contains(name)
        }),
{
    let site = site_at(context, range)->Ok_0;
    let taken = taken_names(context, site);
    lemma_file_names_finite(context.index);
    lemma_extracted_is_suffixable();
    if let Some(class) = site.class() {
        if let Some(members) = found(context.checker.class_members@, class.id) {
            let more = texts(members@);
            vstd::seq_lib::seq_to_set_is_finite(more);
            assert(taken =~= file_names(context.index).union(more.to_set()));
        }
    }
    law_fresh_name_is_unused("extracted"@, taken);
}

/// Whether `node` opens a scope of its own: a function, a class or a lambda.
pub open spec fn is_own_scope(node: Node) -> bool {
    node.kind is StmtFunctionDef || node.kind is StmtClassDef || node.kind is ExprLambda
}

/// Whether `path` leads from one of `statements` to something written in it, and not in a scope of
/// its own.
pub open spec fn is_written_among(statements: Seq<Node>, path: Seq<Node>) -> bool {
    &&& is_path(path)
    &&& statements.contains(path[0])
    &&& forall|k: int| 0 <= k < path.len() ==> !is_own_scope(#[trigger] path[k])
}

/// Whether `path` goes from `path[k]`, which is a loop, into its body.
pub open spec fn is_into_loop(path: Seq<Node>, k: int) -> bool {
    (path[k].kind is StmtFor || path[k].kind is StmtWhile) && path[k + 1].field == Field::Body
}

/// Whether `path` goes through the body of a loop.
pub open spec fn is_in_own_loop(path: Seq<Node>) -> bool {
    exists|k: int| 0 <= k < path.len() - 1 && #[trigger] is_into_loop(path, k)
}

/// Whether what `path` leads to means in a function of its own what it means where it is: it does
/// not return, yield, declare, delete or leave its suite, and a `break` or a `continue` is of a
/// loop that moves with it.
pub open spec fn can_move(path: Seq<Node>) -> bool {
    match path.last().kind {
        NodeKind::StmtReturn
        | NodeKind::ExprYield
        | NodeKind::ExprYieldFrom
        | NodeKind::StmtGlobal
        | NodeKind::StmtNonlocal
        | NodeKind::StmtDelete
        | NodeKind::StmtLet => false,
        NodeKind::StmtBreak { has_value } => !has_value && is_in_own_loop(path),
        NodeKind::StmtContinue => is_in_own_loop(path),
        _ => true,
    }
}

/// Whether what `path` leads to waits for something.
pub open spec fn is_awaiting(path: Seq<Node>) -> bool {
    match path.last().kind {
        NodeKind::ExprAwait => true,
        NodeKind::StmtFor { is_async }
        | NodeKind::StmtWith { is_async }
        | NodeKind::Comprehension { is_async } => is_async,
        _ => false,
    }
}

/// [`can_move`], for a path inside a loop of the statements or not.
spec fn can_move_in(path: Seq<Node>, in_loop: bool) -> bool {
    match path.last().kind {
        NodeKind::StmtBreak { has_value } => !has_value && (in_loop || is_in_own_loop(path)),
        NodeKind::StmtContinue => in_loop || is_in_own_loop(path),
        _ => can_move(path),
    }
}

proof fn lemma_own_loop_rest(path: Seq<Node>)
    requires
        path.len() > 1,
    ensures
        is_in_own_loop(path) == (is_in_own_loop(path.skip(1)) || is_loop(path[0]) && path[1].field
            == Field::Body),
{
    let rest = path.skip(1);
    if is_in_own_loop(rest) {
        let k = choose|k: int| 0 <= k < rest.len() - 1 && #[trigger] is_into_loop(rest, k);
        assert(is_into_loop(path, k + 1));
    }
    if is_in_own_loop(path) {
        let k = choose|k: int| 0 <= k < path.len() - 1 && #[trigger] is_into_loop(path, k);
        if k > 0 {
            assert(is_into_loop(rest, k - 1));
        }
    }
    if is_loop(path[0]) && path[1].field == Field::Body {
        assert(is_into_loop(path, 0));
    }
}

proof fn lemma_none_leaves(nodes: Seq<Node>, of_loop: bool, in_loop: bool, i: int)
    requires
        leaving_any(nodes, of_loop, in_loop) is None,
        0 <= i < nodes.len(),
    ensures
        leaving(nodes[i], in_loop || of_loop && nodes[i].field == Field::Body) is None,
    decreases nodes.len(),
{
    if i < nodes.len() - 1 {
        assert(nodes.drop_last()[i] == nodes[i]);
        lemma_none_leaves(nodes.drop_last(), of_loop, in_loop, i);
    }
}

proof fn lemma_can_move(path: Seq<Node>, in_loop: bool)
    requires
        is_path(path),
        forall|k: int| 0 <= k < path.len() ==> !is_own_scope(#[trigger] path[k]),
        leaving(path[0], in_loop) is None,
    ensures
        can_move_in(path, in_loop),
    decreases path.len(),
{
    if path.len() > 1 {
        lemma_path_rest(path);
        lemma_own_loop_rest(path);
        let rest = path.skip(1);
        let children = path[0].children@;
        let i = choose|i: int| 0 <= i < children.len() && children[i] == path[1];
        assert(!is_own_scope(path[0]));
        lemma_none_leaves(children, is_loop(path[0]), in_loop, i);
        assert forall|k: int| 0 <= k < rest.len() implies !is_own_scope(#[trigger] rest[k]) by {
            assert(rest[k] == path[k + 1]);
        }
        lemma_can_move(rest, in_loop || is_loop(path[0]) && path[1].field == Field::Body);
    } else {
        assert(path[0] == path.last());
        assert(!is_own_scope(path[0]));
    }
}

/// What a refusal says of the control flow of what it is about.
pub open spec fn leaving_reason(node: Node) -> Seq<char> {
    match node.kind {
        NodeKind::StmtReturn => "the statements `return`"@,
        NodeKind::ExprYield | NodeKind::ExprYieldFrom => "the statements `yield`"@,
        NodeKind::StmtGlobal
        | NodeKind::StmtNonlocal => "the statements declare `global` or `nonlocal`"@,
        NodeKind::StmtBreak { .. } => "the statements `break` out of a loop around them"@,
        NodeKind::StmtContinue => "the statements `continue` a loop around them"@,
        NodeKind::StmtLet => "a `let` pattern statement leaves its suite when it does not match"@,
        _ => "the statements delete a variable"@,
    }
}

proof fn lemma_first_leaves(nodes: Seq<Node>, of_loop: bool, in_loop: bool) -> (i: int)
    requires
        leaving_any(nodes, of_loop, in_loop) is Some,
    ensures
        0 <= i < nodes.len(),
        leaving(nodes[i], in_loop || of_loop && nodes[i].field == Field::Body) == leaving_any(
            nodes,
            of_loop,
            in_loop,
        ),
    decreases nodes.len(),
{
    if leaving_any(nodes.drop_last(), of_loop, in_loop) is Some {
        let i = lemma_first_leaves(nodes.drop_last(), of_loop, in_loop);
        assert(nodes.drop_last()[i] == nodes[i]);
        i
    } else {
        nodes.len() - 1
    }
}

proof fn lemma_cannot_move(node: Node, in_loop: bool) -> (path: Seq<Node>)
    requires
        leaving(node, in_loop) is Some,
    ensures
        is_path(path),
        path[0] == node,
        forall|k: int| 0 <= k < path.len() ==> !is_own_scope(#[trigger] path[k]),
        !can_move_in(path, in_loop),
        leaving(node, in_loop) == Some(leaving_reason(path.last())),
    decreases height(node),
{
    if own_leaving(node, in_loop) is Some {
        let path = seq![node];
        assert(path.last() == node);
        path
    } else {
        let i = lemma_first_leaves(node.children@, is_loop(node), in_loop);
        let child = node.children@[i];
        lemma_height_child(node, i);
        let rest = lemma_cannot_move(
            child,
            in_loop || is_loop(node) && child.field == Field::Body,
        );
        assert(node.children@.contains(rest[0]));
        lemma_path_onto(node, rest);
        let path = seq![node] + rest;
        lemma_own_loop_rest(path);
        assert forall|k: int| 0 <= k < path.len() implies !is_own_scope(#[trigger] path[k]) by {
            if k > 0 {
                assert(path[k] == rest[k - 1]);
            }
        }
        path
    }
}

/// Nothing is extracted that would leave the new function, or mean something else in it: whatever
/// is written in the statements, outside functions, classes and lambdas of their own, is no
/// `return`, `yield`, declaration, deletion or `let`, and every `break` and `continue` is in the
/// body of a loop that is written in the statements too. And what waits, waits in a function that
/// may.
pub proof fn law_extracted_statements_leave_nothing(
    context: RefactorContext,
    range: TextRange,
    path: Seq<Node>,
)
    requires
        extract_function_at(context, range) is Ok,
        is_written_among(site_at(context, range)->Ok_0.statements, path),
    ensures
        can_move(path),
        is_awaiting(path) ==> ({
            let site = site_at(context, range)->Ok_0;
            let name = fresh("extracted"@, taken_names(context, site));
            &&& site.is_async()
            &&& signature_at(context, site, name) matches Ok(signature) && signature.awaits
        }),
{
    let site = site_at(context, range)->Ok_0;
    let statements = site.statements;
    let i = choose|i: int| 0 <= i < statements.len() && statements[i] == path[0];
    lemma_none_leaves(statements, false, false, i);
    lemma_can_move(path, false);
    if is_awaiting(path) {
        lemma_path_is_walked(path, Prune::Scopes);
        lemma_walked_among(statements, Prune::Scopes, i, path.last());
        let walk = walked_all(statements, Prune::Scopes);
        let k = choose|k: int| 0 <= k < walk.len() && walk[k] == path.last();
        assert(own_awaits(walk[k]));
    }
}

/// Statements are refused for their control flow only for something written in them that cannot
/// move, which the reason names.
pub proof fn law_control_flow_is_refused_for_what_leaves(statements: Seq<Node>)
    ensures
        leaving_any(statements, false, false) matches Some(reason) ==> exists|path: Seq<Node>| #[trigger]
            is_written_among(statements, path) && !can_move(path) && reason == leaving_reason(
                path.last(),
            ),
{
    if leaving_any(statements, false, false) is Some {
        let i = lemma_first_leaves(statements, false, false);
        let path = lemma_cannot_move(statements[i], false);
        assert(is_written_among(statements, path));
    }
}

/// Whether read `k` of `reads` hands `name` to the new function.
pub open spec fn hands(around: Surroundings, reads: Seq<ReadModel>, k: int, name: Seq<char>) -> bool {
    0 <= k < reads.len() && is_handed(around, reads[k]) && loaded_name(reads[k].node)->0 == name
}

/// Whether the first of `reads` to hand `earlier` comes before every one that hands `later`.
pub open spec fn is_read_before(
    around: Surroundings,
    reads: Seq<ReadModel>,
    earlier: Seq<char>,
    later: Seq<char>,
) -> bool {
    exists|a: int| #[trigger]
        hands(around, reads, a, earlier) && forall|b: int| #[trigger]
            hands(around, reads, b, later) ==> a < b
}

/// The parameters of the new function are exactly the names that some read hands to it, because
/// it may see a binding made outside the statements: each once, in the order of their first such
/// reads.
pub proof fn law_parameters_are_what_is_handed(around: Surroundings, reads: Seq<ReadModel>)
    requires
        parameters_of(around, reads) is Ok,
    ensures
        ({
            let parameters = parameters_of(around, reads)->Ok_0;
            &&& parameters.no_duplicates()
            &&& forall|name: Seq<char>| #[trigger]
                parameters.contains(name) <==> exists|k: int| hands(around, reads, k, name)
            &&& forall|i: int, j: int|
                0 <= i < j < parameters.len() ==> is_read_before(
                    around,
                    reads,
                    #[trigger] parameters[i],
                    #[trigger] parameters[j],
                )
        }),
    decreases reads.len(),
{
    let parameters = parameters_of(around, reads)->Ok_0;
    law_parameters(around, reads);
    if reads.len() > 0 {
        let rest = reads.drop_last();
        let last = reads.len() - 1;
        let before = parameters_of(around, rest)->Ok_0;
        let newest = loaded_name(reads[last].node)->0;
        law_parameters_are_what_is_handed(around, rest);
        assert forall|k: int, name: Seq<char>| k < last implies #[trigger] hands(
            around,
            reads,
            k,
            name,
        ) == hands(around, rest, k, name) by {
            if 0 <= k {
                assert(rest[k] == reads[k]);
            }
        }
        assert(parameters == if is_handed(around, reads[last]) {
            with_name(before, newest)
        } else {
            before
        });
        assert forall|name: Seq<char>| #[trigger] parameters.contains(name) implies exists|k: int|
            hands(around, reads, k, name) by {
            let i = parameters.index_of(name);
            if i < before.len() {
                assert(before[i] == name);
                assert(before.contains(name));
                let k = choose|k: int| hands(around, rest, k, name);
                assert(hands(around, reads, k, name));
            } else {
                assert(hands(around, reads, last, name));
            }
        }
        assert forall|name: Seq<char>|
            (exists|k: int| hands(around, reads, k, name)) implies #[trigger] parameters.contains(
            name,
        ) by {
            let k = choose|k: int| hands(around, reads, k, name);
            if k < last {
                assert(hands(around, rest, k, name));
                assert(before.contains(name));
                let i = before.index_of(name);
                assert(parameters[i] == name);
            } else if !before.contains(name) {
                assert(parameters[parameters.len() - 1] == name);
            } else {
                let i = before.index_of(name);
                assert(parameters[i] == name);
            }
        }
        assert forall|i: int, j: int| 0 <= i < j < parameters.len() implies is_read_before(
            around,
            reads,
            #[trigger] parameters[i],
            #[trigger] parameters[j],
        ) by {
            let earlier = parameters[i];
            let later = parameters[j];
            assert(before[i] == earlier);
            if j < before.len() {
                assert(before[j] == later);
                assert(is_read_before(around, rest, earlier, later));
                let a = choose|a: int| #[trigger]
                    hands(around, rest, a, earlier) && forall|b: int| #[trigger]
                        hands(around, rest, b, later) ==> a < b;
                assert(hands(around, reads, a, earlier));
                assert forall|b: int| #[trigger] hands(around, reads, b, later) implies a < b by {
                    if b < last {
                        assert(hands(around, rest, b, later));
                    }
                }
            } else {
                assert(before.contains(earlier));
                let a = choose|a: int| hands(around, rest, a, earlier);
                assert(hands(around, reads, a, earlier));
                assert forall|b: int| #[trigger] hands(around, reads, b, later) implies a < b by {
                    if b < last {
                        assert(hands(around, rest, b, later));
                        assert(before.contains(later));
                    }
                }
            }
        }
    }
}

/// Whether binding `k` of `bound` makes `name` something to return: a load outside the statements
/// may see it. A module's variables are its attributes, which anything may.
pub open spec fn gives_back(
    around: Surroundings,
    later: Seq<ReadModel>,
    bound: Seq<(Seq<char>, DefinitionId)>,
    k: int,
    name: Seq<char>,
) -> bool {
    0 <= k < bound.len() && bound[k].0 == name && (around.scope == GLOBAL || read_later(
        around.index,
        around.scope,
        later,
        name,
        bound[k].1,
    ))
}

/// The new function returns exactly the names the statements bind that a load outside them may
/// see, each once.
pub proof fn law_returned_is_what_is_read_later(
    around: Surroundings,
    statements: Seq<Node>,
    parameters: Seq<Seq<char>>,
    later: Seq<ReadModel>,
    bound: Seq<(Seq<char>, DefinitionId)>,
)
    requires
        returned_of(around, statements, parameters, later, bound) is Ok,
    ensures
        ({
            let returned = returned_of(around, statements, parameters, later, bound)->Ok_0;
            &&& returned.no_duplicates()
            &&& forall|name: Seq<char>| #[trigger]
                returned.contains(name) <==> exists|k: int|
                    gives_back(around, later, bound, k, name)
        }),
    decreases bound.len(),
{
    let returned = returned_of(around, statements, parameters, later, bound)->Ok_0;
    law_returned(around, statements, parameters, later, bound);
    if bound.len() > 0 {
        let rest = bound.drop_last();
        let last = bound.len() - 1;
        let before = returned_of(around, statements, parameters, later, rest)->Ok_0;
        law_returned_is_what_is_read_later(around, statements, parameters, later, rest);
        assert forall|name: Seq<char>| #[trigger] returned.contains(name) implies exists|k: int|
            gives_back(around, later, bound, k, name) by {
            let i = returned.index_of(name);
            if i < before.len() {
                assert(before[i] == name);
                assert(before.contains(name));
                let k = choose|k: int| gives_back(around, later, rest, k, name);
                assert(gives_back(around, later, bound, k, name));
            } else {
                assert(gives_back(around, later, bound, last, name));
            }
        }
        assert forall|name: Seq<char>|
            (exists|k: int| gives_back(around, later, bound, k, name)) implies
            #[trigger] returned.contains(name) by {
            let k = choose|k: int| gives_back(around, later, bound, k, name);
            law_later_reads_are_returned(around, statements, parameters, later, bound, k);
        }
    }
}

/// What the statements are extracted to: a definition whose parameters, after the receiver, are
/// what the statements read from outside, and that returns what they bind and is read outside;
/// and a call that passes and assigns the same names in the same order.
pub proof fn law_extracted_signature(context: RefactorContext, range: TextRange)
    requires
        extract_function_at(context, range) is Ok,
    ensures
        ({
            let site = site_at(context, range)->Ok_0;
            let name = fresh("extracted"@, taken_names(context, site));
            let signature = signature_at(context, site, name)->Ok_0;
            let bound = bound_in(context.index, site.scope, site.selected())->Ok_0;
            let around = Surroundings {
                index: context.index,
                scope: site.scope,
                selected: site.selected(),
                receiver: site.receiver(),
                bound,
            };
            let reads = reads_in(
                context.index,
                site.scope,
                site.statements,
                TextRange { start: 0, end: 0 },
            );
            &&& (extract_function_at(context, range)->Ok_0).edits == extraction(
                context,
                site,
                signature,
            )
            &&& forall|name: Seq<char>| #[trigger]
                signature.parameters.contains(name) <==> exists|k: int|
                    hands(around, reads, k, name)
            &&& forall|i: int, j: int|
                0 <= i < j < signature.parameters.len() ==> is_read_before(
                    around,
                    reads,
                    #[trigger] signature.parameters[i],
                    #[trigger] signature.parameters[j],
                )
            &&& forall|name: Seq<char>| #[trigger]
                signature.returned.contains(name) <==> exists|k: int|
                    gives_back(around, later_reads(context, site), bound, k, name)
            &&& signature.parameters.no_duplicates()
            &&& signature.returned.no_duplicates()
        }),
{
    let site = site_at(context, range)->Ok_0;
    let bound = bound_in(context.index, site.scope, site.selected())->Ok_0;
    let around = Surroundings {
        index: context.index,
        scope: site.scope,
        selected: site.selected(),
        receiver: site.receiver(),
        bound,
    };
    let reads = reads_in(
        context.index,
        site.scope,
        site.statements,
        TextRange { start: 0, end: 0 },
    );
    law_parameters_are_what_is_handed(around, reads);
    law_returned_is_what_is_read_later(
        around,
        site.statements,
        parameters_of(around, reads)->Ok_0,
        later_reads(context, site),
        bound,
    );
}

/// What is bound unconditionally is bound by a statement that always runs to its end: an
/// assignment with a value, an import, or a definition. A statement that may run none of its
/// suites, or some of them, or any of them again and again, binds nothing for sure.
pub proof fn law_sure_bindings_are_unconditional(statement: Node, name: Seq<char>)
    requires
        surely_binds(statement, name),
    ensures
        match statement.kind {
            NodeKind::StmtAssign => exists|path: Seq<Node>| #[trigger]
                is_stored_path(path, name) && path[0].field == Field::Target
                    && statement.children@.contains(path[0]),
            NodeKind::StmtAugAssign => exists|path: Seq<Node>| #[trigger]
                is_stored_path(path, name) && path[0].field == Field::Target
                    && statement.children@.contains(path[0]),
            NodeKind::StmtAnnAssign { .. } => child_of(statement, Field::Value) is Some && exists|
                path: Seq<Node>,
            | #[trigger]
                is_stored_path(path, name) && path[0].field == Field::Target
                    && statement.children@.contains(path[0]),
            NodeKind::StmtFunctionDef { name: defined, .. }
            | NodeKind::StmtClassDef { name: defined, .. } => defined@ == name,
            NodeKind::StmtImport | NodeKind::StmtImportFrom { .. } => exists|i: int|
                0 <= i < statement.children@.len() && is_imported_as(
                    #[trigger] statement.children@[i],
                    name,
                ),
            _ => false,
        },
{
    match statement.kind {
        NodeKind::StmtAssign => {
            let targets = children_of(statement, Field::Target);
            let j = choose|j: int|
                0 <= j < targets.len() && target_binds_name(#[trigger] targets[j], name);
            let i = lemma_all_filling_in(statement.children@, Field::Target, j);
            let path = lemma_stored_path(targets[j], name);
            assert(statement.children@.contains(path[0]));
        },
        NodeKind::StmtAugAssign | NodeKind::StmtAnnAssign { .. } => {
            let i = lemma_first_filling_in(statement.children@, Field::Target);
            let path = lemma_stored_path(statement.children@[i], name);
            assert(statement.children@.contains(path[0]));
        },
        NodeKind::StmtImport => {
            let aliases = children_of(statement, Field::Name);
            let j = choose|j: int|
                0 <= j < aliases.len() && alias_binds(#[trigger] aliases[j], name, false);
            let i = lemma_all_filling_in(statement.children@, Field::Name, j);
            assert(is_imported_as(statement.children@[i], name));
        },
        NodeKind::StmtImportFrom { .. } => {
            let aliases = children_of(statement, Field::Name);
            let j = choose|j: int|
                0 <= j < aliases.len() && alias_binds(#[trigger] aliases[j], name, true);
            let i = lemma_all_filling_in(statement.children@, Field::Name, j);
            assert(is_imported_as(statement.children@[i], name));
        },
        _ => {},
    }
}

/// Whether an import binds `name` by `alias`: the name after its `as`, or without one what it
/// imports, or the first part of that.
pub open spec fn is_imported_as(alias: Node, name: Seq<char>) -> bool {
    alias.kind matches NodeKind::Alias { name: imported, asname, .. } && match asname {
        Some(asname) => asname@ == name,
        None => imported@ == name || before_dot(imported@) == name,
    }
}

/// Whether `path` leads from a target of an assignment, through what it unpacks into, to `name`.
pub open spec fn is_stored_path(path: Seq<Node>, name: Seq<char>) -> bool {
    &&& is_path(path)
    &&& forall|k: int|
        0 <= k < path.len() - 1 ==> (#[trigger] path[k]).kind is ExprTuple || path[k].kind
            is ExprList || path[k].kind is ExprStarred
    &&& path.last().kind matches NodeKind::ExprName { id, .. } && id@ == name
}

proof fn lemma_stored_path(target: Node, name: Seq<char>) -> (path: Seq<Node>)
    requires
        target_binds_name(target, name),
    ensures
        is_stored_path(path, name),
        path[0] == target,
    decreases height(target),
{
    match target.kind {
        NodeKind::ExprName { .. } => {
            let path = seq![target];
            assert(path.last() == target);
            path
        },
        NodeKind::ExprTuple { .. } | NodeKind::ExprList { .. } => {
            let elements = children_of(target, Field::Elt);
            let j = choose|j: int|
                0 <= j < elements.len() && target_binds_name(#[trigger] elements[j], name);
            let i = lemma_all_filling_in(target.children@, Field::Elt, j);
            lemma_height_child(target, i);
            let rest = lemma_stored_path(elements[j], name);
            lemma_path_onto(target, rest);
            lemma_stored_onto(target, rest, name);
            seq![target] + rest
        },
        _ => {
            let i = lemma_first_filling_in(target.children@, Field::Value);
            lemma_height_child(target, i);
            let rest = lemma_stored_path(target.children@[i], name);
            lemma_path_onto(target, rest);
            lemma_stored_onto(target, rest, name);
            seq![target] + rest
        },
    }
}

proof fn lemma_stored_onto(target: Node, rest: Seq<Node>, name: Seq<char>)
    requires
        is_stored_path(rest, name),
        is_path(seq![target] + rest),
        target.kind is ExprTuple || target.kind is ExprList || target.kind is ExprStarred,
    ensures
        is_stored_path(seq![target] + rest, name),
{
    let path = seq![target] + rest;
    assert(path.last() == rest.last());
    assert forall|k: int| 0 <= k < path.len() - 1 implies (#[trigger] path[k]).kind is ExprTuple
        || path[k].kind is ExprList || path[k].kind is ExprStarred by {
        if k > 0 {
            assert(path[k] == rest[k - 1]);
        }
    }
}

proof fn lemma_read_among(index: SemanticIndex, scope: ScopeId, nodes: Seq<Node>, i: int) -> (r: int)
    requires
        0 <= i < nodes.len(),
        reading_scope(index, scope, nodes[i]) is Some,
    ensures
        0 <= r < reads_among(index, scope, nodes).len(),
        reads_among(index, scope, nodes)[r] == (ReadModel {
            node: nodes[i],
            nested: reading_scope(index, scope, nodes[i]) != Some(scope),
        }),
    decreases nodes.len(),
{
    let before = reads_among(index, scope, nodes.drop_last());
    if i < nodes.len() - 1 {
        assert(nodes.drop_last()[i] == nodes[i]);
        let r = lemma_read_among(index, scope, nodes.drop_last(), i);
        assert(reads_among(index, scope, nodes)[r] == before[r]);
        r
    } else {
        before.len() as int
    }
}

/// No read is missed: wherever in `statements` a variable of `scope` is loaded, outside what is
/// left out, it is among their reads, and said to be nested exactly when it is in a scope of its
/// own.
pub proof fn law_every_read_counts(
    index: SemanticIndex,
    scope: ScopeId,
    statements: Seq<Node>,
    excluded: TextRange,
    path: Seq<Node>,
    use_scope: ScopeId,
)
    requires
        is_path(path),
        statements.contains(path[0]),
        forall|k: int|
            0 <= k < path.len() ==> excluded.start == excluded.end || !(excluded.start <= (
            #[trigger] path[k]).range.start && path[k].range.end <= excluded.end),
        path.last().kind matches NodeKind::ExprName { id, ctx } && ctx == ExprContext::Load
            && resolved(index, use_scope, id@) == Some(scope),
        index.spec_expression_scope(path.last().id) == Some(use_scope),
    ensures
        exists|r: int|
            0 <= r < reads_in(index, scope, statements, excluded).len() && #[trigger] reads_in(
                index,
                scope,
                statements,
                excluded,
            )[r] == (ReadModel { node: path.last(), nested: use_scope != scope }),
{
    let prune = Prune::Within(excluded);
    let nodes = walked_all(statements, prune);
    let s = statements.index_of(path[0]);
    assert forall|k: int| 0 <= k < path.len() implies !prune.spec_skips(#[trigger] path[k]) by {}
    lemma_path_is_walked(path, prune);
    lemma_walked_among(statements, prune, s, path.last());
    let i = nodes.index_of(path.last());
    let r = lemma_read_among(index, scope, nodes, i);
    assert(reads_in(index, scope, statements, excluded)[r] == (ReadModel {
        node: path.last(),
        nested: use_scope != scope,
    }));
}

proof fn lemma_bound_is_listed(
    index: SemanticIndex,
    symbols: Seq<Symbol>,
    definitions: Seq<DefinitionId>,
    selected: TextRange,
    i: int,
) -> (b: int)
    requires
        bound_among(index, symbols, definitions, selected) is Ok,
        0 <= i < definitions.len(),
        is_bound_here(index.definitions@[definitions[i] as int], selected),
    ensures
        ({
            let bound = bound_among(index, symbols, definitions, selected)->Ok_0;
            let definition = index.definitions@[definitions[i] as int];
            0 <= b < bound.len() && bound[b] == (
                symbols[definition.symbol->0 as int].name@,
                definitions[i],
            )
        }),
    decreases definitions.len(),
{
    let before = bound_among(index, symbols, definitions.drop_last(), selected)->Ok_0;
    let bound = bound_among(index, symbols, definitions, selected)->Ok_0;
    if i < definitions.len() - 1 {
        assert(definitions.drop_last()[i] == definitions[i]);
        let b = lemma_bound_is_listed(index, symbols, definitions.drop_last(), selected, i);
        assert(bound[b] == before[b]);
        b
    } else {
        bound.len() - 1
    }
}

/// What the new function is made of, and where.
pub open spec fn extracted_signature(context: RefactorContext, range: TextRange) -> Signature {
    let site = site_at(context, range)->Ok_0;
    signature_at(context, site, fresh("extracted"@, taken_names(context, site)))->Ok_0
}

/// Whether `path` leads to a load of `name`, a variable of `scope`, in `use_scope`.
pub open spec fn is_load_of(
    index: SemanticIndex,
    scope: ScopeId,
    name: Seq<char>,
    path: Seq<Node>,
    use_scope: ScopeId,
) -> bool {
    &&& is_path(path)
    &&& path.last().kind matches NodeKind::ExprName { id, ctx } && id@ == name && ctx
        == ExprContext::Load
    &&& index.spec_expression_scope(path.last().id) == Some(use_scope)
    &&& resolved(index, use_scope, name) == Some(scope)
}

/// Whether `definition` is made in the text at `selected`.
pub open spec fn is_made_in(index: SemanticIndex, definition: DefinitionId, selected: TextRange) -> bool {
    let made = index.definitions@[definition as int].target_range;
    selected.start <= made.start && made.end <= selected.end
}

/// Wherever in the extracted statements of a function a variable is loaded that may have been
/// bound outside them, it is passed to the new function, unless it is the receiver.
pub proof fn law_what_comes_from_outside_is_passed(
    context: RefactorContext,
    range: TextRange,
    path: Seq<Node>,
    name: Seq<char>,
    definition: DefinitionId,
)
    requires
        extract_function_at(context, range) is Ok,
        ({
            let site = site_at(context, range)->Ok_0;
            &&& site.scope != GLOBAL
            &&& site.statements.contains(path[0])
            &&& site.receiver() != Some(name)
            &&& is_load_of(context.index, site.scope, name, path, site.scope)
            &&& may_read(context.index, site.scope, path.last().id, definition)
            &&& !is_made_in(context.index, definition, site.selected())
        }),
    ensures
        extracted_signature(context, range).parameters.contains(name),
{
    let site = site_at(context, range)->Ok_0;
    let index = context.index;
    let nowhere = TextRange { start: 0, end: 0 };
    let bound = bound_in(index, site.scope, site.selected())->Ok_0;
    let around = Surroundings {
        index,
        scope: site.scope,
        selected: site.selected(),
        receiver: site.receiver(),
        bound,
    };
    let reads = reads_in(index, site.scope, site.statements, nowhere);
    law_every_read_counts(index, site.scope, site.statements, nowhere, path, site.scope);
    let r = choose|r: int|
        0 <= r < reads.len() && #[trigger] reads[r] == (ReadModel {
            node: path.last(),
            nested: site.scope != site.scope,
        });
    assert(reads_outside(index, site.scope, path.last().id, site.selected()));
    assert(is_handed(around, reads[r]));
    law_outside_reads_are_parameters(around, reads, r);
}

/// Wherever in a function, outside the statements that are extracted from it, a variable is loaded
/// that they may have bound, the new function returns it, however deep the load is.
pub proof fn law_what_is_read_later_is_returned(
    context: RefactorContext,
    range: TextRange,
    path: Seq<Node>,
    name: Seq<char>,
    use_scope: ScopeId,
    i: int,
)
    requires
        extract_function_at(context, range) is Ok,
        ({
            let site = site_at(context, range)->Ok_0;
            let scope = context.index.scopes@[site.scope as int];
            let definition = scope.definitions@[i];
            let made = context.index.definitions@[definition as int];
            &&& site.enclosing matches Some(function) && child_of(function, Field::Body) matches Some(
                body,
            ) && body.children@.contains(path[0])
            &&& is_load_of(context.index, site.scope, name, path, use_scope)
            &&& forall|k: int|
                0 <= k < path.len() ==> !(site.selected().start <= (#[trigger] path[k]).range.start
                    && path[k].range.end <= site.selected().end)
            &&& 0 <= i < scope.definitions@.len()
            &&& is_made_in(context.index, definition, site.selected())
            &&& made.symbol matches Some(symbol) && scope.symbols@[symbol as int].name@ == name
            &&& made.kind != DefinitionKind::LoopHeader && made.kind
                != DefinitionKind::NestedBindings
            &&& use_scope != site.scope || may_read(
                context.index,
                site.scope,
                path.last().id,
                definition,
            )
        }),
    ensures
        extracted_signature(context, range).returned.contains(name),
{
    let site = site_at(context, range)->Ok_0;
    let index = context.index;
    let scope = index.scopes@[site.scope as int];
    let definition = scope.definitions@[i];
    let nowhere = TextRange { start: 0, end: 0 };
    let bound = bound_in(index, site.scope, site.selected())->Ok_0;
    let around = Surroundings {
        index,
        scope: site.scope,
        selected: site.selected(),
        receiver: site.receiver(),
        bound,
    };
    let parameters = parameters_of(
        around,
        reads_in(index, site.scope, site.statements, nowhere),
    )->Ok_0;
    let later = later_reads(context, site);
    let body = child_of(site.enclosing->0, Field::Body)->0;
    law_every_read_counts(
        index,
        site.scope,
        body.children@,
        site.selected(),
        path,
        use_scope,
    );
    let r = choose|r: int|
        0 <= r < later.len() && #[trigger] later[r] == (ReadModel {
            node: path.last(),
            nested: use_scope != site.scope,
        });
    let b = lemma_bound_is_listed(index, scope.symbols@, scope.definitions@, site.selected(), i);
    assert(sees(index, site.scope, later[r], name, definition));
    law_later_reads_are_returned(around, site.statements, parameters, later, bound, b);
}

/// Whether `path` leads from `suite` to another one in it.
pub open spec fn is_suite_path(suite: Node, path: Seq<Node>) -> bool {
    is_path(path) && path[0] == suite
}

/// A suite of a statement is in it, or in a clause of it.
proof fn lemma_suite_path(statement: Node, i: int) -> (path: Seq<Node>)
    requires
        0 <= i < suites_in(statement).len(),
    ensures
        is_path(path),
        path[0] == statement,
        path.last() == suites_in(statement)[i],
{
    let suite = suites_in(statement)[i];
    lemma_suite_in(statement, i);
    lemma_path_alone(suite);
    if exists|field: Field| #[trigger] child_of(statement, field) == Some(suite) {
        let field = choose|field: Field| #[trigger] child_of(statement, field) == Some(suite);
        let k = lemma_first_filling_in(statement.children@, field);
        assert(statement.children@[k] == suite);
        lemma_path_onto(statement, seq![suite]);
        seq![statement] + seq![suite]
    } else {
        let (field, k) = choose|field: Field, k: int|
            0 <= k < children_of(statement, field).len() && child_of(
                #[trigger] children_of(statement, field)[k],
                Field::Body,
            ) == Some(suite);
        let clause = children_of(statement, field)[k];
        let c = lemma_all_filling_in(statement.children@, field, k);
        let b = lemma_first_filling_in(clause.children@, Field::Body);
        assert(clause.children@[b] == suite);
        assert(statement.children@[c] == clause);
        lemma_path_onto(clause, seq![suite]);
        let inner = seq![clause] + seq![suite];
        lemma_path_onto(statement, inner);
        seq![statement] + inner
    }
}

proof fn lemma_path_alone(node: Node)
    ensures
        is_path(seq![node]),
        seq![node].last() == node,
{
}

proof fn lemma_overlapping_all(statements: Seq<Node>, range: TextRange, k: int)
    requires
        0 <= k < statements.len(),
        overlaps(statements[k].range, range),
    ensures
        overlapping(statements, range).contains(statements[k]),
    decreases statements.len(),
{
    let all = overlapping(statements, range);
    let before = overlapping(statements.drop_last(), range);
    if k < statements.len() - 1 {
        assert(statements.drop_last()[k] == statements[k]);
        lemma_overlapping_all(statements.drop_last(), range, k);
        assert(all[before.index_of(statements[k])] == statements[k]);
    } else {
        assert(all[all.len() - 1] == statements[k]);
    }
}

/// What is extracted is whole statements of one suite: everything of that suite that the selection
/// takes in any of, from where the first starts to where the last ends, with no other statement on
/// their lines.
pub proof fn law_selected_statements_are_whole(text: Seq<char>, suite: Node, range: TextRange) -> (
    path: Seq<Node>)
    requires
        covered_in(text, suite, range) is Some,
    ensures
        is_suite_path(suite, path),
        ({
            let statements = covered_in(text, suite, range)->0;
            let all = path.last().children@;
            &&& statements.len() > 0
            &&& forall|i: int|
                0 <= i < statements.len() ==> all.contains(#[trigger] statements[i]) && owns_lines(
                    text,
                    statements[i].range,
                )
            &&& forall|k: int|
                0 <= k < all.len() && (#[trigger] all[k]).range.start < range.end && range.start
                    < all[k].range.end && all[k].range.start < all[k].range.end && range.start
                    < range.end ==> statements.contains(all[k])
            &&& range.start <= statements[0].range.start
            &&& statements.last().range.end <= range.end
        }),
    decreases height(suite),
{
    let statements = overlapping(suite.children@, range);
    lemma_inner_suite_height(suite, range);
    if statements.len() == 1 && !covers_statements(text, range, statements[0], statements[0]) {
        let nested = first_touched(suites_in(statements[0]), range)->0;
        lemma_first_touched(suites_in(statements[0]), range);
        let j = suites_in(statements[0]).index_of(nested);
        let k = lemma_overlapping(suite.children@, range, 0);
        let rest = law_selected_statements_are_whole(text, nested, range);
        let middle = lemma_suite_path(statements[0], j);
        lemma_path_joined(middle, rest);
        let below = middle + rest.skip(1);
        assert(suite.children@.contains(below[0]));
        lemma_path_onto(suite, below);
        seq![suite] + below
    } else {
        let path = seq![suite];
        assert(path.last() == suite);
        assert forall|i: int| 0 <= i < statements.len() implies suite.children@.contains(
            #[trigger] statements[i],
        ) by {
            let k = lemma_overlapping(suite.children@, range, i);
        }
        assert forall|k: int|
            0 <= k < suite.children@.len() && (#[trigger] suite.children@[k]).range.start
                < range.end && range.start < suite.children@[k].range.end
                && suite.children@[k].range.start < suite.children@[k].range.end && range.start
                < range.end implies statements.contains(suite.children@[k]) by {
            lemma_overlapping_all(suite.children@, range, k);
        }
        path
    }
}

} // verus!
