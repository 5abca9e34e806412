//! basedpython's `data class` keyword, added to a class or taken off one.
//!
//! `data class Foo` lowers to `@dataclass(slots=True)`, so writing the keyword
//! is a change of meaning the user asks for, not a rewrite that preserves it:
//! the class gains an `__init__`, equality and a `__repr__`. What is refused is
//! a class the keyword cannot apply to, and a class whose instances would stop
//! working once they have slots — one that assigns an attribute the class never
//! declares.

use crate::edit::{
    applied, deleting, inserted_at, inserting, lemma_inserted_fits, lemma_insertion_undone, text_in,
    Edit,
};
use crate::lookup::{find, found, holds};
use crate::name_set::{contains_name, insert_name, names_of, no_names};
use crate::node::{
    child_of, children_of, covering_path, is_path, lemma_path_is_walked, lemma_walked_among,
    node_in, path_to, walk_nodes, walked_all, ExprContext, Field, Node, NodeKind, Prune,
};
use crate::refactor::context::{
    not_applicable, outcome, plan_one, planned, refused, Plan, PlanModel, Refusal, RefusalModel,
    RefactorContext,
};
use crate::refactor::extract_function::{
    first_positional_parameter, has_decorator, is_decorated, receiver_of,
};
use crate::source::is_span;
use crate::strings::{join3, join5, owned, same_text};
use crate::text_size::TextRange;
use crate::tokens::{Token, TokenKind};
use rustc_hash::FxHashSet;
use vstd::prelude::*;
use vstd::string::StringExecFns;

verus! {

#[derive(Debug, Clone, Copy, PartialEq, Eq, Structural)]
pub enum Direction {
    ToDataClass,
    FromDataClass,
}

/// The part of a class before its body.
pub open spec fn header_of(class: Node) -> TextRange {
    TextRange {
        start: class.range.start,
        end: match (child_of(class, Field::Arguments), child_of(class, Field::TypeParams)) {
            (Some(arguments), _) => arguments.range.end,
            (None, Some(type_params)) => type_params.range.end,
            (None, None) => class_name_range(class).end,
        },
    }
}

pub open spec fn class_name_range(class: Node) -> TextRange {
    match class.kind {
        NodeKind::StmtClassDef { name_range, .. } => name_range,
        _ => class.range,
    }
}

/// The last class of `path` whose header contains `range`.
pub open spec fn class_headed(path: Seq<Node>, range: TextRange) -> Option<Node>
    decreases path.len(),
{
    if path.len() == 0 {
        None
    } else if path.last().kind is StmtClassDef && header_of(path.last()).spec_contains_range(
        range,
    ) {
        Some(path.last())
    } else {
        class_headed(path.drop_last(), range)
    }
}

/// Whether `decorator` is what the parser records a `data class` or `frozen data class` with.
pub open spec fn is_marker(decorator: Node) -> bool {
    match child_of(decorator, Field::Expression) {
        Some(expression) => match expression.kind {
            NodeKind::ExprName { id, ctx } => ctx == ExprContext::Invalid && (id@ == "data_class"@
                || id@ == "frozen_data_class"@),
            _ => false,
        },
        None => false,
    }
}

/// The first of `decorators` that marks a data class.
pub open spec fn first_marker(decorators: Seq<Node>) -> Option<Node>
    decreases decorators.len(),
{
    if decorators.len() == 0 {
        None
    } else if is_marker(decorators[0]) {
        Some(decorators[0])
    } else {
        first_marker(decorators.skip(1))
    }
}

/// The statements of a class or a function.
pub open spec fn body_of(definition: Node) -> Seq<Node> {
    match child_of(definition, Field::Body) {
        Some(body) => body.children@,
        None => Seq::empty(),
    }
}

/// The name `statement` gives a value or a type, when it is one name.
pub open spec fn assigned_name(statement: Node) -> Option<Seq<char>> {
    let single = match statement.kind {
        NodeKind::StmtAnnAssign { .. } => true,
        NodeKind::StmtAssign => children_of(statement, Field::Target).len() == 1,
        _ => false,
    };
    match child_of(statement, Field::Target) {
        Some(target) => match target.kind {
            NodeKind::ExprName { id, .. } => if single {
                Some(id@)
            } else {
                None
            },
            _ => None,
        },
        None => None,
    }
}

/// Whether one of `statements` assigns `__slots__`.
pub open spec fn writes_slots(statements: Seq<Node>) -> bool {
    exists|i: int|
        0 <= i < statements.len() && assigned_name(#[trigger] statements[i]) == Some(
            "__slots__"@,
        )
}

/// Whether one of `statements` declares `name`.
pub open spec fn declares(statements: Seq<Node>, name: Seq<char>) -> bool {
    exists|i: int|
        0 <= i < statements.len() && (#[trigger] statements[i]).kind is StmtAnnAssign
            && assigned_name(statements[i]) == Some(name)
}

/// Whether `node` calls `super` with no arguments.
pub open spec fn is_bare_super(node: Node) -> bool {
    &&& node.kind is ExprCall
    &&& child_of(node, Field::Arguments) matches Some(arguments) ==> arguments.children@.len() == 0
    &&& child_of(node, Field::Func) matches Some(func)
    &&& func.kind matches NodeKind::ExprName { id, .. }
    &&& id@ == "super"@
}

/// Whether anything in `statements` calls `super` with no arguments, outside a nested class —
/// which binds a `__class__` of its own, so that a `super()` in it is not this class's.
pub open spec fn calls_bare_super(statements: Seq<Node>) -> bool {
    exists|i: int|
        0 <= i < walked_all(statements, Prune::Classes).len() && is_bare_super(
            #[trigger] walked_all(statements, Prune::Classes)[i],
        )
}

/// The attribute of `receiver` that `node` assigns, when the class, whose statements are
/// `class_body`, does not declare it.
pub open spec fn undeclared_write(
    node: Node,
    receiver: Seq<char>,
    class_body: Seq<Node>,
) -> Option<Seq<char>> {
    match node.kind {
        NodeKind::ExprAttribute { attr, ctx, .. } => match child_of(node, Field::Value) {
            Some(value) => match value.kind {
                NodeKind::ExprName { id, .. } => if ctx == ExprContext::Store && id@ == receiver
                    && !declares(class_body, attr@) {
                    Some(attr@)
                } else {
                    None
                },
                _ => None,
            },
            None => None,
        },
        _ => None,
    }
}

/// The first attribute among `nodes` assigned and not declared.
pub open spec fn first_undeclared(
    nodes: Seq<Node>,
    receiver: Seq<char>,
    class_body: Seq<Node>,
) -> Option<Seq<char>>
    decreases nodes.len(),
{
    if nodes.len() == 0 {
        None
    } else {
        match undeclared_write(nodes[0], receiver, class_body) {
            Some(attribute) => Some(attribute),
            None => first_undeclared(nodes.skip(1), receiver, class_body),
        }
    }
}

pub open spec fn function_name(function: Node) -> Seq<char> {
    match function.kind {
        NodeKind::StmtFunctionDef { name, .. } => name@,
        _ => Seq::empty(),
    }
}

/// Whether `method` is declared without a receiver, by decorator or by basedpython modifier.
pub open spec fn is_static(method: Node) -> bool {
    is_decorated(method, "staticmethod"@) || is_decorated(method, "static"@)
}

/// Why `method` would break in a class with slots.
pub open spec fn method_obstacle(method: Node, class_body: Seq<Node>) -> Option<Seq<char>> {
    let name = function_name(method);
    if calls_bare_super(body_of(method)) {
        Some(
            "`"@ + name
                + "` calls `super()` with no arguments, and a slotted data class is a new class its methods do not close over — the call would raise at runtime"@,
        )
    } else if is_static(method) {
        // a static method's first parameter is not a receiver however it is named
        None
    } else {
        match receiver_of(method) {
            None => None,
            // a nested function or class has a receiver of its own
            Some(receiver) => match first_undeclared(
                walked_all(body_of(method), Prune::Definitions),
                receiver,
                class_body,
            ) {
                Some(attribute) => Some(
                    "`"@ + name + "` assigns `"@ + receiver + "."@ + attribute
                        + "`, which the class does not declare, and a slotted data class has no room for it"@,
                ),
                None => None,
            },
        }
    }
}

/// Why the first method among `statements` that would break in a class with slots would.
pub open spec fn first_obstacle(statements: Seq<Node>, class_body: Seq<Node>) -> Option<Seq<char>>
    decreases statements.len(),
{
    if statements.len() == 0 {
        None
    } else {
        let own = if statements[0].kind is StmtFunctionDef {
            method_obstacle(statements[0], class_body)
        } else {
            None
        };
        match own {
            Some(reason) => Some(reason),
            None => first_obstacle(statements.skip(1), class_body),
        }
    }
}

/// Why `class` would break once the dataclass machinery ran over it: the class writes its own
/// `__slots__`, a method assigns an attribute of the instance the class body does not declare,
/// or a method calls `super()` with no arguments.
///
/// The last of those is about slots rather than about `super`: building a slotted class means
/// building a *new* class object, and the `__class__` cell the methods closed over still points
/// at the original. `super()` reads that cell, so it would raise `TypeError` at runtime — which
/// is why `dataclasses` documents zero-argument `super()` as not working under `slots=True`.
pub open spec fn breaks_with_slots(class: Node) -> Option<Seq<char>> {
    if writes_slots(body_of(class)) {
        Some("the class writes its own `__slots__`, and a data class makes its own"@)
    } else {
        first_obstacle(body_of(class), body_of(class))
    }
}

/// The field `statement` gives a `dataclasses.field(...)` default, when it does.
pub open spec fn field_default(field_calls: Seq<u32>, statement: Node) -> Option<Seq<char>> {
    match (child_of(statement, Field::Target), child_of(statement, Field::Value)) {
        (Some(target), Some(value)) => match target.kind {
            NodeKind::ExprName { id, .. } => if statement.kind is StmtAnnAssign
                && value.kind is ExprCall && field_calls.contains(value.id) {
                Some(id@)
            } else {
                None
            },
            _ => None,
        },
        _ => None,
    }
}

/// The first field among `statements` whose default is a `dataclasses.field(...)` call, which
/// means something only while the dataclass machinery is there to read it.
///
/// Which function is called is asked of the checker rather than read off the name, so a
/// `field` the project defines itself is not mistaken for this one, and
/// `dataclasses.field` is still recognised however it was imported or aliased.
pub open spec fn first_field_default(field_calls: Seq<u32>, statements: Seq<Node>) -> Option<
    Seq<char>,
>
    decreases statements.len(),
{
    if statements.len() == 0 {
        None
    } else {
        match field_default(field_calls, statements[0]) {
            Some(field) => Some(field),
            None => first_field_default(field_calls, statements.skip(1)),
        }
    }
}

/// The last `class` keyword among `tokens` that lies in `range`.
pub open spec fn last_class_keyword(tokens: Seq<Token>, range: TextRange) -> Option<Token>
    decreases tokens.len(),
{
    if tokens.len() == 0 {
        None
    } else if tokens.last().kind == TokenKind::Class && range.spec_contains_range(
        tokens.last().range,
    ) {
        Some(tokens.last())
    } else {
        last_class_keyword(tokens.drop_last(), range)
    }
}

/// What adding the keyword to a class, or taking it off one, comes to.
pub open spec fn data_class_at(
    context: RefactorContext,
    range: TextRange,
    direction: Direction,
) -> Result<PlanModel, RefusalModel> {
    if !context.is_basedpython || !context.module.range.spec_contains_range(range) {
        not_applicable()
    } else {
        match class_headed(path_to(context.module, range), range) {
            None => not_applicable(),
            Some(class) => match (direction, first_marker(children_of(class, Field::Decorator))) {
                (Direction::FromDataClass, Some(marker)) => from_data_class(
                    context,
                    class,
                    marker,
                ),
                (Direction::ToDataClass, None) => to_data_class(context, class),
                _ => not_applicable(),
            },
        }
    }
}

/// What taking the keyword `marker` off `class` comes to.
///
/// Taking the keyword off takes the generated `__init__` with it, and that is the change of
/// meaning being asked for: a field then has no way to be filled, which the checker reports at
/// every call that relied on it. A `field(...)` default is different — nothing reports it. The
/// dataclass machinery reads that descriptor and replaces it; without it the `Field` object
/// simply *is* the attribute's value, on every instance at once.
pub open spec fn from_data_class(context: RefactorContext, class: Node, marker: Node) -> Result<
    PlanModel,
    RefusalModel,
> {
    let title = "Convert to a plain class"@;
    match first_field_default(context.checker.field_calls@, body_of(class)) {
        Some(field) => refused(
            title,
            "`"@ + field
                + "` has a `field(...)` default, which only the dataclass machinery reads — a plain class would hold the descriptor itself"@,
        ),
        None => planned(title, seq![deleting(marker.range)]),
    }
}

/// What adding the keyword to `class` comes to.
pub open spec fn to_data_class(context: RefactorContext, class: Node) -> Result<
    PlanModel,
    RefusalModel,
> {
    let title = "Convert to a data class"@;
    let before_name = TextRange {
        start: class.range.start,
        end: class_name_range(class).start,
    };
    match found(context.checker.data_class_obstacles@, class.id) {
        Some(reason) => refused(title, reason@),
        None => match breaks_with_slots(class) {
            Some(reason) => refused(title, reason),
            None => match last_class_keyword(context.tokens@, before_name) {
                Some(keyword) => planned(
                    title,
                    seq![inserting("data "@, keyword.range.start as int)],
                ),
                None => not_applicable(),
            },
        },
    }
}

fn name_range_of(class: &Node) -> (range: TextRange)
    ensures
        range == class_name_range(*class),
{
    match &class.kind {
        NodeKind::StmtClassDef { name_range, .. } => *name_range,
        _ => class.range,
    }
}

/// The part of a class before its body.
fn header(class: &Node) -> (header: TextRange)
    ensures
        header == header_of(*class),
{
    let end = match class.child(Field::Arguments) {
        Some(arguments) => arguments.range.end,
        None => match class.child(Field::TypeParams) {
            Some(type_params) => type_params.range.end,
            None => name_range_of(class).end,
        },
    };
    TextRange { start: class.range.start, end }
}

fn find_class<'a>(path: &Vec<&'a Node>, range: TextRange) -> (found: Option<&'a Node>)
    ensures
        node_in(found) == class_headed(path@.unref(), range),
{
    let ghost all = path@.unref();
    let mut left: usize = path.len();
    assert(all.take(all.len() as int) =~= all);
    while left > 0
        invariant
            left <= path.len(),
            all == path@.unref(),
            class_headed(all, range) == class_headed(all.take(left as int), range),
        decreases left,
    {
        assert(all.take(left as int).drop_last() =~= all.take(left - 1));
        assert(all.take(left as int).last() == *path@[left - 1]);
        let node = path[left - 1];
        if matches!(node.kind, NodeKind::StmtClassDef { .. }) && header(node).contains_range(
            range,
        ) {
            return Some(node);
        }
        left -= 1;
    }
    None
}

fn marks_data_class(decorator: &Node) -> (marks: bool)
    ensures
        marks == is_marker(*decorator),
{
    match decorator.child(Field::Expression) {
        Some(expression) => match &expression.kind {
            NodeKind::ExprName { id, ctx } => *ctx == ExprContext::Invalid && (same_text(
                id.as_str(),
                "data_class",
            ) || same_text(id.as_str(), "frozen_data_class")),
            _ => false,
        },
        None => false,
    }
}

fn find_marker<'a>(class: &'a Node) -> (found: Option<&'a Node>)
    ensures
        node_in(found) == first_marker(children_of(*class, Field::Decorator)),
{
    let decorators = class.children_filling(Field::Decorator);
    let ghost all = children_of(*class, Field::Decorator);
    let mut i: usize = 0;
    assert(all.skip(0) =~= all);
    while i < decorators.len()
        invariant
            i <= decorators.len(),
            decorators@.unref() == all,
            first_marker(all) == first_marker(all.skip(i as int)),
            all == children_of(*class, Field::Decorator),
        decreases decorators.len() - i,
    {
        assert(*decorators@[i as int] == all[i as int]);
        assert(all.skip(i as int)[0] == all[i as int]);
        assert(all.skip(i as int).skip(1) =~= all.skip(i + 1));
        if marks_data_class(decorators[i]) {
            return Some(decorators[i]);
        }
        i += 1;
    }
    None
}

fn name_assigned<'a>(statement: &'a Node) -> (name: Option<&'a str>)
    ensures
        match name {
            Some(name) => assigned_name(*statement) == Some(name@),
            None => assigned_name(*statement) is None,
        },
{
    let single = match &statement.kind {
        NodeKind::StmtAnnAssign { .. } => true,
        NodeKind::StmtAssign => statement.children_filling(Field::Target).len() == 1,
        _ => false,
    };
    assert(statement.kind is StmtAssign ==> single == (children_of(
        *statement,
        Field::Target,
    ).len() == 1));
    if !single {
        return None;
    }
    match statement.child(Field::Target) {
        Some(target) => match &target.kind {
            NodeKind::ExprName { id, .. } => Some(id.as_str()),
            _ => None,
        },
        None => None,
    }
}

/// Whether anything in `body` calls `super` with no arguments, outside a nested class.
fn bare_super_call(body: &Vec<Node>) -> (calls: bool)
    ensures
        calls == calls_bare_super(body@),
{
    let nodes = walk_nodes(body, Prune::Classes);
    let ghost all = walked_all(body@, Prune::Classes);
    let mut i: usize = 0;
    while i < nodes.len()
        invariant
            i <= nodes.len(),
            nodes@.unref() == all,
            all == walked_all(body@, Prune::Classes),
            forall|j: int|
                0 <= j < i ==> !is_bare_super(#[trigger] walked_all(body@, Prune::Classes)[j]),
        decreases nodes.len() - i,
    {
        assert(*nodes@[i as int] == all[i as int]);
        let node = nodes[i];
        if matches!(node.kind, NodeKind::ExprCall { .. }) {
            let no_arguments = match node.child(Field::Arguments) {
                Some(arguments) => arguments.children.len() == 0,
                None => true,
            };
            if let Some(func) = node.child(Field::Func) {
                if let NodeKind::ExprName { id, .. } = &func.kind {
                    if no_arguments && same_text(id.as_str(), "super") {
                        assert(is_bare_super(walked_all(body@, Prune::Classes)[i as int]));
                        return true;
                    }
                }
            }
        }
        i += 1;
    }
    false
}

/// The names `statements` declare.
fn declared_names(statements: &Vec<Node>) -> (declared: FxHashSet<String>)
    ensures
        forall|name: Seq<char>| #[trigger]
            names_of(declared).contains(name) <==> declares(statements@, name),
{
    let mut declared = no_names();
    let mut i: usize = 0;
    while i < statements.len()
        invariant
            i <= statements.len(),
            forall|name: Seq<char>| #[trigger]
                names_of(declared).contains(name) <==> declares(statements@.take(i as int), name),
        decreases statements.len() - i,
    {
        let ghost before = names_of(declared);
        let ghost some = statements@.take(i as int);
        let ghost more = statements@.take(i + 1);
        let statement = &statements[i];
        let mut added = false;
        if matches!(statement.kind, NodeKind::StmtAnnAssign { .. }) {
            if let Some(name) = name_assigned(statement) {
                insert_name(&mut declared, owned(name));
                added = true;
            }
        }
        assert forall|name: Seq<char>| #[trigger]
            names_of(declared).contains(name) <==> declares(more, name) by {
            assert(before.contains(name) <==> declares(some, name));
            if declares(some, name) {
                let k = choose|k: int|
                    0 <= k < some.len() && (#[trigger] some[k]).kind is StmtAnnAssign
                        && assigned_name(some[k]) == Some(name);
                assert(more[k] == some[k]);
            }
            if declares(more, name) {
                let k = choose|k: int|
                    0 <= k < more.len() && (#[trigger] more[k]).kind is StmtAnnAssign
                        && assigned_name(more[k]) == Some(name);
                if k < i {
                    assert(some[k] == more[k]);
                } else {
                    assert(more[k] == statements@[i as int]);
                }
            }
            if added && Some(name) == assigned_name(*statement) {
                assert(more[i as int] == *statement);
            }
        }
        i += 1;
    }
    assert(statements@.take(i as int) =~= statements@);
    declared
}

/// The first attribute of `receiver` assigned in `body` and not among `declared`.
fn undeclared_attribute(
    body: &Vec<Node>,
    receiver: &str,
    declared: &FxHashSet<String>,
    class_body: &Vec<Node>,
) -> (attribute: Option<String>)
    requires
        forall|name: Seq<char>| #[trigger]
            names_of(*declared).contains(name) <==> declares(class_body@, name),
    ensures
        text_in(attribute) == first_undeclared(
            walked_all(body@, Prune::Definitions),
            receiver@,
            class_body@,
        ),
{
    let nodes = walk_nodes(body, Prune::Definitions);
    let ghost all = walked_all(body@, Prune::Definitions);
    let mut i: usize = 0;
    assert(all.skip(0) =~= all);
    while i < nodes.len()
        invariant
            i <= nodes.len(),
            nodes@.unref() == all,
            all == walked_all(body@, Prune::Definitions),
            forall|name: Seq<char>| #[trigger]
                names_of(*declared).contains(name) <==> declares(class_body@, name),
            first_undeclared(all, receiver@, class_body@) == first_undeclared(
                all.skip(i as int),
                receiver@,
                class_body@,
            ),
        decreases nodes.len() - i,
    {
        assert(*nodes@[i as int] == all[i as int]);
        assert(all.skip(i as int)[0] == all[i as int]);
        assert(all.skip(i as int).skip(1) =~= all.skip(i + 1));
        if let NodeKind::ExprAttribute { attr, ctx, .. } = &nodes[i].kind {
            if *ctx == ExprContext::Store {
                if let Some(value) = nodes[i].child(Field::Value) {
                    if let NodeKind::ExprName { id, .. } = &value.kind {
                        if same_text(id.as_str(), receiver) && !contains_name(
                            declared,
                            attr.as_str(),
                        ) {
                            return Some(owned(attr.as_str()));
                        }
                    }
                }
            }
        }
        i += 1;
    }
    None
}

/// Whether `method` is declared without a receiver, by decorator or by basedpython modifier.
fn is_static_method(method: &Node) -> (is_static_: bool)
    ensures
        is_static_ == is_static(*method),
{
    has_decorator(method, "staticmethod") || has_decorator(method, "static")
}

/// Why `method` would break in a class with slots.
fn find_method_obstacle(
    method: &Node,
    declared: &FxHashSet<String>,
    class_body: &Vec<Node>,
) -> (reason: Option<String>)
    requires
        method.kind is StmtFunctionDef,
        forall|name: Seq<char>| #[trigger]
            names_of(*declared).contains(name) <==> declares(class_body@, name),
    ensures
        text_in(reason) == method_obstacle(*method, class_body@),
{
    let name = match &method.kind {
        NodeKind::StmtFunctionDef { name, .. } => name.as_str(),
        _ => {
            return None;
        },
    };
    let empty: Vec<Node> = Vec::new();
    let body = match method.child(Field::Body) {
        Some(body) => &body.children,
        None => &empty,
    };
    assert(body@ =~= body_of(*method));
    if bare_super_call(body) {
        return Some(
            join3(
                "`",
                name,
                "` calls `super()` with no arguments, and a slotted data class is a new class its methods do not close over — the call would raise at runtime",
            ),
        );
    }
    if is_static_method(method) {
        return None;
    }
    if let Some(parameter) = first_positional_parameter(method) {
        if let NodeKind::Parameter { name: receiver, .. } = &parameter.kind {
            let found = undeclared_attribute(body, receiver.as_str(), declared, class_body);
            if let Some(attribute) = found {
                let mut reason = join5("`", name, "` assigns `", receiver.as_str(), ".");
                reason.append(attribute.as_str());
                reason.append(
                    "`, which the class does not declare, and a slotted data class has no room for it",
                );
                return Some(reason);
            }
        }
    }
    None
}

/// Why `class` would break once the dataclass machinery ran over it.
fn slots_obstacle(class: &Node) -> (reason: Option<String>)
    ensures
        text_in(reason) == breaks_with_slots(*class),
{
    let empty: Vec<Node> = Vec::new();
    let body = match class.child(Field::Body) {
        Some(body) => &body.children,
        None => &empty,
    };
    assert(body@ =~= body_of(*class));
    let mut i: usize = 0;
    while i < body.len()
        invariant
            i <= body.len(),
            body@ == body_of(*class),
            forall|j: int| 0 <= j < i ==> assigned_name(#[trigger] body@[j]) != Some("__slots__"@),
        decreases body.len() - i,
    {
        if let Some(name) = name_assigned(&body[i]) {
            if same_text(name, "__slots__") {
                assert(assigned_name(body_of(*class)[i as int]) == Some("__slots__"@));
                return Some(
                    owned("the class writes its own `__slots__`, and a data class makes its own"),
                );
            }
        }
        i += 1;
    }
    let declared = declared_names(body);
    let mut i: usize = 0;
    assert(body@.skip(0) =~= body@);
    while i < body.len()
        invariant
            i <= body.len(),
            forall|name: Seq<char>| #[trigger]
                names_of(declared).contains(name) <==> declares(body@, name),
            breaks_with_slots(*class) == first_obstacle(body@, body@),
            first_obstacle(body@, body@) == first_obstacle(body@.skip(i as int), body@),
        decreases body.len() - i,
    {
        assert(body@.skip(i as int)[0] == body@[i as int]);
        assert(body@.skip(i as int).skip(1) =~= body@.skip(i + 1));
        if matches!(body[i].kind, NodeKind::StmtFunctionDef { .. }) {
            let reason = find_method_obstacle(&body[i], &declared, body);
            if reason.is_some() {
                return reason;
            }
        }
        i += 1;
    }
    None
}

/// The first field of `class` whose default is a `dataclasses.field(...)` call.
fn dataclass_only_default(field_calls: &Vec<u32>, class: &Node) -> (field: Option<String>)
    ensures
        text_in(field) == first_field_default(field_calls@, body_of(*class)),
{
    let empty: Vec<Node> = Vec::new();
    let body = match class.child(Field::Body) {
        Some(body) => &body.children,
        None => &empty,
    };
    assert(body@ =~= body_of(*class));
    let mut i: usize = 0;
    assert(body@.skip(0) =~= body@);
    while i < body.len()
        invariant
            i <= body.len(),
            first_field_default(field_calls@, body@) == first_field_default(
                field_calls@,
                body@.skip(i as int),
            ),
            body@ == body_of(*class),
        decreases body.len() - i,
    {
        assert(body@.skip(i as int)[0] == body@[i as int]);
        assert(body@.skip(i as int).skip(1) =~= body@.skip(i + 1));
        let statement = &body[i];
        if matches!(statement.kind, NodeKind::StmtAnnAssign { .. }) {
            if let Some(target) = statement.child(Field::Target) {
                if let Some(value) = statement.child(Field::Value) {
                    if let NodeKind::ExprName { id, .. } = &target.kind {
                        if matches!(value.kind, NodeKind::ExprCall { .. }) && holds(
                            field_calls,
                            value.id,
                        ) {
                            return Some(owned(id.as_str()));
                        }
                    }
                }
            }
        }
        i += 1;
    }
    None
}

/// The last `class` keyword among `tokens` that lies in `range`.
fn find_class_keyword(tokens: &Vec<Token>, range: TextRange) -> (found: Option<Token>)
    ensures
        found == last_class_keyword(tokens@, range),
{
    let mut left: usize = tokens.len();
    assert(tokens@.take(tokens@.len() as int) =~= tokens@);
    while left > 0
        invariant
            left <= tokens.len(),
            last_class_keyword(tokens@, range) == last_class_keyword(
                tokens@.take(left as int),
                range,
            ),
        decreases left,
    {
        assert(tokens@.take(left as int).drop_last() =~= tokens@.take(left - 1));
        assert(tokens@.take(left as int).last() == tokens@[left - 1]);
        if tokens[left - 1].kind == TokenKind::Class && range.contains_range(
            tokens[left - 1].range,
        ) {
            return Some(tokens[left - 1]);
        }
        left -= 1;
    }
    None
}

/// Plans adding the `data` keyword to the class at `range`, or taking it off.
pub fn plan(context: &RefactorContext, range: TextRange, direction: Direction) -> (plan: Result<
    Plan,
    Refusal,
>)
    ensures
        outcome(plan) == data_class_at(*context, range, direction),
{
    if !context.is_basedpython || !context.module.range.contains_range(range) {
        return Err(Refusal::NotApplicable);
    }
    let path = covering_path(&context.module, range);
    let class = match find_class(&path, range) {
        Some(class) => class,
        None => {
            return Err(Refusal::NotApplicable);
        },
    };
    match (direction, find_marker(class)) {
        (Direction::FromDataClass, Some(marker)) => {
            let title = "Convert to a plain class";
            if let Some(field) = dataclass_only_default(&context.checker.field_calls, class) {
                let reason = join3(
                    "`",
                    field.as_str(),
                    "` has a `field(...)` default, which only the dataclass machinery reads — a plain class would hold the descriptor itself",
                );
                return Err(Refusal::Refused { title: owned(title), reason });
            }
            Ok(plan_one(owned(title), Edit::range_deletion(marker.range)))
        },
        (Direction::ToDataClass, None) => {
            let title = "Convert to a data class";
            if let Some(reason) = find(&context.checker.data_class_obstacles, class.id) {
                return Err(Refusal::refused(title, reason.as_str()));
            }
            if let Some(reason) = slots_obstacle(class) {
                return Err(Refusal::Refused { title: owned(title), reason });
            }
            let before_name = TextRange {
                start: class.range.start,
                end: name_range_of(class).start,
            };
            match find_class_keyword(&context.tokens, before_name) {
                Some(keyword) => Ok(
                    plan_one(
                        owned(title),
                        Edit::insertion(owned("data "), keyword.range.start),
                    ),
                ),
                None => Err(Refusal::NotApplicable),
            }
        },
        _ => Err(Refusal::NotApplicable),
    }
}

/// A class that becomes a data class has nothing that breaks once its instances have slots, and
/// nothing but the keyword is written.
pub proof fn law_slots_are_safe(context: RefactorContext, range: TextRange)
    requires
        data_class_at(context, range, Direction::ToDataClass) is Ok,
    ensures
        class_headed(path_to(context.module, range), range) matches Some(class) && {
            let edits = (data_class_at(context, range, Direction::ToDataClass)->Ok_0).edits;
            &&& breaks_with_slots(class) is None
            &&& found(context.checker.data_class_obstacles@, class.id) is None
            &&& edits.len() == 1
            &&& edits[0].content == Some("data "@)
        },
{
}

/// No class can be converted both ways: the keyword is added to a class without one, and taken
/// off a class that has one.
pub proof fn law_one_direction(context: RefactorContext, range: TextRange)
    ensures
        !(data_class_at(context, range, Direction::ToDataClass) is Ok && data_class_at(
            context,
            range,
            Direction::FromDataClass,
        ) is Ok),
{
}

proof fn lemma_class_keyword(tokens: Seq<Token>, range: TextRange) -> (i: int)
    requires
        last_class_keyword(tokens, range) is Some,
    ensures
        0 <= i < tokens.len(),
        last_class_keyword(tokens, range) == Some(tokens[i]),
    decreases tokens.len(),
{
    if tokens.last().kind == TokenKind::Class && range.spec_contains_range(tokens.last().range) {
        tokens.len() - 1
    } else {
        let i = lemma_class_keyword(tokens.drop_last(), range);
        assert(tokens.drop_last()[i] == tokens[i]);
        i
    }
}

/// Whether the class at `range` is marked as a data class by what is written at `at`, and none of
/// its fields has a default that only the dataclass machinery reads.
pub open spec fn is_marked_at(context: RefactorContext, range: TextRange, at: TextRange) -> bool {
    &&& context.is_basedpython
    &&& context.module.range.spec_contains_range(range)
    &&& class_headed(path_to(context.module, range), range) matches Some(class) && {
        &&& first_marker(children_of(class, Field::Decorator)) matches Some(marker) && marker.range
            == at
        &&& first_field_default(context.checker.field_calls@, body_of(class)) is None
    }
}

/// The two directions undo each other: where the keyword that makes a class a data class is read
/// as its marker, taking it off again is planned, and gives back the text there was before. What
/// is a data class does not become one, nor what is none a plain class.
pub proof fn law_directions_undo_each_other(
    before: RefactorContext,
    range: TextRange,
    after: RefactorContext,
    marked: TextRange,
)
    requires
        before.wf(),
        after.wf(),
        data_class_at(before, range, Direction::ToDataClass) matches Ok(plan) && after.source@
            == applied(before.source@, plan.edits[0]) && is_marked_at(
            after,
            marked,
            inserted_at("data "@, plan.edits[0].range.start as int),
        ),
    ensures
        data_class_at(after, marked, Direction::FromDataClass) matches Ok(back)
            && back.edits.len() == 1 && applied(after.source@, back.edits[0]) == before.source@,
        data_class_at(after, marked, Direction::ToDataClass) == not_applicable(),
        data_class_at(before, range, Direction::FromDataClass) == not_applicable(),
{
    let class = class_headed(path_to(before.module, range), range)->0;
    let before_name = TextRange {
        start: class.range.start,
        end: class_name_range(class).start,
    };
    let i = lemma_class_keyword(before.tokens@, before_name);
    assert(is_span(before.source@, before.tokens@[i].range));
    let at = before.tokens@[i].range.start as int;
    lemma_inserted_fits(before.source@, "data "@, at);
    lemma_insertion_undone(before.source@, "data "@, at);
}

/// Whether `path` leads from one of `statements` to something in it, without going into a class.
pub open spec fn is_outside_classes(statements: Seq<Node>, path: Seq<Node>) -> bool {
    &&& is_path(path)
    &&& statements.contains(path[0])
    &&& forall|k: int| 0 <= k < path.len() ==> !((#[trigger] path[k]).kind is StmtClassDef)
}

proof fn lemma_no_obstacle(statements: Seq<Node>, class_body: Seq<Node>, i: int)
    requires
        first_obstacle(statements, class_body) is None,
        0 <= i < statements.len(),
        statements[i].kind is StmtFunctionDef,
    ensures
        method_obstacle(statements[i], class_body) is None,
    decreases statements.len(),
{
    if i > 0 {
        assert(statements.skip(1)[i - 1] == statements[i]);
        lemma_no_obstacle(statements.skip(1), class_body, i - 1);
    }
}

proof fn lemma_no_undeclared(
    nodes: Seq<Node>,
    receiver: Seq<char>,
    class_body: Seq<Node>,
    i: int,
)
    requires
        first_undeclared(nodes, receiver, class_body) is None,
        0 <= i < nodes.len(),
    ensures
        undeclared_write(nodes[i], receiver, class_body) is None,
    decreases nodes.len(),
{
    if i > 0 {
        assert(nodes.skip(1)[i - 1] == nodes[i]);
        lemma_no_undeclared(nodes.skip(1), receiver, class_body, i - 1);
    }
}

/// Whether `node` calls something named `super`.
pub open spec fn is_call_of_super(node: Node) -> bool {
    &&& node.kind is ExprCall
    &&& child_of(node, Field::Func) matches Some(func) && func.kind matches NodeKind::ExprName {
        id,
        ..
    } && id@ == "super"@
}

/// Whether `node` is `receiver.attribute`, assigned to.
pub open spec fn is_stored_to(node: Node, receiver: Seq<char>, attribute: Seq<char>) -> bool {
    &&& node.kind matches NodeKind::ExprAttribute { attr, ctx, .. } && attr@ == attribute && ctx
        == ExprContext::Store
    &&& child_of(node, Field::Value) matches Some(value) && value.kind matches NodeKind::ExprName {
        id,
        ..
    } && id@ == receiver
}

/// Whether `statement` declares `name` with a type.
pub open spec fn is_declaration_of(statement: Node, name: Seq<char>) -> bool {
    &&& statement.kind is StmtAnnAssign
    &&& child_of(statement, Field::Target) matches Some(target)
        && target.kind matches NodeKind::ExprName { id, .. } && id@ == name
}

/// Nothing in a method of a class that becomes a data class stops working once its instances have
/// slots: no call of `super()` without arguments, however deep, and no assignment through the
/// method's receiver to an attribute that the class body does not declare with a type.
pub proof fn law_methods_work_with_slots(
    context: RefactorContext,
    range: TextRange,
    i: int,
    path: Seq<Node>,
    attribute: Seq<char>,
)
    requires
        data_class_at(context, range, Direction::ToDataClass) is Ok,
        class_headed(path_to(context.module, range), range) matches Some(class) && {
            let body = child_of(class, Field::Body)->0.children@;
            &&& child_of(class, Field::Body) is Some
            &&& 0 <= i < body.len()
            &&& body[i].kind is StmtFunctionDef
            &&& child_of(body[i], Field::Body) matches Some(suite) && is_outside_classes(
                suite.children@,
                path,
            )
        },
    ensures
        ({
            let class = class_headed(path_to(context.module, range), range)->0;
            let body = child_of(class, Field::Body)->0.children@;
            let method = body[i];
            let node = path.last();
            &&& is_call_of_super(node) ==> (child_of(node, Field::Arguments) matches Some(arguments)
                && arguments.children@.len() > 0)
            &&& receiver_of(method) is Some && is_stored_to(node, receiver_of(method)->0, attribute)
                && !is_decorated(method, "staticmethod"@) && !is_decorated(method, "static"@) && (
            forall|k: int| 0 <= k < path.len() ==> !((#[trigger] path[k]).kind is StmtFunctionDef))
                ==> exists|d: int|
                0 <= d < body.len() && is_declaration_of(#[trigger] body[d], attribute)
        }),
{
    let class = class_headed(path_to(context.module, range), range)->0;
    let body = child_of(class, Field::Body)->0.children@;
    let method = body[i];
    let statements = child_of(method, Field::Body)->0.children@;
    assert(body_of(class) == body);
    assert(body_of(method) == statements);
    lemma_no_obstacle(body, body, i);
    let s = statements.index_of(path[0]);
    lemma_path_is_walked(path, Prune::Classes);
    lemma_walked_among(statements, Prune::Classes, s, path.last());
    let walk = walked_all(statements, Prune::Classes);
    let w = walk.index_of(path.last());
    assert(!is_bare_super(walk[w]));
    if forall|k: int| 0 <= k < path.len() ==> !((#[trigger] path[k]).kind is StmtFunctionDef) {
        lemma_path_is_walked(path, Prune::Definitions);
        lemma_walked_among(statements, Prune::Definitions, s, path.last());
        let walk = walked_all(statements, Prune::Definitions);
        let w = walk.index_of(path.last());
        if let Some(receiver) = receiver_of(method) {
            if !is_static(method) {
                lemma_no_undeclared(walk, receiver, body, w);
                if is_stored_to(path.last(), receiver, attribute) {
                    let d = choose|d: int|
                        0 <= d < body.len() && (#[trigger] body[d]).kind is StmtAnnAssign
                            && assigned_name(body[d]) == Some(attribute);
                    assert(is_declaration_of(body[d], attribute));
                }
            }
        }
    }
}

/// No class that makes its own slots becomes a data class, and no data class becomes a plain one
/// while a field of it has a default that only a data class reads.
pub proof fn law_unsuitable_classes_stay_what_they_are(
    context: RefactorContext,
    class: Node,
    marker: Node,
    body: Node,
    i: int,
    target: Node,
)
    requires
        child_of(class, Field::Body) == Some(body),
        0 <= i < body.children@.len(),
        child_of(body.children@[i], Field::Target) == Some(target),
        target.kind is ExprName,
    ensures
        target.kind matches NodeKind::ExprName { id, .. } && id@ == "__slots__"@ && (
        body.children@[i].kind is StmtAnnAssign || body.children@[i].kind is StmtAssign
            && children_of(body.children@[i], Field::Target).len() == 1) ==> to_data_class(
            context,
            class,
        ) is Err,
        body.children@[i].kind is StmtAnnAssign && (child_of(
            body.children@[i],
            Field::Value,
        ) matches Some(value) && value.kind is ExprCall
            && context.checker.field_calls@.contains(value.id)) ==> from_data_class(
            context,
            class,
            marker,
        ) is Err,
{
    let statements = body_of(class);
    assert(statements[i] == body.children@[i]);
    if let NodeKind::ExprName { id, .. } = target.kind {
        if id@ == "__slots__"@ && assigned_name(statements[i]) == Some(id@) {
            assert(writes_slots(statements));
        }
    }
    if field_default(context.checker.field_calls@, statements[i]) is Some {
        lemma_first_field_default(context.checker.field_calls@, statements, i);
    }
}

proof fn lemma_first_field_default(field_calls: Seq<u32>, statements: Seq<Node>, i: int)
    requires
        0 <= i < statements.len(),
        field_default(field_calls, statements[i]) is Some,
    ensures
        first_field_default(field_calls, statements) is Some,
    decreases statements.len(),
{
    if i > 0 {
        assert(statements.skip(1)[i - 1] == statements[i]);
        lemma_first_field_default(field_calls, statements.skip(1), i - 1);
    }
}

} // verus!
