//! The syntax tree of a file, as plain values.
//!
//! Every node has the same shape: what it is, the text it covers, and its
//! children in the order the source writes them. A child says which field of
//! its parent it fills, so `value` of an assignment is the child filling
//! [`Field::Value`]. A run of statements is a node of its own,
//! [`NodeKind::Suite`], whose children are exactly the statements.

use crate::text_size::{is_before, TextRange};
use vstd::prelude::*;

verus! {

/// The field of its parent that a node fills.
#[derive(Debug, Clone, Copy, PartialEq, Eq, Structural)]
pub enum Field {
    /// The first suite of a compound statement, or the branch taken by a conditional expression.
    Body,
    Orelse,
    Finalbody,
    Statement,
    Handler,
    ElifElse,
    Case,
    Test,
    Value,
    Target,
    Iter,
    Left,
    Right,
    Operand,
    Func,
    Arguments,
    Arg,
    Keyword,
    Slice,
    Elt,
    Key,
    Generator,
    Comparator,
    Condition,
    Subject,
    Exc,
    Cause,
    Msg,
    Item,
    ContextExpr,
    OptionalVars,
    Lower,
    Upper,
    Step,
    Annotation,
    Returns,
    Raises,
    Parameters,
    Parameter,
    PositionalOnly,
    Default,
    TypeParams,
    TypeParam,
    Decorator,
    Expression,
    Name,
    Pattern,
    Guard,
    Type,
    Part,
    Element,
    FormatSpec,
    Other,
}

/// How a name, attribute, subscript, list or tuple is used.
#[derive(Debug, Clone, Copy, PartialEq, Eq, Structural)]
pub enum ExprContext {
    Load,
    Store,
    Del,
    /// A name the parser made up, which no source spells.
    Invalid,
}

#[derive(Debug, Clone, Copy, PartialEq, Eq, Structural)]
pub enum Operator {
    BitOr,
    /// basedpython's `??`, which evaluates its right operand only for an absent left one.
    Coalesce,
    /// basedpython's result-type operator.
    Result,
    Other,
}

#[derive(Debug, Clone, Copy, PartialEq, Eq, Structural)]
pub enum UnaryOp {
    Not,
    Invert,
    UAdd,
    USub,
    /// basedpython's postfix `?`.
    Optional,
    /// basedpython's error propagation.
    Propagate,
    /// basedpython's postfix `!`.
    Force,
}

/// How a string literal part is delimited.
#[derive(Debug, Clone, Copy, PartialEq, Eq, Structural)]
pub struct StringFlags {
    pub triple_quoted: bool,
    pub unclosed: bool,
    pub bytes: bool,
    pub raw: bool,
}

/// What a node is, with what it spells apart from its children.
#[derive(Debug)]
#[allow(inconsistent_fields)]
pub enum NodeKind {
    Module,
    Suite,
    // statements
    StmtFunctionDef {
        name: String,
        name_range: TextRange,
        is_async: bool,
        /// basedpython: a `<call>:` whose suite is a lambda's body.
        is_trailing_lambda: bool,
        is_asserts_return: bool,
        /// basedpython: an accessor of a property construct.
        is_property_construct: bool,
    },
    StmtClassDef { name: String, name_range: TextRange, is_enum_variant: bool },
    StmtReturn,
    StmtDelete,
    StmtTypeAlias,
    StmtAssign,
    StmtAugAssign,
    /// `is_context`: basedpython's `context` declaration.
    StmtAnnAssign { is_context: bool },
    StmtFor { is_async: bool },
    StmtWhile,
    /// `has_pattern`: basedpython's pattern condition.
    StmtIf { has_pattern: bool },
    StmtWith { is_async: bool },
    StmtMatch,
    StmtRaise,
    StmtTry,
    StmtAssert,
    StmtImport,
    StmtImportFrom { module: Option<String>, module_range: TextRange, level: u32 },
    StmtGlobal,
    StmtNonlocal,
    StmtExpr,
    StmtPass,
    /// `has_value`: basedpython's `break <value>`.
    StmtBreak { has_value: bool },
    StmtContinue,
    StmtIpyEscapeCommand,
    /// basedpython's `let <pattern> := <value>`.
    StmtLet,
    // expressions
    ExprBoolOp,
    ExprNamed,
    ExprBinOp { op: Operator },
    ExprUnaryOp { op: UnaryOp },
    ExprLambda,
    ExprIf,
    ExprDict,
    ExprSet,
    ExprListComp,
    ExprSetComp,
    ExprDictComp,
    ExprGenerator { parenthesized: bool },
    ExprAwait,
    ExprYield,
    ExprYieldFrom,
    ExprCompare,
    /// `is_cast` and `is_string_tag`: basedpython's cast operator and string tag.
    ExprCall { is_cast: bool, is_string_tag: bool },
    ExprFString { implicit_concatenated: bool },
    ExprTString { implicit_concatenated: bool },
    ExprStringLiteral { implicit_concatenated: bool },
    ExprBytesLiteral { implicit_concatenated: bool },
    ExprNumberLiteral,
    ExprBooleanLiteral,
    ExprNoneLiteral,
    ExprEllipsisLiteral,
    /// `optional`: basedpython's `?.`.
    ExprAttribute { attr: String, ctx: ExprContext, optional: bool },
    /// `is_special`: basedpython's `typeof` and type decorations.
    ExprSubscript { ctx: ExprContext, is_special: bool },
    ExprStarred,
    ExprName { id: String, ctx: ExprContext },
    ExprList { ctx: ExprContext },
    /// `is_special`: one of basedpython's tuple-shaped types.
    ExprTuple { ctx: ExprContext, parenthesized: bool, is_special: bool },
    ExprSlice,
    ExprIpyEscapeCommand,
    ExprCallableType,
    ExprProtocolType,
    ExprProtocolMethod,
    /// basedpython: a statement written as an expression.
    ExprStatement,
    // the rest
    ElifElseClause,
    /// `name_end`: where the name a handler binds ends.
    ExceptHandler { name_end: Option<u32> },
    MatchCase,
    Pattern,
    WithItem,
    Keyword,
    Arguments,
    Comprehension { is_async: bool },
    Decorator,
    Parameters,
    Parameter { name: String, name_range: TextRange },
    TypeParams,
    /// `has_variance`: whether the parameter declares its variance.
    TypeParam { name: String, has_variance: bool },
    Alias { name: String, name_range: TextRange, asname: Option<String> },
    /// A part of a string literal; `content` is the text between its quotes and `dedent` how
    /// much of each line's indentation basedpython's dedent takes off that text, when it does.
    StringPart { flags: StringFlags, content: TextRange, dedent: Option<u32> },
    BytesPart { flags: StringFlags, content: TextRange },
    FStringPart { flags: StringFlags, dedent: Option<u32> },
    TStringPart { flags: StringFlags, dedent: Option<u32> },
    InterpolatedLiteral,
    Interpolation,
    FormatSpec,
    Other,
}

impl NodeKind {
    /// Whether the node is an expression.
    pub open spec fn spec_is_expression(&self) -> bool {
        match self {
            NodeKind::ExprBoolOp
            | NodeKind::ExprNamed
            | NodeKind::ExprBinOp { .. }
            | NodeKind::ExprUnaryOp { .. }
            | NodeKind::ExprLambda
            | NodeKind::ExprIf
            | NodeKind::ExprDict
            | NodeKind::ExprSet
            | NodeKind::ExprListComp
            | NodeKind::ExprSetComp
            | NodeKind::ExprDictComp
            | NodeKind::ExprGenerator { .. }
            | NodeKind::ExprAwait
            | NodeKind::ExprYield
            | NodeKind::ExprYieldFrom
            | NodeKind::ExprCompare
            | NodeKind::ExprCall { .. }
            | NodeKind::ExprFString { .. }
            | NodeKind::ExprTString { .. }
            | NodeKind::ExprStringLiteral { .. }
            | NodeKind::ExprBytesLiteral { .. }
            | NodeKind::ExprNumberLiteral
            | NodeKind::ExprBooleanLiteral
            | NodeKind::ExprNoneLiteral
            | NodeKind::ExprEllipsisLiteral
            | NodeKind::ExprAttribute { .. }
            | NodeKind::ExprSubscript { .. }
            | NodeKind::ExprStarred
            | NodeKind::ExprName { .. }
            | NodeKind::ExprList { .. }
            | NodeKind::ExprTuple { .. }
            | NodeKind::ExprSlice
            | NodeKind::ExprIpyEscapeCommand
            | NodeKind::ExprCallableType
            | NodeKind::ExprProtocolType
            | NodeKind::ExprProtocolMethod
            | NodeKind::ExprStatement => true,
            _ => false,
        }
    }

    /// Whether the node is an expression.
    pub fn is_expression(&self) -> (is_expression: bool)
        ensures
            is_expression == self.spec_is_expression(),
    {
        match self {
            NodeKind::ExprBoolOp
            | NodeKind::ExprNamed
            | NodeKind::ExprBinOp { .. }
            | NodeKind::ExprUnaryOp { .. }
            | NodeKind::ExprLambda
            | NodeKind::ExprIf
            | NodeKind::ExprDict
            | NodeKind::ExprSet
            | NodeKind::ExprListComp
            | NodeKind::ExprSetComp
            | NodeKind::ExprDictComp
            | NodeKind::ExprGenerator { .. }
            | NodeKind::ExprAwait
            | NodeKind::ExprYield
            | NodeKind::ExprYieldFrom
            | NodeKind::ExprCompare
            | NodeKind::ExprCall { .. }
            | NodeKind::ExprFString { .. }
            | NodeKind::ExprTString { .. }
            | NodeKind::ExprStringLiteral { .. }
            | NodeKind::ExprBytesLiteral { .. }
            | NodeKind::ExprNumberLiteral
            | NodeKind::ExprBooleanLiteral
            | NodeKind::ExprNoneLiteral
            | NodeKind::ExprEllipsisLiteral
            | NodeKind::ExprAttribute { .. }
            | NodeKind::ExprSubscript { .. }
            | NodeKind::ExprStarred
            | NodeKind::ExprName { .. }
            | NodeKind::ExprList { .. }
            | NodeKind::ExprTuple { .. }
            | NodeKind::ExprSlice
            | NodeKind::ExprIpyEscapeCommand
            | NodeKind::ExprCallableType
            | NodeKind::ExprProtocolType
            | NodeKind::ExprProtocolMethod
            | NodeKind::ExprStatement => true,
            _ => false,
        }
    }
}

/// A node of a syntax tree.
#[derive(Debug)]
pub struct Node {
    /// Tells the node from every other node of its tree.
    pub id: u32,
    pub range: TextRange,
    /// The range with the parentheses written around the node, which is the range itself for
    /// anything but a parenthesized expression.
    pub outer: TextRange,
    pub field: Field,
    pub kind: NodeKind,
    /// In source order.
    pub children: Vec<Node>,
}

/// How deep the tree under `node` is.
pub open spec fn height(node: Node) -> nat
    decreases node, 1int,
{
    1 + height_all(node.children@)
}

/// How deep the deepest of `nodes` is.
pub open spec fn height_all(nodes: Seq<Node>) -> nat
    decreases nodes, 0int,
{
    if nodes.len() == 0 {
        0
    } else {
        let rest = height_all(nodes.drop_last());
        let last = height(nodes.last());
        if rest >= last {
            rest
        } else {
            last
        }
    }
}

pub proof fn lemma_height_in(nodes: Seq<Node>, i: int)
    requires
        0 <= i < nodes.len(),
    ensures
        height(nodes[i]) <= height_all(nodes),
    decreases nodes.len(),
{
    if i < nodes.len() - 1 {
        lemma_height_in(nodes.drop_last(), i);
        assert(nodes.drop_last()[i] == nodes[i]);
    }
}

/// A child is less deep than its parent.
pub broadcast proof fn lemma_height_child(node: Node, i: int)
    requires
        0 <= i < node.children@.len(),
    ensures
        height(#[trigger] node.children@[i]) < height(node),
{
    lemma_height_in(node.children@, i);
}

/// The first of `nodes` that fills `field`.
pub open spec fn first_filling(nodes: Seq<Node>, field: Field) -> Option<Node>
    decreases nodes.len(),
{
    if nodes.len() == 0 {
        None
    } else if nodes[0].field == field {
        Some(nodes[0])
    } else {
        first_filling(nodes.skip(1), field)
    }
}

/// Those of `nodes` that fill `field`, in order.
pub open spec fn all_filling(nodes: Seq<Node>, field: Field) -> Seq<Node>
    decreases nodes.len(),
{
    if nodes.len() == 0 {
        Seq::empty()
    } else if nodes.last().field == field {
        all_filling(nodes.drop_last(), field).push(nodes.last())
    } else {
        all_filling(nodes.drop_last(), field)
    }
}

/// Whether the parts of `node` are one after the other, each inside it, and a name has none but is
/// written.
pub open spec fn is_nested(node: Node) -> bool
    decreases node,
{
    &&& forall|i: int, j: int|
        0 <= i < j < node.children@.len() ==> is_before(
            (#[trigger] node.children@[i]).range,
            (#[trigger] node.children@[j]).range,
        )
    &&& forall|i: int|
        0 <= i < node.children@.len() ==> node.range.spec_contains_range(
            (#[trigger] node.children@[i]).range,
        )
    &&& forall|i: int| 0 <= i < node.children@.len() ==> is_nested(#[trigger] node.children@[i])
    &&& node.range.start <= node.range.end
    &&& node.kind is ExprName ==> node.children@.len() == 0 && node.range.start < node.range.end
}

/// The child of `node` that fills `field`, the first when there are several.
pub open spec fn child_of(node: Node, field: Field) -> Option<Node> {
    first_filling(node.children@, field)
}

/// The children of `node` that fill `field`, in order.
pub open spec fn children_of(node: Node, field: Field) -> Seq<Node> {
    all_filling(node.children@, field)
}

pub proof fn lemma_first_filling_in(nodes: Seq<Node>, field: Field) -> (i: int)
    requires
        first_filling(nodes, field) is Some,
    ensures
        0 <= i < nodes.len(),
        first_filling(nodes, field) == Some(nodes[i]),
        nodes[i].field == field,
    decreases nodes.len(),
{
    if nodes[0].field == field {
        0
    } else {
        let k = lemma_first_filling_in(nodes.skip(1), field);
        assert(nodes.skip(1)[k] == nodes[k + 1]);
        k + 1
    }
}

pub proof fn lemma_all_filling_in(nodes: Seq<Node>, field: Field, j: int) -> (i: int)
    requires
        0 <= j < all_filling(nodes, field).len(),
    ensures
        0 <= i < nodes.len(),
        all_filling(nodes, field)[j] == nodes[i],
        nodes[i].field == field,
    decreases nodes.len(),
{
    let rest = all_filling(nodes.drop_last(), field);
    if nodes.last().field == field && j == rest.len() {
        nodes.len() - 1
    } else {
        let k = lemma_all_filling_in(nodes.drop_last(), field, j);
        assert(nodes.drop_last()[k] == nodes[k]);
        k
    }
}

/// A node that fills a field is among those that do.
pub proof fn lemma_is_filling(nodes: Seq<Node>, field: Field, i: int) -> (j: int)
    requires
        0 <= i < nodes.len(),
        nodes[i].field == field,
    ensures
        0 <= j < all_filling(nodes, field).len(),
        all_filling(nodes, field)[j] == nodes[i],
    decreases nodes.len(),
{
    if i == nodes.len() - 1 {
        all_filling(nodes, field).len() - 1
    } else {
        assert(nodes.drop_last()[i] == nodes[i]);
        lemma_is_filling(nodes.drop_last(), field, i)
    }
}

pub broadcast proof fn lemma_filling_field(node: Node, field: Field)
    ensures
        #[trigger] child_of(node, field) matches Some(child) ==> child.field == field,
{
    if child_of(node, field) is Some {
        let i = lemma_first_filling_in(node.children@, field);
    }
}

pub broadcast proof fn lemma_height_child_of(node: Node, field: Field)
    ensures
        #[trigger] child_of(node, field) matches Some(child) ==> height(child) < height(node),
{
    if child_of(node, field) is Some {
        let i = lemma_first_filling_in(node.children@, field);
        lemma_height_child(node, i);
    }
}

pub broadcast proof fn lemma_height_children_of(node: Node, field: Field, j: int)
    requires
        0 <= j < children_of(node, field).len(),
    ensures
        height(#[trigger] children_of(node, field)[j]) < height(node),
{
    let i = lemma_all_filling_in(node.children@, field, j);
    lemma_height_child(node, i);
}

/// Where a walk does not go.
#[derive(Debug, Clone, Copy, PartialEq, Eq, Structural)]
pub enum Prune {
    /// The walk goes everywhere.
    Nothing,
    /// It stays out of class definitions.
    Classes,
    /// It stays out of function and class definitions.
    Definitions,
    /// It stays out of functions, classes and lambdas.
    Scopes,
    /// It stays out of what lies within a range that is not empty.
    Within(TextRange),
}

impl Prune {
    pub open spec fn spec_skips(self, node: Node) -> bool {
        match self {
            Prune::Nothing => false,
            Prune::Classes => node.kind is StmtClassDef,
            Prune::Definitions => node.kind is StmtClassDef || node.kind is StmtFunctionDef,
            Prune::Scopes => node.kind is StmtClassDef || node.kind is StmtFunctionDef
                || node.kind is ExprLambda,
            Prune::Within(range) => range.start != range.end && range.spec_contains_range(
                node.range,
            ),
        }
    }

    fn skips(&self, node: &Node) -> (skips: bool)
        ensures
            skips == self.spec_skips(*node),
    {
        match self {
            Prune::Nothing => false,
            Prune::Classes => matches!(node.kind, NodeKind::StmtClassDef { .. }),
            Prune::Definitions => matches!(node.kind, NodeKind::StmtClassDef { .. })
                || matches!(node.kind, NodeKind::StmtFunctionDef { .. }),
            Prune::Scopes => matches!(node.kind, NodeKind::StmtClassDef { .. })
                || matches!(node.kind, NodeKind::StmtFunctionDef { .. })
                || matches!(node.kind, NodeKind::ExprLambda),
            Prune::Within(range) => !range.is_empty() && range.contains_range(node.range),
        }
    }
}

/// The nodes a walk from `node` comes to, each before its children, in source order.
pub open spec fn walked(node: Node, prune: Prune) -> Seq<Node>
    decreases node, 1int,
{
    if prune.spec_skips(node) {
        Seq::empty()
    } else {
        seq![node] + walked_all(node.children@, prune)
    }
}

/// The nodes walks from each of `nodes` come to, one walk after the other.
pub open spec fn walked_all(nodes: Seq<Node>, prune: Prune) -> Seq<Node>
    decreases nodes, 0int,
{
    if nodes.len() == 0 {
        Seq::empty()
    } else {
        walked_all(nodes.drop_last(), prune) + walked(nodes.last(), prune)
    }
}

/// `node` and everything under it.
pub open spec fn subtree(node: Node) -> Seq<Node> {
    walked(node, Prune::Nothing)
}

/// Adds to `found` what a walk from `node` comes to.
fn walk_into<'a>(node: &'a Node, prune: Prune, found: &mut Vec<&'a Node>)
    ensures
        final(found)@.unref() == old(found)@.unref() + walked(*node, prune),
    decreases node, 1int,
{
    if prune.skips(node) {
        assert(found@.unref() =~= old(found)@.unref() + walked(*node, prune));
        return;
    }
    found.push(node);
    let mut nested = walk_nodes(&node.children, prune);
    found.append(&mut nested);
    assert(found@.unref() =~= old(found)@.unref() + walked(*node, prune));
}

/// What walks from each of `nodes` come to, in order.
pub fn walk_nodes<'a>(nodes: &'a Vec<Node>, prune: Prune) -> (found: Vec<&'a Node>)
    ensures
        found@.unref() == walked_all(nodes@, prune),
    decreases nodes@, 0int,
{
    let mut found: Vec<&'a Node> = Vec::new();
    let mut i: usize = 0;
    assert(found@.unref() =~= walked_all(nodes@.take(0), prune));
    while i < nodes.len()
        invariant
            i <= nodes.len(),
            found@.unref() == walked_all(nodes@.take(i as int), prune),
        decreases nodes.len() - i,
    {
        walk_into(&nodes[i], prune, &mut found);
        assert(nodes@.take(i + 1).drop_last() =~= nodes@.take(i as int));
        i += 1;
    }
    assert(nodes@.take(i as int) =~= nodes@);
    found
}

/// What walks from each of `nodes` come to, in order.
pub fn walk_each<'a>(nodes: &Vec<&'a Node>, prune: Prune) -> (found: Vec<&'a Node>)
    ensures
        found@.unref() == walked_all(nodes@.unref(), prune),
{
    let ghost all = nodes@.unref();
    let mut found: Vec<&'a Node> = Vec::new();
    let mut i: usize = 0;
    assert(found@.unref() =~= walked_all(all.take(0), prune));
    while i < nodes.len()
        invariant
            i <= nodes.len(),
            all == nodes@.unref(),
            found@.unref() == walked_all(all.take(i as int), prune),
        decreases nodes.len() - i,
    {
        assert(all.take(i + 1).drop_last() =~= all.take(i as int));
        assert(all.take(i + 1).last() == *nodes@[i as int]);
        walk_into(nodes[i], prune, &mut found);
        i += 1;
    }
    assert(all.take(i as int) =~= all);
    found
}

/// What a walk from `node` comes to, each node before its children, in source order.
pub fn walk<'a>(node: &'a Node, prune: Prune) -> (found: Vec<&'a Node>)
    ensures
        found@.unref() == walked(*node, prune),
{
    let mut found: Vec<&'a Node> = Vec::new();
    walk_into(node, prune, &mut found);
    assert(found@.unref() =~= walked(*node, prune));
    found
}

/// Whether the node after `path[k]` is a child of it.
pub open spec fn is_link(path: Seq<Node>, k: int) -> bool {
    path[k].children@.contains(path[k + 1])
}

/// Whether `path` leads down a tree, from a node to one of its children to one of theirs.
pub open spec fn is_path(path: Seq<Node>) -> bool {
    &&& path.len() > 0
    &&& forall|k: int| 0 <= k < path.len() - 1 ==> #[trigger] is_link(path, k)
}

/// What is left of a path after its first step is a path.
pub proof fn lemma_path_rest(path: Seq<Node>)
    requires
        is_path(path),
        path.len() > 1,
    ensures
        is_path(path.skip(1)),
        path.skip(1)[0] == path[1],
        path.skip(1).last() == path.last(),
        path[0].children@.contains(path[1]),
{
    assert(is_link(path, 0));
    assert forall|k: int| 0 <= k < path.skip(1).len() - 1 implies #[trigger] is_link(
        path.skip(1),
        k,
    ) by {
        assert(is_link(path, k + 1));
        assert(path.skip(1)[k] == path[k + 1]);
        assert(path.skip(1)[k + 1] == path[k + 2]);
    }
}

/// A path below a child of `node` is one below `node`.
pub proof fn lemma_path_onto(node: Node, rest: Seq<Node>)
    requires
        is_path(rest),
        node.children@.contains(rest[0]),
    ensures
        is_path(seq![node] + rest),
        (seq![node] + rest).last() == rest.last(),
        (seq![node] + rest).skip(1) == rest,
{
    let path = seq![node] + rest;
    assert(path.skip(1) =~= rest);
    assert forall|k: int| 0 <= k < path.len() - 1 implies #[trigger] is_link(path, k) by {
        assert(path[k + 1] == rest[k]);
        if k > 0 {
            assert(is_link(rest, k - 1));
            assert(path[k] == rest[k - 1]);
        }
    }
}

/// Two paths one after the other are a path.
pub proof fn lemma_path_joined(path: Seq<Node>, rest: Seq<Node>)
    requires
        is_path(path),
        is_path(rest),
        path.last() == rest[0],
    ensures
        is_path(path + rest.skip(1)),
        (path + rest.skip(1))[0] == path[0],
        (path + rest.skip(1)).last() == rest.last(),
{
    let joined = path + rest.skip(1);
    assert forall|k: int| 0 <= k < joined.len() - 1 implies #[trigger] is_link(joined, k) by {
        if k < path.len() - 1 {
            assert(is_link(path, k));
        } else {
            let m = k - (path.len() - 1);
            assert(is_link(rest, m));
            assert(joined[k] == rest[m]);
            assert(joined[k + 1] == rest[m + 1]);
        }
    }
}

/// Whether `node` is the node `id`, or holds it.
pub open spec fn holds_id(node: Node, id: u32) -> bool {
    exists|path: Seq<Node>| #[trigger] is_path(path) && path[0] == node && path.last().id == id
}

/// Whether no two nodes of the tree under `node` are the same: a node's id is not used below it,
/// and what one of its children holds no other does.
pub open spec fn are_ids_apart(node: Node) -> bool
    decreases node,
{
    &&& forall|i: int|
        0 <= i < node.children@.len() ==> !holds_id(#[trigger] node.children@[i], node.id)
    &&& forall|i: int, j: int, id: u32|
        #![trigger holds_id(node.children@[i], id), holds_id(node.children@[j], id)]
        0 <= i < j < node.children@.len() ==> !(holds_id(node.children@[i], id) && holds_id(
            node.children@[j],
            id,
        ))
    &&& forall|i: int| 0 <= i < node.children@.len() ==> are_ids_apart(#[trigger] node.children@[i])
}

/// In a tree whose nodes are apart, one path leads to a node.
pub proof fn lemma_one_path(a: Seq<Node>, b: Seq<Node>)
    requires
        is_path(a),
        is_path(b),
        a[0] == b[0],
        a.last().id == b.last().id,
        are_ids_apart(a[0]),
    ensures
        a == b,
    decreases a.len(),
{
    let node = a[0];
    let children = node.children@;
    if a.len() > 1 {
        lemma_path_rest(a);
    }
    if b.len() > 1 {
        lemma_path_rest(b);
    }
    if a.len() == 1 {
        if b.len() > 1 {
            let j = children.index_of(b[1]);
            assert(holds_id(children[j], node.id));
        }
        assert(a =~= b);
    } else if b.len() == 1 {
        let i = children.index_of(a[1]);
        assert(holds_id(children[i], node.id));
    } else {
        let i = children.index_of(a[1]);
        let j = children.index_of(b[1]);
        assert(holds_id(children[i], a.last().id));
        assert(holds_id(children[j], a.last().id));
        assert(i == j);
        assert(are_ids_apart(children[i]));
        lemma_one_path(a.skip(1), b.skip(1));
        assert(a =~= seq![node] + a.skip(1));
        assert(b =~= seq![node] + b.skip(1));
    }
}

/// What a walk from one of `nodes` comes to, walks from all of them do.
pub proof fn lemma_walked_among(nodes: Seq<Node>, prune: Prune, i: int, node: Node)
    requires
        0 <= i < nodes.len(),
        walked(nodes[i], prune).contains(node),
    ensures
        walked_all(nodes, prune).contains(node),
    decreases nodes.len(),
{
    let before = walked_all(nodes.drop_last(), prune);
    let last = walked(nodes.last(), prune);
    if i < nodes.len() - 1 {
        assert(nodes.drop_last()[i] == nodes[i]);
        lemma_walked_among(nodes.drop_last(), prune, i, node);
        let k = choose|k: int| 0 <= k < before.len() && before[k] == node;
        assert((before + last)[k] == node);
    } else {
        let k = choose|k: int| 0 <= k < last.len() && last[k] == node;
        assert((before + last)[before.len() + k] == node);
    }
}

/// A walk comes to what a path leads to, when it stays out of nothing on the way.
pub proof fn lemma_path_is_walked(path: Seq<Node>, prune: Prune)
    requires
        is_path(path),
        forall|k: int| 0 <= k < path.len() ==> !prune.spec_skips(#[trigger] path[k]),
    ensures
        walked(path[0], prune).contains(path.last()),
        path.len() > 1 ==> walked_all(path[0].children@, prune).contains(path.last()),
    decreases path.len(),
{
    let walk = walked(path[0], prune);
    assert(!prune.spec_skips(path[0]));
    if path.len() > 1 {
        lemma_path_rest(path);
        let rest = path.skip(1);
        let children = path[0].children@;
        let i = choose|i: int| 0 <= i < children.len() && children[i] == path[1];
        assert forall|k: int| 0 <= k < rest.len() implies !prune.spec_skips(
            #[trigger] rest[k],
        ) by {
            assert(rest[k] == path[k + 1]);
        }
        lemma_path_is_walked(rest, prune);
        lemma_walked_among(children, prune, i, path.last());
        let below = walked_all(children, prune);
        let k = choose|k: int| 0 <= k < below.len() && below[k] == path.last();
        assert(walk[k + 1] == path.last());
    } else {
        assert(walk[0] == path.last());
    }
}

/// What a walk comes to, a path leads to.
pub proof fn lemma_walked_path(node: Node, prune: Prune, target: Node) -> (path: Seq<Node>)
    requires
        walked(node, prune).contains(target),
    ensures
        is_path(path),
        path[0] == node,
        path.last() == target,
    decreases node, 1int,
{
    let walk = walked(node, prune);
    let k = walk.index_of(target);
    if k == 0 {
        let path = seq![node];
        assert(path.last() == target);
        path
    } else {
        let below = walked_all(node.children@, prune);
        assert(below[k - 1] == target);
        let rest = lemma_walked_all_path(node.children@, prune, target);
        lemma_path_onto(node, rest);
        seq![node] + rest
    }
}

/// What walks from `nodes` come to, a path from one of them leads to.
pub proof fn lemma_walked_all_path(nodes: Seq<Node>, prune: Prune, target: Node) -> (path: Seq<Node>)
    requires
        walked_all(nodes, prune).contains(target),
    ensures
        is_path(path),
        nodes.contains(path[0]),
        path.last() == target,
    decreases nodes, 0int,
{
    let before = walked_all(nodes.drop_last(), prune);
    let last = walked(nodes.last(), prune);
    let k = walked_all(nodes, prune).index_of(target);
    if k < before.len() {
        assert(before[k] == target);
        let path = lemma_walked_all_path(nodes.drop_last(), prune, target);
        let i = nodes.drop_last().index_of(path[0]);
        assert(nodes[i] == path[0]);
        path
    } else {
        assert(last[k - before.len()] == target);
        let path = lemma_walked_path(nodes.last(), prune, target);
        assert(nodes[nodes.len() - 1] == path[0]);
        path
    }
}

/// The first of `nodes` that contains `range`.
pub open spec fn first_around(nodes: Seq<Node>, range: TextRange) -> Option<Node>
    decreases nodes.len(),
{
    if nodes.len() == 0 {
        None
    } else if nodes[0].range.spec_contains_range(range) {
        Some(nodes[0])
    } else {
        first_around(nodes.skip(1), range)
    }
}

pub proof fn lemma_first_around(nodes: Seq<Node>, range: TextRange) -> (i: int)
    requires
        first_around(nodes, range) is Some,
    ensures
        0 <= i < nodes.len(),
        first_around(nodes, range) == Some(nodes[i]),
        nodes[i].range.spec_contains_range(range),
    decreases nodes.len(),
{
    if nodes[0].range.spec_contains_range(range) {
        0
    } else {
        let k = lemma_first_around(nodes.skip(1), range);
        assert(nodes.skip(1)[k] == nodes[k + 1]);
        k + 1
    }
}

pub proof fn lemma_around_height(node: Node, range: TextRange)
    ensures
        first_around(node.children@, range) matches Some(child) ==> height(child) < height(node),
{
    if first_around(node.children@, range) is Some {
        let i = lemma_first_around(node.children@, range);
        lemma_height_child(node, i);
    }
}

/// The nodes around `range`, from `node` down to the narrowest: each is the first child of the
/// one before it that contains the range.
pub open spec fn path_to(node: Node, range: TextRange) -> Seq<Node>
    decreases height(node),
{
    proof {
        lemma_around_height(node, range);
    }
    match first_around(node.children@, range) {
        Some(child) => seq![node] + path_to(child, range),
        None => seq![node],
    }
}

/// The nodes around `range`, from `node` down to the narrowest.
pub fn covering_path<'a>(node: &'a Node, range: TextRange) -> (path: Vec<&'a Node>)
    ensures
        path@.unref() == path_to(*node, range),
        path.len() > 0,
    decreases height(*node),
{
    let mut path: Vec<&'a Node> = Vec::new();
    path.push(node);
    proof {
        lemma_around_height(*node, range);
        assert(node.children@.skip(0) =~= node.children@);
    }
    let children = &node.children;
    let mut i: usize = 0;
    while i < children.len()
        invariant
            i <= children.len(),
            children == node.children,
            path@ == seq![node],
            first_around(node.children@, range) == first_around(children@.skip(i as int), range),
            first_around(node.children@, range) matches Some(child) ==> height(child) < height(
                *node,
            ),
        decreases children.len() - i,
    {
        assert(children@.skip(i as int)[0] == children@[i as int]);
        assert(children@.skip(i as int).skip(1) =~= children@.skip(i + 1));
        if children[i].range.contains_range(range) {
            let mut rest = covering_path(&children[i], range);
            path.append(&mut rest);
            assert(path@.unref() =~= seq![*node] + path_to(children@[i as int], range));
            return path;
        }
        i += 1;
    }
    assert(path@.unref() =~= seq![*node]);
    path
}

/// The first of `nodes` that is `id`.
pub open spec fn first_with_id(nodes: Seq<Node>, id: u32) -> Option<Node>
    decreases nodes.len(),
{
    if nodes.len() == 0 {
        None
    } else if nodes[0].id == id {
        Some(nodes[0])
    } else {
        first_with_id(nodes.skip(1), id)
    }
}

pub proof fn lemma_first_with_id(nodes: Seq<Node>, id: u32)
    ensures
        first_with_id(nodes, id) matches Some(node) ==> nodes.contains(node),
    decreases nodes.len(),
{
    if nodes.len() > 0 {
        if nodes[0].id == id {
            assert(nodes.contains(nodes[0]));
        } else {
            lemma_first_with_id(nodes.skip(1), id);
            if let Some(node) = first_with_id(nodes, id) {
                let k = choose|k: int| 0 <= k < nodes.skip(1).len() && nodes.skip(1)[k] == node;
                assert(nodes[k + 1] == node);
            }
        }
    }
}

/// The first of `nodes` that is `id`.
pub fn find_with_id<'a>(nodes: &Vec<&'a Node>, id: u32) -> (found: Option<&'a Node>)
    ensures
        node_in(found) == first_with_id(nodes@.unref(), id),
{
    let ghost all = nodes@.unref();
    let mut i: usize = 0;
    assert(all.skip(0) =~= all);
    while i < nodes.len()
        invariant
            i <= nodes.len(),
            all == nodes@.unref(),
            first_with_id(all, id) == first_with_id(all.skip(i as int), id),
        decreases nodes.len() - i,
    {
        assert(all.skip(i as int)[0] == *nodes@[i as int]);
        assert(all.skip(i as int).skip(1) =~= all.skip(i + 1));
        if nodes[i].id == id {
            return Some(nodes[i]);
        }
        i += 1;
    }
    None
}

/// The node a reference leads to, when there is one.
pub open spec fn node_in(node: Option<&Node>) -> Option<Node> {
    match node {
        Some(node) => Some(*node),
        None => None,
    }
}

impl Node {
    /// The child that fills `field`, the first when there are several.
    pub fn child(&self, field: Field) -> (child: Option<&Node>)
        ensures
            node_in(child) == child_of(*self, field),
    {
        let mut i: usize = 0;
        assert(self.children@.skip(0) =~= self.children@);
        while i < self.children.len()
            invariant
                i <= self.children.len(),
                child_of(*self, field) == first_filling(self.children@.skip(i as int), field),
            decreases self.children.len() - i,
        {
            let ghost rest = self.children@.skip(i as int);
            assert(rest[0] == self.children@[i as int]);
            assert(rest.skip(1) =~= self.children@.skip(i + 1));
            if self.children[i].field == field {
                return Some(&self.children[i]);
            }
            i += 1;
        }
        None
    }

    /// The children that fill `field`, in order.
    pub fn children_filling(&self, field: Field) -> (found: Vec<&Node>)
        ensures
            found@.unref() == children_of(*self, field),
    {
        let mut found: Vec<&Node> = Vec::new();
        let mut i: usize = 0;
        assert(found@.unref() =~= all_filling(self.children@.take(0), field));
        while i < self.children.len()
            invariant
                i <= self.children.len(),
                found@.unref() == all_filling(self.children@.take(i as int), field),
            decreases self.children.len() - i,
        {
            let ghost upto = self.children@.take(i + 1);
            assert(upto.drop_last() =~= self.children@.take(i as int));
            assert(upto.last() == self.children@[i as int]);
            if self.children[i].field == field {
                let ghost before = found@;
                found.push(&self.children[i]);
                assert(found@.unref() =~= before.unref().push(self.children@[i as int]));
            }
            i += 1;
        }
        assert(self.children@.take(i as int) =~= self.children@);
        found
    }
}

} // verus!
