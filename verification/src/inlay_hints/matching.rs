//! What makes a hint say nothing new.

use crate::node::{
    child_of, children_of, height, lemma_all_filling_in, lemma_height_child_of,
    lemma_height_children_of, lemma_is_filling, node_in, ExprContext, Field, Node, NodeKind,
    Operator, UnaryOp,
};
use crate::strings::same_text;
use vstd::prelude::*;
use vstd::string::StrSliceExecFns;

verus! {

/// The operands a `|` union writes, flattened across the whole chain: `a | b | c` names three
/// arms, not a union holding a union.
pub open spec fn flattened(expr: Node) -> Seq<Node>
    decreases height(expr),
{
    proof {
        lemma_height_child_of(expr, Field::Left);
        lemma_height_child_of(expr, Field::Right);
    }
    if is_union(expr) {
        let left = match child_of(expr, Field::Left) {
            Some(left) => flattened(left),
            None => Seq::empty(),
        };
        let right = match child_of(expr, Field::Right) {
            Some(right) => flattened(right),
            None => Seq::empty(),
        };
        left + right
    } else {
        seq![expr]
    }
}

/// Whether `expr` is written with a `|`.
pub open spec fn is_union(expr: Node) -> bool {
    expr.kind matches NodeKind::ExprBinOp { op } && op == Operator::BitOr
}

/// The operands of a union are less deep than it, and nothing else is less deep than itself.
pub proof fn lemma_flattened_height(expr: Node, i: int)
    requires
        0 <= i < flattened(expr).len(),
    ensures
        height(flattened(expr)[i]) <= height(expr),
        is_union(expr) ==> height(flattened(expr)[i]) < height(expr),
    decreases height(expr),
{
    lemma_height_child_of(expr, Field::Left);
    lemma_height_child_of(expr, Field::Right);
    if is_union(expr) {
        let left = match child_of(expr, Field::Left) {
            Some(left) => flattened(left),
            None => Seq::empty(),
        };
        if i < left.len() {
            lemma_flattened_height(child_of(expr, Field::Left)->0, i);
        } else {
            lemma_flattened_height(child_of(expr, Field::Right)->0, i - left.len());
        }
    }
}

pub fn flatten_bit_or<'a>(expr: &'a Node, operands: &mut Vec<&'a Node>)
    ensures
        final(operands)@.unref() == old(operands)@.unref() + flattened(*expr),
    decreases height(*expr),
{
    let ghost start = operands@.unref();
    proof {
        lemma_height_child_of(*expr, Field::Left);
        lemma_height_child_of(*expr, Field::Right);
    }
    if let NodeKind::ExprBinOp { op } = &expr.kind {
        if *op == Operator::BitOr {
            if let Some(left) = expr.child(Field::Left) {
                flatten_bit_or(left, operands);
            }
            if let Some(right) = expr.child(Field::Right) {
                flatten_bit_or(right, operands);
            }
            assert(operands@.unref() =~= start + flattened(*expr));
            return;
        }
    }
    operands.push(expr);
    assert(operands@.unref() =~= start + seq![*expr]);
}

/// Whether `element` of a subscript names the parameter it fills: a keyword element's target is
/// made up by the parser.
pub open spec fn is_keyword_element(element: Node) -> bool {
    element.kind is ExprNamed && (child_of(element, Field::Target) matches Some(target)
        && (target.kind matches NodeKind::ExprName { ctx, .. } && ctx == ExprContext::Invalid))
}

/// One argument per element of `slice`.
pub open spec fn elements_of(slice: Node) -> Seq<Node> {
    match slice.kind {
        NodeKind::ExprTuple { parenthesized, .. } => if parenthesized {
            seq![slice]
        } else {
            children_of(slice, Field::Elt)
        },
        _ => seq![slice],
    }
}

pub open spec fn has_keyword_element(elements: Seq<Node>) -> bool {
    exists|i: int| 0 <= i < elements.len() && is_keyword_element(#[trigger] elements[i])
}

/// The arguments a subscript passes, one per element of its slice.
///
/// A basedpython keyword subscript (`M[V=int]`) already names the parameter it
/// fills, so a slice carrying one has nothing to hint and yields no arguments.
pub open spec fn arguments_in(slice: Node) -> Seq<Node> {
    if has_keyword_element(elements_of(slice)) {
        Seq::empty()
    } else {
        elements_of(slice)
    }
}

pub proof fn lemma_arguments_height(slice: Node, i: int)
    requires
        0 <= i < arguments_in(slice).len(),
    ensures
        height(arguments_in(slice)[i]) <= height(slice),
{
    if let NodeKind::ExprTuple { parenthesized, .. } = slice.kind {
        if !parenthesized {
            lemma_height_children_of(slice, Field::Elt, i);
        }
    }
}

fn names_its_parameter(element: &Node) -> (names: bool)
    ensures
        names == is_keyword_element(*element),
{
    if !matches!(element.kind, NodeKind::ExprNamed) {
        return false;
    }
    match element.child(Field::Target) {
        Some(target) => match &target.kind {
            NodeKind::ExprName { ctx, .. } => *ctx == ExprContext::Invalid,
            _ => false,
        },
        None => false,
    }
}

/// The arguments a subscript passes, one per element of its slice.
pub fn subscript_arguments<'a>(slice: &'a Node) -> (arguments: Vec<&'a Node>)
    ensures
        arguments@.unref() == arguments_in(*slice),
{
    let is_list = match &slice.kind {
        NodeKind::ExprTuple { parenthesized, .. } => !*parenthesized,
        _ => false,
    };
    let elements = if is_list {
        slice.children_filling(Field::Elt)
    } else {
        let mut lone: Vec<&'a Node> = Vec::new();
        lone.push(slice);
        assert(lone@.unref() =~= seq![*slice]);
        lone
    };
    let ghost all = elements_of(*slice);
    assert(elements@.unref() == all);
    let mut i: usize = 0;
    while i < elements.len()
        invariant
            i <= elements.len(),
            elements@.unref() == all,
            all == elements_of(*slice),
            forall|j: int| 0 <= j < i ==> !is_keyword_element(#[trigger] all[j]),
        decreases elements.len() - i,
    {
        assert(all[i as int] == *elements@[i as int]);
        if names_its_parameter(elements[i]) {
            let none: Vec<&'a Node> = Vec::new();
            assert(has_keyword_element(all));
            assert(none@.unref() =~= Seq::empty());
            return none;
        }
        i += 1;
    }
    elements
}

/// The lowercase of `text`, by `str::to_lowercase`.
pub uninterp spec fn lowered_text(text: Seq<char>) -> Seq<char>;

/// `str::to_lowercase`: `text` under unicode's lowercase mapping.
#[verifier::external_body]
fn to_lowercase(text: &str) -> (lower: String)
    ensures
        lower@ == lowered_text(text@),
{
    text.to_lowercase()
}

/// `text` without the underscores it starts with.
pub open spec fn without_leading_underscores(text: Seq<char>) -> Seq<char>
    decreases text.len(),
{
    if text.len() > 0 && text[0] == '_' {
        without_leading_underscores(text.skip(1))
    } else {
        text
    }
}

/// `text` without the underscores it ends with.
pub open spec fn without_trailing_underscores(text: Seq<char>) -> Seq<char>
    decreases text.len(),
{
    if text.len() > 0 && text.last() == '_' {
        without_trailing_underscores(text.drop_last())
    } else {
        text
    }
}

/// `text` without the underscores around it.
pub open spec fn bare(text: Seq<char>) -> Seq<char> {
    without_trailing_underscores(without_leading_underscores(text))
}

/// Whether `argument` is `parameter`, or starts or ends with it and an underscore between.
pub open spec fn is_variant_of(argument: Seq<char>, parameter: Seq<char>) -> bool {
    let rest = argument.len() - parameter.len();
    ||| argument == parameter
    ||| rest > 0 && argument.take(parameter.len() as int) == parameter && argument[parameter.len() as int]
        == '_'
    ||| rest > 0 && argument.skip(rest) == parameter && argument[rest - 1] == '_'
}

/// Whether `argument` case-insensitively matches the parameter name, its own underscores around
/// it ignored.
pub open spec fn matches_parameter(argument: Seq<char>, parameter: Seq<char>) -> bool {
    is_variant_of(lowered_text(argument), lowered_text(bare(parameter)))
}

/// `text` without the underscores around it.
fn trim_underscores(text: &str) -> (kept: &str)
    ensures
        kept@ == bare(text@),
{
    let length = text.unicode_len();
    let mut start: usize = 0;
    assert(text@.skip(0) =~= text@);
    while start < length && text.get_char(start) == '_'
        invariant
            start <= length,
            length == text@.len(),
            without_leading_underscores(text@) == without_leading_underscores(
                text@.skip(start as int),
            ),
        decreases length - start,
    {
        assert(text@.skip(start as int)[0] == text@[start as int]);
        assert(text@.skip(start as int).skip(1) =~= text@.skip(start + 1));
        start += 1;
    }
    let ghost rest = text@.skip(start as int);
    assert(start < length ==> rest[0] == text@[start as int]);
    assert(without_leading_underscores(text@) == rest);
    let mut end: usize = length;
    assert(rest.take(end - start) =~= rest);
    while end > start && text.get_char(end - 1) == '_'
        invariant
            start <= end <= length,
            length == text@.len(),
            rest == text@.skip(start as int),
            without_trailing_underscores(rest) == without_trailing_underscores(
                rest.take(end - start),
            ),
        decreases end,
    {
        assert(rest.take(end - start).drop_last() =~= rest.take(end - start - 1));
        assert(rest.take(end - start).last() == text@[end - 1]);
        end -= 1;
    }
    assert(end > start ==> rest.take(end - start).last() == text@[end - 1]);
    let kept = text.substring_char(start, end);
    assert(kept@ =~= rest.take(end - start));
    kept
}

/// Returns `true` when `argument_name` case-insensitively matches the parameter
/// name, or has the parameter name as a full underscore-separated prefix or
/// suffix. The parameter name is accepted in its raw spelling; leading and
/// trailing underscores are ignored before matching.
pub fn name_matches_parameter(argument_name: &str, parameter_name: &str) -> (matched: bool)
    ensures
        matched == matches_parameter(argument_name@, parameter_name@),
{
    let argument = to_lowercase(argument_name);
    let parameter = to_lowercase(trim_underscores(parameter_name));
    let argument_length = argument.as_str().unicode_len();
    let parameter_length = parameter.as_str().unicode_len();
    if same_text(argument.as_str(), parameter.as_str()) {
        return true;
    }
    if argument_length <= parameter_length {
        return false;
    }
    let rest = argument_length - parameter_length;
    let start = argument.as_str().substring_char(0, parameter_length);
    let end = argument.as_str().substring_char(rest, argument_length);
    assert(start@ =~= argument@.take(parameter_length as int));
    assert(end@ =~= argument@.skip(rest as int));
    (same_text(start, parameter.as_str()) && argument.as_str().get_char(parameter_length) == '_')
        || (same_text(end, parameter.as_str()) && argument.as_str().get_char(rest - 1) == '_')
}

/// Whether a positional argument is the "same name" as the function argument itself: the name a
/// call or a subscript is of, or the last one of an attribute.
///
/// This allows us to filter out repetitive inlay hints like `x=x`, `x=y.x`, etc.,
/// and suppresses hints for arguments that are already explicit keyword arguments.
pub open spec fn repeats_name(argument: Node, name: Seq<char>) -> bool
    decreases height(argument),
{
    match argument.kind {
        // `x=x(1, 2)` counts as a match
        NodeKind::ExprCall { .. } => match child_of(argument, Field::Func) {
            Some(func) => {
                proof {
                    lemma_height_child_of(argument, Field::Func);
                }
                repeats_name(func, name)
            },
            None => false,
        },
        // `x=x[0]` is a match
        NodeKind::ExprSubscript { .. } => match child_of(argument, Field::Value) {
            Some(value) => {
                proof {
                    lemma_height_child_of(argument, Field::Value);
                }
                repeats_name(value, name)
            },
            None => false,
        },
        // `x=x` is a match
        NodeKind::ExprName { id, .. } => matches_parameter(id@, name),
        // `x=y.x` is a match
        NodeKind::ExprAttribute { attr, .. } => matches_parameter(attr@, name),
        _ => false,
    }
}

/// Given a positional argument, check if the expression is the "same name"
/// as the function argument itself.
pub fn arg_matches_name(argument: &Node, name: &str) -> (repeats: bool)
    ensures
        repeats == repeats_name(*argument, name@),
    decreases height(*argument),
{
    match &argument.kind {
        NodeKind::ExprCall { .. } => {
            proof {
                lemma_height_child_of(*argument, Field::Func);
            }
            match argument.child(Field::Func) {
                Some(func) => arg_matches_name(func, name),
                None => false,
            }
        },
        NodeKind::ExprSubscript { .. } => {
            proof {
                lemma_height_child_of(*argument, Field::Value);
            }
            match argument.child(Field::Value) {
                Some(value) => arg_matches_name(value, name),
                None => false,
            }
        },
        NodeKind::ExprName { id, .. } => name_matches_parameter(id.as_str(), name),
        NodeKind::ExprAttribute { attr, .. } => name_matches_parameter(attr.as_str(), name),
        _ => false,
    }
}

/// Whether `expr` calls something named `name`.
///
/// This allows us to filter out repetitive inlay hints like `x: T = T(...)`.
/// While still allowing non-trivial ones like `x: T[U] = T()`.
pub open spec fn calls_name(expr: Node, name: Seq<char>) -> bool {
    expr.kind is ExprCall && (child_of(expr, Field::Func) matches Some(func) && match func.kind {
        // `x: T = T()` is a match
        NodeKind::ExprName { id, .. } => id@ == name,
        // `x: T = a.T()` is a match
        NodeKind::ExprAttribute { attr, .. } => attr@ == name,
        _ => false,
    })
}

/// Given a function call, check if the expression is the "same name"
/// as the function being called.
pub fn call_matches_name(expr: &Node, name: &str) -> (matched: bool)
    ensures
        matched == calls_name(*expr, name@),
{
    // only care about function calls
    if !matches!(expr.kind, NodeKind::ExprCall { .. }) {
        return false;
    }
    match expr.child(Field::Func) {
        Some(func) => match &func.kind {
            NodeKind::ExprName { id, .. } => same_text(id.as_str(), name),
            NodeKind::ExprAttribute { attr, .. } => same_text(attr.as_str(), name),
            _ => false,
        },
        None => false,
    }
}

/// basedpython: whether the parser built `function` from a construct that spells
/// the signature somewhere else — a property accessor, whose parameter list stands
/// for no source at all.
///
/// Every real `def` and `lambda` writes its own parameter list, even an empty one,
/// so a list with no range is always synthesized.
pub open spec fn header_is_synthesized(function: Node) -> bool {
    match child_of(function, Field::Parameters) {
        Some(parameters) => parameters.range.start == parameters.range.end,
        None => true,
    }
}

pub fn has_synthesized_header(function: &Node) -> (synthesized: bool)
    ensures
        synthesized == header_is_synthesized(*function),
{
    match function.child(Field::Parameters) {
        Some(parameters) => parameters.range.is_empty(),
        None => true,
    }
}

/// Given an expression that's the RHS of an assignment, would it be excessive to
/// emit an inlay type hint for the variable assigned to it?
///
/// This is used to suppress inlay hints for things like `x = 1`, `x, y = (1, 2)`, etc.
pub open spec fn is_excessive(expr: Node) -> bool
    decreases height(expr), 1int, 0int,
{
    match expr.kind {
        // a tuple of all literals is excessive to typehint
        NodeKind::ExprTuple { .. } => all_excessive(
            expr,
            children_of(expr, Field::Elt).len() as int,
        ),
        // various `Literal[...]` types which are always excessive to hint, and `None`, which
        // isn't terribly verbose, but still redundant
        NodeKind::ExprBytesLiteral { .. }
        | NodeKind::ExprNumberLiteral
        | NodeKind::ExprBooleanLiteral
        | NodeKind::ExprStringLiteral { .. }
        | NodeKind::ExprNoneLiteral
        // these expand to `str` and `Template`, which aren't verbose but are redundant
        | NodeKind::ExprFString { .. }
        | NodeKind::ExprTString { .. } => true,
        // `+1` and `-1` too
        NodeKind::ExprUnaryOp { op } => (op == UnaryOp::UAdd || op == UnaryOp::USub) && (child_of(
            expr,
            Field::Operand,
        ) matches Some(operand) && operand.kind is ExprNumberLiteral),
        // everything else is reasonable
        _ => false,
    }
}

/// Whether the first `upto` elements of `tuple` are excessive to hint.
pub open spec fn all_excessive(tuple: Node, upto: int) -> bool
    decreases height(tuple), 0int, upto,
{
    if !(0 < upto <= children_of(tuple, Field::Elt).len()) {
        true
    } else {
        proof {
            lemma_height_children_of(tuple, Field::Elt, upto - 1);
        }
        all_excessive(tuple, upto - 1) && is_excessive(children_of(tuple, Field::Elt)[upto - 1])
    }
}

proof fn lemma_excessive_stays(tuple: Node, some: int, upto: int)
    requires
        some <= upto <= children_of(tuple, Field::Elt).len(),
        !all_excessive(tuple, some),
    ensures
        !all_excessive(tuple, upto),
    decreases upto - some,
{
    if some < upto {
        lemma_excessive_stays(tuple, some, upto - 1);
    }
}

pub fn type_hint_is_excessive_for_expr(expr: &Node) -> (excessive: bool)
    ensures
        excessive == is_excessive(*expr),
    decreases height(*expr),
{
    match &expr.kind {
        NodeKind::ExprTuple { .. } => {
            let elements = expr.children_filling(Field::Elt);
            let ghost all = children_of(*expr, Field::Elt);
            let mut i: usize = 0;
            while i < elements.len()
                invariant
                    i <= elements.len(),
                    elements@.unref() == all,
                    all == children_of(*expr, Field::Elt),
                    expr.kind is ExprTuple,
                    all_excessive(*expr, i as int),
                decreases elements.len() - i,
            {
                assert(all[i as int] == *elements@[i as int]);
                proof {
                    lemma_height_children_of(*expr, Field::Elt, i as int);
                }
                if !type_hint_is_excessive_for_expr(elements[i]) {
                    proof {
                        lemma_excessive_stays(*expr, i + 1, all.len() as int);
                    }
                    return false;
                }
                i += 1;
            }
            true
        },
        NodeKind::ExprBytesLiteral { .. }
        | NodeKind::ExprNumberLiteral
        | NodeKind::ExprBooleanLiteral
        | NodeKind::ExprStringLiteral { .. }
        | NodeKind::ExprNoneLiteral
        | NodeKind::ExprFString { .. }
        | NodeKind::ExprTString { .. } => true,
        NodeKind::ExprUnaryOp { op } => (*op == UnaryOp::UAdd || *op == UnaryOp::USub)
            && match expr.child(Field::Operand) {
            Some(operand) => matches!(operand.kind, NodeKind::ExprNumberLiteral),
            None => false,
        },
        _ => false,
    }
}

/// basedpython: the initializer of a declaration that names no type — `let a = v`,
/// `var a = v`, `context a = v` and the modifier chains that lower like `var`
///
/// the parser models a declaration as an annotated assignment whose annotation is
/// a synthetic marker spanning the keyword text. a declaration that *does* name a
/// type keeps it under the marker — `let a: T = v` parses as `a: __let__[T] = v`
/// — so a bare marker is exactly what says the type is unwritten, and the name is
/// where writing it would go
pub open spec fn untyped_value(assign: Node) -> Option<Node> {
    match child_of(assign, Field::Annotation) {
        Some(annotation) => match annotation.kind {
            NodeKind::ExprName { id, ctx } => if ctx == ExprContext::Invalid && (id@
                == "__let__"@ || id@ == "__modifier_assign__"@ || id@ == "__context__"@) {
                child_of(assign, Field::Value)
            } else {
                None
            },
            _ => None,
        },
        None => None,
    }
}

pub fn untyped_declaration_value<'a>(assign: &'a Node) -> (value: Option<&'a Node>)
    ensures
        node_in(value) == untyped_value(*assign),
{
    match assign.child(Field::Annotation) {
        Some(annotation) => match &annotation.kind {
            NodeKind::ExprName { id, ctx } => if *ctx == ExprContext::Invalid && (same_text(
                id.as_str(),
                "__let__",
            ) || same_text(id.as_str(), "__modifier_assign__") || same_text(
                id.as_str(),
                "__context__",
            )) {
                assign.child(Field::Value)
            } else {
                None
            },
            _ => None,
        },
        None => None,
    }
}

/// Whether an annotation could be written on the target of `assign`: it has a single one, which
/// is a name or an attribute without parentheses. Between the parentheses, and inside a tuple, a
/// list or a subscript, python allows none.
pub open spec fn can_be_annotated(assign: Node) -> bool {
    let targets = children_of(assign, Field::Target);
    targets.len() == 1 && (targets[0].kind is ExprName || targets[0].kind is ExprAttribute)
        && targets[0].outer == targets[0].range
}

pub fn annotations_are_valid_syntax(assign: &Node) -> (valid: bool)
    ensures
        valid == can_be_annotated(*assign),
{
    let targets = assign.children_filling(Field::Target);
    if targets.len() != 1 {
        return false;
    }
    assert(children_of(*assign, Field::Target)[0] == *targets@[0]);
    let target = targets[0];
    (matches!(target.kind, NodeKind::ExprName { .. }) || matches!(
        target.kind,
        NodeKind::ExprAttribute { .. }
    )) && target.outer == target.range
}

/// Whether `name` starts and ends with two underscores, and is more than those.
pub open spec fn is_dunder(name: Seq<char>) -> bool {
    name.len() > 4 && name[0] == '_' && name[1] == '_' && name[name.len() - 1] == '_'
        && name[name.len() - 2] == '_'
}

/// Whether `expr` is a name that says it is not to be looked at.
pub open spec fn is_ignored_target(expr: Node) -> bool {
    expr.kind matches NodeKind::ExprName { id, .. } && id@.len() > 0 && id@[0] == '_'
        && !is_dunder(id@)
}

pub fn is_ignored_variable_assignment_target(expr: &Node) -> (ignored: bool)
    ensures
        ignored == is_ignored_target(*expr),
{
    match &expr.kind {
        NodeKind::ExprName { id, .. } => {
            let name = id.as_str();
            let length = name.unicode_len();
            if length == 0 || name.get_char(0) != '_' {
                return false;
            }
            let dunder = length > 4 && name.get_char(1) == '_' && name.get_char(length - 1) == '_'
                && name.get_char(length - 2) == '_';
            !dunder
        },
        _ => false,
    }
}

/// Whether every character of `text` is an underscore.
pub open spec fn is_all_underscores(text: Seq<char>) -> bool {
    forall|i: int| 0 <= i < text.len() ==> #[trigger] text[i] == '_'
}

proof fn lemma_leading_parts(text: Seq<char>) -> (n: int)
    ensures
        0 <= n <= text.len(),
        is_all_underscores(text.take(n)),
        without_leading_underscores(text) == text.skip(n),
        n < text.len() ==> text[n] != '_',
    decreases text.len(),
{
    if text.len() > 0 && text[0] == '_' {
        let n = lemma_leading_parts(text.skip(1));
        assert(text.skip(1).skip(n) =~= text.skip(n + 1));
        assert forall|i: int| 0 <= i < text.take(n + 1).len() implies #[trigger] text.take(n + 1)[i]
            == '_' by {
            if i > 0 {
                assert(text.skip(1).take(n)[i - 1] == text[i]);
            }
        }
        n + 1
    } else {
        assert(text.skip(0) =~= text);
        0
    }
}

proof fn lemma_trailing_parts(text: Seq<char>) -> (n: int)
    ensures
        0 <= n <= text.len(),
        is_all_underscores(text.skip(n)),
        without_trailing_underscores(text) == text.take(n),
        n > 0 ==> text[n - 1] != '_',
    decreases text.len(),
{
    if text.len() > 0 && text.last() == '_' {
        let n = lemma_trailing_parts(text.drop_last());
        assert(text.drop_last().take(n) =~= text.take(n));
        assert forall|i: int| 0 <= i < text.skip(n).len() implies #[trigger] text.skip(n)[i] == '_' by {
            if i < text.skip(n).len() - 1 {
                assert(text.drop_last().skip(n)[i] == text.skip(n)[i]);
            }
        }
        n
    } else {
        assert(text.take(text.len() as int) =~= text);
        assert(text.skip(text.len() as int) =~= Seq::empty());
        text.len() as int
    }
}

/// The name of a parameter is looked at without the underscores around it, and with all of those
/// inside it: `name` is some underscores, what is looked at, and some more.
pub proof fn law_underscores_around_a_name_are_ignored(name: Seq<char>) -> (parts: (
    Seq<char>,
    Seq<char>,
))
    ensures
        name == parts.0 + bare(name) + parts.1,
        is_all_underscores(parts.0),
        is_all_underscores(parts.1),
        bare(name).len() > 0 ==> bare(name)[0] != '_' && bare(name).last() != '_',
{
    let start = lemma_leading_parts(name);
    let rest = name.skip(start);
    let end = lemma_trailing_parts(rest);
    assert(name =~= name.take(start) + rest.take(end) + rest.skip(end));
    (name.take(start), rest.skip(end))
}

/// Whether `longer` is `shorter`, or `shorter` and something else with an underscore in between.
pub open spec fn is_name_with(longer: Seq<char>, shorter: Seq<char>) -> bool {
    ||| longer == shorter
    ||| exists|rest: Seq<char>| longer == #[trigger] (shorter + "_"@ + rest)
    ||| exists|rest: Seq<char>| longer == #[trigger] (rest + "_"@ + shorter)
}

/// An argument says the name of its parameter exactly when its own name, in lower case, is that of
/// the parameter, or is that and something else with an underscore in between.
pub proof fn law_arguments_match_their_parameter(argument: Seq<char>, parameter: Seq<char>)
    ensures
        matches_parameter(argument, parameter) <==> is_name_with(
            lowered_text(argument),
            lowered_text(bare(parameter)),
        ),
{
    reveal_strlit("_");
    let longer = lowered_text(argument);
    let shorter = lowered_text(bare(parameter));
    let n = shorter.len() as int;
    let extra = longer.len() - n;
    if matches_parameter(argument, parameter) && longer != shorter {
        if longer.take(n) == shorter && longer[n] == '_' {
            let rest = longer.skip(n + 1);
            assert(longer =~= shorter + "_"@ + rest);
        } else {
            let rest = longer.take(extra - 1);
            assert(longer.skip(extra) == shorter);
            assert forall|i: int| 0 <= i < longer.len() implies #[trigger] longer[i] == (rest + "_"@
                + shorter)[i] by {
                if i >= extra {
                    assert(longer.skip(extra)[i - extra] == shorter[i - extra]);
                }
            }
            assert(longer =~= rest + "_"@ + shorter);
        }
    }
    if is_name_with(longer, shorter) && longer != shorter {
        if exists|rest: Seq<char>| longer == #[trigger] (shorter + "_"@ + rest) {
            let rest = choose|rest: Seq<char>| longer == #[trigger] (shorter + "_"@ + rest);
            assert(longer.take(n) =~= shorter);
            assert(longer[n] == '_');
        } else {
            let rest = choose|rest: Seq<char>| longer == #[trigger] (rest + "_"@ + shorter);
            assert(longer.skip(extra) =~= shorter);
            assert(longer[extra - 1] == '_');
        }
    }
}

/// Whether `path` leads from what is called to what it is called on, and from what is subscripted
/// to what that is done to.
pub open spec fn is_call_or_item_of(path: Seq<Node>, k: int) -> bool {
    ||| path[k].kind is ExprCall && child_of(path[k], Field::Func) == Some(path[k + 1])
    ||| path[k].kind is ExprSubscript && child_of(path[k], Field::Value) == Some(path[k + 1])
}

/// An argument says the name of its parameter exactly when what it calls, or takes an item of, and
/// so on, does: a variable by its name, and an attribute by its own.
pub proof fn law_calls_are_named_by_what_they_call(path: Seq<Node>, name: Seq<char>)
    requires
        path.len() > 0,
        forall|k: int| 0 <= k < path.len() - 1 ==> #[trigger] is_call_or_item_of(path, k),
    ensures
        repeats_name(path[0], name) <==> match path.last().kind {
            NodeKind::ExprName { id, .. } => matches_parameter(id@, name),
            NodeKind::ExprAttribute { attr, .. } => matches_parameter(attr@, name),
            NodeKind::ExprCall { .. } | NodeKind::ExprSubscript { .. } => repeats_name(
                path.last(),
                name,
            ),
            _ => false,
        },
    decreases path.len(),
{
    if path.len() > 1 {
        let rest = path.skip(1);
        assert(is_call_or_item_of(path, 0));
        assert forall|k: int| 0 <= k < rest.len() - 1 implies #[trigger] is_call_or_item_of(
            rest,
            k,
        ) by {
            assert(is_call_or_item_of(path, k + 1));
        }
        law_calls_are_named_by_what_they_call(rest, name);
        assert(rest[0] == path[1]);
        assert(rest.last() == path.last());
    }
}

/// Whether `expr` is a literal, or a number with a sign.
pub open spec fn says_its_type(expr: Node) -> bool {
    match expr.kind {
        NodeKind::ExprBytesLiteral { .. }
        | NodeKind::ExprNumberLiteral
        | NodeKind::ExprBooleanLiteral
        | NodeKind::ExprStringLiteral { .. }
        | NodeKind::ExprNoneLiteral
        | NodeKind::ExprFString { .. }
        | NodeKind::ExprTString { .. } => true,
        NodeKind::ExprUnaryOp { op } => (op is UAdd || op is USub) && (child_of(
            expr,
            Field::Operand,
        ) matches Some(operand) && operand.kind is ExprNumberLiteral),
        _ => false,
    }
}

/// Whether `path` leads from a tuple to what is in it.
pub open spec fn is_element_of(path: Seq<Node>, k: int) -> bool {
    path[k].kind is ExprTuple && path[k].children@.contains(path[k + 1]) && path[k + 1].field
        == Field::Elt
}

proof fn lemma_excessive_each(tuple: Node, upto: int, i: int)
    requires
        0 <= i < upto <= children_of(tuple, Field::Elt).len(),
        all_excessive(tuple, upto),
    ensures
        is_excessive(children_of(tuple, Field::Elt)[i]),
    decreases upto,
{
    if i < upto - 1 {
        lemma_excessive_each(tuple, upto - 1, i);
    }
}

/// What is in a value that needs no hint, in tuples of any depth, is a literal or a number with a
/// sign.
pub proof fn law_what_needs_no_hint_is_literal(path: Seq<Node>)
    requires
        path.len() > 0,
        forall|k: int| 0 <= k < path.len() - 1 ==> #[trigger] is_element_of(path, k),
        is_excessive(path[0]),
    ensures
        path.last().kind is ExprTuple || says_its_type(path.last()),
    decreases path.len(),
{
    if path.len() > 1 {
        let rest = path.skip(1);
        assert(is_element_of(path, 0));
        let c = path[0].children@.index_of(path[1]);
        let j = lemma_is_filling(path[0].children@, Field::Elt, c);
        lemma_excessive_each(path[0], children_of(path[0], Field::Elt).len() as int, j);
        assert forall|k: int| 0 <= k < rest.len() - 1 implies #[trigger] is_element_of(rest, k) by {
            assert(is_element_of(path, k + 1));
        }
        assert(rest[0] == path[1]);
        law_what_needs_no_hint_is_literal(rest);
        assert(rest.last() == path.last());
    }
}

proof fn lemma_first_not_excessive(tuple: Node, upto: int) -> (i: int)
    requires
        0 <= upto <= children_of(tuple, Field::Elt).len(),
        !all_excessive(tuple, upto),
    ensures
        0 <= i < upto,
        !is_excessive(children_of(tuple, Field::Elt)[i]),
    decreases upto,
{
    if !is_excessive(children_of(tuple, Field::Elt)[upto - 1]) {
        upto - 1
    } else {
        lemma_first_not_excessive(tuple, upto - 1)
    }
}

/// A value that needs a hint is, or has in it, in tuples of any depth, something that is neither a
/// literal nor a number with a sign.
pub proof fn law_what_needs_a_hint_is_not_literal(value: Node) -> (path: Seq<Node>)
    requires
        !is_excessive(value),
    ensures
        path.len() > 0,
        path[0] == value,
        forall|k: int| 0 <= k < path.len() - 1 ==> #[trigger] is_element_of(path, k),
        !(path.last().kind is ExprTuple),
        !says_its_type(path.last()),
    decreases height(value),
{
    if value.kind is ExprTuple {
        let elements = children_of(value, Field::Elt);
        let i = lemma_first_not_excessive(value, elements.len() as int);
        lemma_height_children_of(value, Field::Elt, i);
        let c = lemma_all_filling_in(value.children@, Field::Elt, i);
        let rest = law_what_needs_a_hint_is_not_literal(elements[i]);
        let path = seq![value] + rest;
        assert forall|k: int| 0 <= k < path.len() - 1 implies #[trigger] is_element_of(path, k) by {
            assert(path[k + 1] == rest[k]);
            if k > 0 {
                assert(path[k] == rest[k - 1]);
                assert(is_element_of(rest, k - 1));
            } else {
                assert(value.children@[c] == rest[0]);
            }
        }
        assert(path.last() == rest.last());
        path
    } else {
        assert(seq![value].last() == value);
        seq![value]
    }
}

/// Whether `path` leads from a union to one side of it.
pub open spec fn is_side_of(path: Seq<Node>, k: int) -> bool {
    is_union(path[k]) && (child_of(path[k], Field::Left) == Some(path[k + 1]) || child_of(
        path[k],
        Field::Right,
    ) == Some(path[k + 1]))
}

/// The arms of a union are what is on any side of it, however its sides are nested: everything
/// there that is not a union itself, and nothing else.
pub proof fn law_unions_are_flat(path: Seq<Node>)
    requires
        path.len() > 0,
        forall|k: int| 0 <= k < path.len() - 1 ==> #[trigger] is_side_of(path, k),
        !is_union(path.last()),
    ensures
        flattened(path[0]).contains(path.last()),
    decreases path.len(),
{
    let all = flattened(path[0]);
    if path.len() > 1 {
        let rest = path.skip(1);
        assert(is_side_of(path, 0));
        assert forall|k: int| 0 <= k < rest.len() - 1 implies #[trigger] is_side_of(rest, k) by {
            assert(is_side_of(path, k + 1));
        }
        assert(rest[0] == path[1]);
        assert(rest.last() == path.last());
        law_unions_are_flat(rest);
        let below = flattened(path[1]);
        let i = below.index_of(path.last());
        if child_of(path[0], Field::Left) == Some(path[1]) {
            assert(all[i] == below[i]);
        } else {
            let left = match child_of(path[0], Field::Left) {
                Some(left) => flattened(left),
                None => Seq::empty(),
            };
            assert(all[left.len() + i] == below[i]);
        }
    } else {
        assert(all[0] == path[0]);
    }
}

/// No arm of a union is a union.
pub proof fn law_arms_are_no_unions(expr: Node, i: int)
    requires
        0 <= i < flattened(expr).len(),
    ensures
        !is_union(flattened(expr)[i]),
    decreases height(expr),
{
    lemma_height_child_of(expr, Field::Left);
    lemma_height_child_of(expr, Field::Right);
    if is_union(expr) {
        let left = match child_of(expr, Field::Left) {
            Some(left) => flattened(left),
            None => Seq::empty(),
        };
        if i < left.len() {
            law_arms_are_no_unions(child_of(expr, Field::Left)->0, i);
        } else {
            law_arms_are_no_unions(child_of(expr, Field::Right)->0, i - left.len());
        }
    }
}

/// A subscript passes one argument for each element between its brackets, in order, or one alone;
/// a tuple in parentheses is one. When any element names the parameter it fills, there are none to
/// name.
pub proof fn law_each_element_is_an_argument(slice: Node)
    ensures
        ({
            let listed = slice.kind matches NodeKind::ExprTuple { parenthesized, .. }
                && !parenthesized;
            let named = if listed {
                exists|i: int|
                    0 <= i < slice.children@.len() && (#[trigger] slice.children@[i]).field
                        == Field::Elt && is_keyword_element(slice.children@[i])
            } else {
                is_keyword_element(slice)
            };
            &&& named ==> arguments_in(slice).len() == 0
            &&& !named && !listed ==> arguments_in(slice) == seq![slice]
            &&& !named && listed ==> arguments_in(slice) == children_of(slice, Field::Elt)
        }),
{
    if let NodeKind::ExprTuple { parenthesized, .. } = slice.kind {
        if !parenthesized {
            let elements = children_of(slice, Field::Elt);
            if exists|i: int|
                0 <= i < slice.children@.len() && (#[trigger] slice.children@[i]).field
                    == Field::Elt && is_keyword_element(slice.children@[i]) {
                let i = choose|i: int|
                    0 <= i < slice.children@.len() && (#[trigger] slice.children@[i]).field
                        == Field::Elt && is_keyword_element(slice.children@[i]);
                let j = lemma_is_filling(slice.children@, Field::Elt, i);
                assert(is_keyword_element(elements[j]));
            } else {
                assert forall|j: int| 0 <= j < elements.len() implies !is_keyword_element(
                    #[trigger] elements[j],
                ) by {
                    let i = lemma_all_filling_in(slice.children@, Field::Elt, j);
                    assert(slice.children@[i] == elements[j]);
                }
            }
        } else {
            assert(elements_of(slice)[0] == slice);
        }
    } else {
        assert(elements_of(slice)[0] == slice);
    }
}

/// A name is passed over exactly when it starts with an underscore, unless it is two underscores,
/// something, and two underscores again.
pub proof fn law_ignored_names_start_with_an_underscore(target: Node, name: Seq<char>)
    requires
        target.kind matches NodeKind::ExprName { id, .. } && id@ == name,
    ensures
        is_ignored_target(target) <==> (exists|rest: Seq<char>| name == #[trigger] ("_"@ + rest))
            && !(exists|middle: Seq<char>|
            middle.len() > 0 && name == #[trigger] ("__"@ + middle + "__"@)),
{
    reveal_strlit("_");
    reveal_strlit("__");
    if name.len() > 0 && name[0] == '_' {
        assert(name =~= "_"@ + name.skip(1));
    }
    if is_dunder(name) {
        let middle = name.subrange(2, name.len() - 2);
        assert(name =~= "__"@ + middle + "__"@);
    }
}

} // verus!
