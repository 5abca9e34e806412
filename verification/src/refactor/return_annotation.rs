//! Add Return Annotation: write the return type the checker infers for a `def`
//! that leaves it out, as the file would spell it, importing what it names.

use crate::edit::{edit_models, inserting, Edit};
use crate::lookup::{find, found, is_said, lemma_said};
use crate::node::{child_of, covering_path, node_in, path_to, Field, Node, NodeKind};
use crate::refactor::context::{
    not_applicable, outcome, planned, refused, Plan, PlanModel, Refusal, RefusalModel,
    RefactorContext,
};
use crate::semantics::ReturnAnnotation;
use crate::strings::{join2, join3};
use crate::text_size::{TextRange, TextSize};
use vstd::prelude::*;

verus! {

/// Where the parameters of `function` end.
pub open spec fn parameters_end(function: Node) -> TextSize {
    match child_of(function, Field::Parameters) {
        Some(parameters) => parameters.range.end,
        None => match function.kind {
            NodeKind::StmtFunctionDef { name_range, .. } => name_range.end,
            _ => function.range.start,
        },
    }
}

/// The part of a `def` before its body: the modifiers, name, type parameters,
/// parameters and anything written after them.
pub open spec fn header_of(function: Node) -> TextRange {
    TextRange {
        start: function.range.start,
        end: match child_of(function, Field::Raises) {
            Some(raises) => raises.range.end,
            None => parameters_end(function),
        },
    }
}

/// The last function of `path` whose header contains `range`.
pub open spec fn function_headed(path: Seq<Node>, range: TextRange) -> Option<Node>
    decreases path.len(),
{
    if path.len() == 0 {
        None
    } else if path.last().kind is StmtFunctionDef && header_of(path.last()).spec_contains_range(
        range,
    ) {
        Some(path.last())
    } else {
        function_headed(path.drop_last(), range)
    }
}

/// Whether `function` has a place for a return annotation and none in it. A property declaration
/// names its type after the name, not after `->`, and a definition the parser recovered has no
/// header to write into.
pub open spec fn lacks_annotation(function: Node) -> bool {
    match function.kind {
        NodeKind::StmtFunctionDef {
            name_range,
            is_trailing_lambda,
            is_asserts_return,
            is_property_construct,
            ..
        } => {
            &&& child_of(function, Field::Returns) is None
            &&& !is_asserts_return
            &&& !is_trailing_lambda
            &&& !is_property_construct
            &&& name_range.start != name_range.end
        },
        _ => false,
    }
}

/// What annotating the function whose header is at `range` comes to.
pub open spec fn return_annotation_at(context: RefactorContext, range: TextRange) -> Result<
    PlanModel,
    RefusalModel,
> {
    if !context.module.range.spec_contains_range(range) {
        not_applicable()
    } else {
        match function_headed(path_to(context.module, range), range) {
            None => not_applicable(),
            Some(function) => if !lacks_annotation(function) {
                not_applicable()
            } else {
                let title = "Add return annotation"@;
                match found(context.checker.return_annotations@, function.id) {
                    None => refused(title, "ty could not infer what the function returns"@),
                    Some(None) => refused(
                        title,
                        "the inferred return type has no spelling this file can write"@,
                    ),
                    Some(Some(annotation)) => planned(
                        "Add return annotation `-> "@ + annotation.text@ + "`"@,
                        seq![
                            inserting(
                                " -> "@ + annotation.text@,
                                parameters_end(function) as int,
                            ),
                        ] + edit_models(annotation.imports@),
                    ),
                }
            },
        }
    }
}

fn end_of_parameters(function: &Node) -> (end: TextSize)
    ensures
        end == parameters_end(*function),
{
    match function.child(Field::Parameters) {
        Some(parameters) => parameters.range.end,
        None => match &function.kind {
            NodeKind::StmtFunctionDef { name_range, .. } => name_range.end,
            _ => function.range.start,
        },
    }
}

/// The part of a `def` before its body.
fn header(function: &Node) -> (header: TextRange)
    ensures
        header == header_of(*function),
{
    let end = match function.child(Field::Raises) {
        Some(raises) => raises.range.end,
        None => end_of_parameters(function),
    };
    TextRange { start: function.range.start, end }
}

fn find_function<'a>(path: &Vec<&'a Node>, range: TextRange) -> (found: Option<&'a Node>)
    ensures
        node_in(found) == function_headed(path@.unref(), range),
{
    let ghost all = path@.unref();
    let mut left: usize = path.len();
    assert(all.take(all.len() as int) =~= all);
    while left > 0
        invariant
            left <= path.len(),
            all == path@.unref(),
            function_headed(all, range) == function_headed(all.take(left as int), range),
        decreases left,
    {
        assert(all.take(left as int).drop_last() =~= all.take(left - 1));
        assert(all.take(left as int).last() == *path@[left - 1]);
        let node = path[left - 1];
        if matches!(node.kind, NodeKind::StmtFunctionDef { .. }) && header(node).contains_range(
            range,
        ) {
            return Some(node);
        }
        left -= 1;
    }
    None
}

/// Plans annotating what the function at `range` returns.
pub fn plan(context: &RefactorContext, range: TextRange) -> (plan: Result<Plan, Refusal>)
    ensures
        outcome(plan) == return_annotation_at(*context, range),
{
    if !context.module.range.contains_range(range) {
        return Err(Refusal::NotApplicable);
    }
    let path = covering_path(&context.module, range);
    let function = match find_function(&path, range) {
        Some(function) => function,
        None => {
            return Err(Refusal::NotApplicable);
        },
    };
    let lacks = match &function.kind {
        NodeKind::StmtFunctionDef {
            name_range,
            is_trailing_lambda,
            is_asserts_return,
            is_property_construct,
            ..
        } => function.child(Field::Returns).is_none() && !*is_asserts_return
            && !*is_trailing_lambda && !*is_property_construct && !name_range.is_empty(),
        _ => false,
    };
    if !lacks {
        return Err(Refusal::NotApplicable);
    }
    let title = "Add return annotation";
    let annotation = match find(&context.checker.return_annotations, function.id) {
        Some(Some(annotation)) => annotation,
        Some(None) => {
            return Err(
                Refusal::refused(
                    title,
                    "the inferred return type has no spelling this file can write",
                ),
            );
        },
        None => {
            return Err(
                Refusal::refused(title, "ty could not infer what the function returns"),
            );
        },
    };
    // the annotation is evaluated in the scope around the definition
    let first = Edit::insertion(
        join2(" -> ", annotation.text.as_str()),
        end_of_parameters(function),
    );
    let ghost start = seq![first@];
    let mut edits: Vec<Edit> = Vec::new();
    edits.push(first);
    let imports = &annotation.imports;
    let mut i: usize = 0;
    assert(edit_models(edits@) =~= start + edit_models(imports@).take(0));
    while i < imports.len()
        invariant
            i <= imports.len(),
            edit_models(edits@) == start + edit_models(imports@).take(i as int),
        decreases imports.len() - i,
    {
        let ghost before = edits@;
        let import = imports[i].copy();
        edits.push(import);
        assert(edit_models(edits@) =~= edit_models(before).push(imports@[i as int]@));
        assert(edit_models(edits@) =~= start + edit_models(imports@).take(i + 1));
        i += 1;
    }
    assert(edit_models(imports@).take(i as int) =~= edit_models(imports@));
    Ok(Plan { title: join3("Add return annotation `-> ", annotation.text.as_str(), "`"), edits })
}

/// Whether `path[k]` is the innermost function of `path` whose header, from its start to the end
/// of its parameters or of what it raises, `range` is in.
pub open spec fn is_headed_by(path: Seq<Node>, range: TextRange, k: int) -> bool {
    &&& 0 <= k < path.len()
    &&& is_in_header(path[k], range)
    &&& forall|j: int| k < j < path.len() ==> !is_in_header(#[trigger] path[j], range)
}

pub open spec fn is_in_header(node: Node, range: TextRange) -> bool {
    &&& node.kind is StmtFunctionDef
    &&& node.range.start <= range.start
    &&& range.start <= range.end
    &&& range.end <= match child_of(node, Field::Raises) {
        Some(raises) => raises.range.end,
        None => match child_of(node, Field::Parameters) {
            Some(parameters) => parameters.range.end,
            None => match node.kind {
                NodeKind::StmtFunctionDef { name_range, .. } => name_range.end,
                _ => node.range.start,
            },
        },
    }
}

proof fn lemma_function_headed(path: Seq<Node>, range: TextRange, k: int)
    requires
        is_headed_by(path, range, k),
    ensures
        function_headed(path, range) == Some(path[k]),
    decreases path.len(),
{
    let last = path.len() - 1;
    if k < last {
        assert(!is_in_header(path[last], range));
        let rest = path.drop_last();
        assert(rest[k] == path[k]);
        assert forall|j: int| k < j < rest.len() implies !is_in_header(#[trigger] rest[j], range) by {
            assert(rest[j] == path[j]);
        }
        lemma_function_headed(rest, range, k);
    }
}

/// Whether `function` is written with a header that could say what it returns, and does not.
pub open spec fn is_open_to_annotation(function: Node) -> bool {
    &&& child_of(function, Field::Returns) is None
    &&& function.kind matches NodeKind::StmtFunctionDef {
        name_range,
        is_trailing_lambda,
        is_asserts_return,
        is_property_construct,
        ..
    } && !is_trailing_lambda && !is_asserts_return && !is_property_construct && name_range.start
        < name_range.end
}

/// A function that leaves its return type out gets exactly what the checker infers, written after
/// its parameters and before anything it raises, and whatever that takes to import; one that has
/// one, or has no place for one, is left alone.
pub proof fn law_annotation_is_what_is_inferred(
    context: RefactorContext,
    range: TextRange,
    k: int,
    parameters: Node,
    annotation: ReturnAnnotation,
)
    requires
        range.start <= range.end,
        context.module.range.spec_contains_range(range),
        is_headed_by(path_to(context.module, range), range, k),
    ensures
        ({
            let function = path_to(context.module, range)[k];
            let plan = return_annotation_at(context, range);
            &&& child_of(function, Field::Returns) is Some ==> plan == not_applicable()
            &&& is_open_to_annotation(function) && child_of(function, Field::Parameters) == Some(
                parameters,
            ) && is_said(context.checker.return_annotations@, function.id, Some(annotation)) ==> plan is Ok && {
                let edits = (plan->Ok_0).edits;
                &&& edits.len() == 1 + annotation.imports@.len()
                &&& edits[0].range.start == parameters.range.end
                &&& edits[0].range.end == parameters.range.end
                &&& edits[0].content == Some(" -> "@ + annotation.text@)
                &&& forall|i: int|
                    0 <= i < annotation.imports@.len() ==> edits[i + 1]
                        == #[trigger] annotation.imports@[i]@
            }
        }),
{
    let path = path_to(context.module, range);
    lemma_function_headed(path, range, k);
    if is_said(context.checker.return_annotations@, path[k].id, Some(annotation)) {
        lemma_said(context.checker.return_annotations@, path[k].id, Some(annotation));
    }
}

} // verus!
