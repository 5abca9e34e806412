//! What a refactoring reads of the file it rewrites, and what it answers.

use crate::edit::{edit_models, Edit, EditModel, File};
use crate::node::{
    child_of, children_of, lemma_all_filling_in, lemma_first_filling_in, node_in, walked,
    walked_all, Field, Node, Prune,
};
use crate::refactor::style::{are_of, are_tokens_of, Style};
use crate::semantics::{CheckerFacts, SemanticIndex};
use crate::source::{fits, is_source, is_span, spans};
use crate::tokens::Token;
use vstd::prelude::*;

verus! {

/// Everything a refactoring reads about the file it rewrites.
#[derive(Debug)]
pub struct RefactorContext {
    pub file: File,
    pub source: String,
    /// The syntax tree, a module whose statements are the suite filling its body.
    pub module: Node,
    pub tokens: Vec<Token>,
    pub index: SemanticIndex,
    pub checker: CheckerFacts,
    pub is_basedpython: bool,
    /// Whether the file is python or basedpython source, rather than a notebook or a stub.
    pub is_py_file: bool,
    pub has_invalid_syntax: bool,
    pub python_version_minor: u8,
    pub style: Style,
}

/// Whether every node of the tree covers a stretch of `text`.
pub open spec fn placed(text: Seq<char>, node: Node) -> bool
    decreases node,
{
    &&& is_span(text, node.range)
    &&& forall|i: int|
        0 <= i < node.children@.len() ==> placed(text, #[trigger] node.children@[i])
}

impl RefactorContext {
    /// The tree, the tokens, the text, the index and the style are of one file.
    pub open spec fn wf(&self) -> bool {
        &&& is_source(self.source@)
        &&& self.index.wf()
        &&& are_of(self.tokens@, self.source@)
        &&& self.style.is_of(self.source@, self.tokens@)
        &&& forall|i: int|
            0 <= i < self.module.children@.len() ==> placed(
                self.source@,
                #[trigger] self.module.children@[i],
            )
    }

    /// Whether the tree, the tokens, the text, the index and the style are of one file.
    pub fn is_wf(&self) -> (wf: bool)
        ensures
            wf == self.wf(),
    {
        let source = self.source.as_str();
        if !fits(source) || !self.index.is_wf() || !are_tokens_of(&self.tokens, source)
            || !self.style.is_style_of(source, &self.tokens) {
            return false;
        }
        let mut i: usize = 0;
        while i < self.module.children.len()
            invariant
                i <= self.module.children.len(),
                is_source(self.source@),
                forall|j: int|
                    0 <= j < i ==> placed(self.source@, #[trigger] self.module.children@[j]),
            decreases self.module.children.len() - i,
        {
            if !is_placed(self.source.as_str(), &self.module.children[i]) {
                assert(!placed(self.source@, self.module.children@[i as int]));
                return false;
            }
            i += 1;
        }
        true
    }

    /// The module's statements.
    pub open spec fn spec_suite(&self) -> Option<Node> {
        child_of(self.module, Field::Body)
    }

    /// The module's statements.
    pub fn suite(&self) -> (suite: Option<&Node>)
        requires
            self.wf(),
        ensures
            node_in(suite) == self.spec_suite(),
            suite matches Some(suite) ==> placed(self.source@, *suite),
    {
        proof {
            if self.spec_suite() is Some {
                let i = lemma_first_filling_in(self.module.children@, Field::Body);
            }
        }
        self.module.child(Field::Body)
    }
}

pub broadcast proof fn lemma_placed_child(text: Seq<char>, node: Node, i: int)
    requires
        #[trigger] placed(text, node),
        0 <= i < node.children@.len(),
    ensures
        placed(text, #[trigger] node.children@[i]),
{
}

pub broadcast proof fn lemma_placed_child_of(text: Seq<char>, node: Node, field: Field)
    requires
        #[trigger] placed(text, node),
    ensures
        (#[trigger] child_of(node, field)) matches Some(child) ==> placed(text, child),
{
    if child_of(node, field) is Some {
        let i = lemma_first_filling_in(node.children@, field);
    }
}

pub broadcast proof fn lemma_placed_children_of(text: Seq<char>, node: Node, field: Field, j: int)
    requires
        #[trigger] placed(text, node),
        0 <= j < children_of(node, field).len(),
    ensures
        placed(text, #[trigger] children_of(node, field)[j]),
{
    let i = lemma_all_filling_in(node.children@, field, j);
}

/// What a walk comes to covers stretches of the text when what it starts from does.
pub proof fn lemma_placed_walked(text: Seq<char>, node: Node, prune: Prune)
    requires
        placed(text, node),
    ensures
        forall|i: int|
            0 <= i < walked(node, prune).len() ==> placed(text, #[trigger] walked(node, prune)[i]),
    decreases node, 1int,
{
    if !prune.spec_skips(node) {
        lemma_placed_walked_all(text, node.children@, prune);
        let under = walked_all(node.children@, prune);
        assert forall|i: int| 0 <= i < walked(node, prune).len() implies placed(
            text,
            #[trigger] walked(node, prune)[i],
        ) by {
            if i > 0 {
                assert(walked(node, prune)[i] == under[i - 1]);
            }
        }
    }
}

pub proof fn lemma_placed_walked_all(text: Seq<char>, nodes: Seq<Node>, prune: Prune)
    requires
        forall|i: int| 0 <= i < nodes.len() ==> placed(text, #[trigger] nodes[i]),
    ensures
        forall|i: int|
            0 <= i < walked_all(nodes, prune).len() ==> placed(
                text,
                #[trigger] walked_all(nodes, prune)[i],
            ),
    decreases nodes, 0int,
{
    if nodes.len() > 0 {
        assert(placed(text, nodes[nodes.len() - 1]));
        assert forall|i: int| 0 <= i < nodes.drop_last().len() implies placed(
            text,
            #[trigger] nodes.drop_last()[i],
        ) by {
            assert(nodes.drop_last()[i] == nodes[i]);
        }
        lemma_placed_walked_all(text, nodes.drop_last(), prune);
        lemma_placed_walked(text, nodes.last(), prune);
        let before = walked_all(nodes.drop_last(), prune);
        assert forall|i: int| 0 <= i < walked_all(nodes, prune).len() implies placed(
            text,
            #[trigger] walked_all(nodes, prune)[i],
        ) by {
            if i < before.len() {
                assert(walked_all(nodes, prune)[i] == before[i]);
            } else {
                assert(walked_all(nodes, prune)[i] == walked(nodes.last(), prune)[i
                    - before.len()]);
            }
        }
    }
}

/// Whether every node of the tree covers a stretch of `text`.
pub fn is_placed(text: &str, node: &Node) -> (is_placed: bool)
    requires
        is_source(text@),
    ensures
        is_placed == placed(text@, *node),
    decreases node,
{
    if !spans(text, node.range) {
        return false;
    }
    let mut i: usize = 0;
    while i < node.children.len()
        invariant
            i <= node.children.len(),
            is_source(text@),
            is_span(text@, node.range),
            forall|j: int| 0 <= j < i ==> placed(text@, #[trigger] node.children@[j]),
        decreases node.children.len() - i,
    {
        if !is_placed(text, &node.children[i]) {
            assert(!placed(text@, node.children@[i as int]));
            return false;
        }
        i += 1;
    }
    true
}

/// Why a refactoring does not apply: either it is not about what is at the
/// range at all, or it is but would change what the program means.
#[derive(Debug)]
pub enum Refusal {
    /// Nothing at the range is the kind of thing the refactoring rewrites.
    NotApplicable,
    /// The refactoring is about what is at the range, but cannot be applied.
    Refused { title: String, reason: String },
}

/// A [`Refusal`] as a mathematical value.
pub ghost enum RefusalModel {
    NotApplicable,
    Refused { title: Seq<char>, reason: Seq<char> },
}

impl View for Refusal {
    type V = RefusalModel;

    open spec fn view(&self) -> RefusalModel {
        match self {
            Refusal::NotApplicable => RefusalModel::NotApplicable,
            Refusal::Refused { title, reason } => RefusalModel::Refused {
                title: title@,
                reason: reason@,
            },
        }
    }
}

/// A planned rewrite of one file.
#[derive(Debug)]
pub struct Plan {
    pub title: String,
    pub edits: Vec<Edit>,
}

/// A [`Plan`] as a mathematical value.
pub ghost struct PlanModel {
    pub title: Seq<char>,
    pub edits: Seq<EditModel>,
}

impl View for Plan {
    type V = PlanModel;

    open spec fn view(&self) -> PlanModel {
        PlanModel { title: self.title@, edits: edit_models(self.edits@) }
    }
}

/// What planning a rewrite came to, as a mathematical value.
pub open spec fn outcome(planned: Result<Plan, Refusal>) -> Result<PlanModel, RefusalModel> {
    match planned {
        Ok(plan) => Ok(plan@),
        Err(refusal) => Err(refusal@),
    }
}

/// Nothing at the range is the kind of thing the refactoring rewrites.
pub open spec fn not_applicable() -> Result<PlanModel, RefusalModel> {
    Err(RefusalModel::NotApplicable)
}

/// The refactoring called `title` cannot be applied, because of `reason`.
pub open spec fn refused(title: Seq<char>, reason: Seq<char>) -> Result<PlanModel, RefusalModel> {
    Err(RefusalModel::Refused { title, reason })
}

/// The refactoring called `title` makes `edits`.
pub open spec fn planned(title: Seq<char>, edits: Seq<EditModel>) -> Result<
    PlanModel,
    RefusalModel,
> {
    Ok(PlanModel { title, edits })
}

impl Refusal {
    pub fn refused(title: &str, reason: &str) -> (refusal: Refusal)
        ensures
            refusal@ == (RefusalModel::Refused { title: title@, reason: reason@ }),
    {
        Refusal::Refused {
            title: crate::strings::owned(title),
            reason: crate::strings::owned(reason),
        }
    }
}

/// A plan of one edit.
pub fn plan_one(title: String, edit: Edit) -> (plan: Plan)
    ensures
        plan@ == (PlanModel { title: title@, edits: seq![edit@] }),
{
    let mut edits: Vec<Edit> = Vec::new();
    edits.push(edit);
    assert(edit_models(edits@) =~= seq![edit@]);
    Plan { title, edits }
}

/// A plan of two edits.
pub fn plan_two(title: String, first: Edit, second: Edit) -> (plan: Plan)
    ensures
        plan@ == (PlanModel { title: title@, edits: seq![first@, second@] }),
{
    let mut edits: Vec<Edit> = Vec::new();
    edits.push(first);
    edits.push(second);
    assert(edit_models(edits@) =~= seq![first@, second@]);
    Plan { title, edits }
}

} // verus!
