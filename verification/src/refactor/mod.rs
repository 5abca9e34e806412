//! Refactorings offered as code actions: rewrites the user asks for at a
//! position or selection, as opposed to the quick fixes a diagnostic carries.
//!
//! Every refactoring answers from the syntax tree and the semantic index rather
//! than from the text, and refuses with a reason whenever it cannot show that
//! the rewrite leaves the program meaning what it meant. A refusal is part of
//! the answer: a client that asked for a refactoring explicitly shows why it is
//! unavailable.
//!
//! Each of them answers both questions at once — whether it applies here, and
//! what it would rewrite — because the second *is* the first: a refactoring
//! applies exactly when a rewrite that preserves meaning can be spelled, and
//! there is no cheaper test that does not amount to a second implementation of
//! the same reasoning, which could then disagree with it. So [`refactors`]
//! hands its edits back rather than throwing them away, and the caller tells it
//! which refactorings to consider rather than being given all of them.

pub mod context;
pub mod data_class;
pub mod evaluation;
pub mod extract_function;
pub mod extract_variable;
pub mod flow;
pub mod hazards;
pub mod inline_variable;
pub mod names;
pub mod return_annotation;
pub mod style;
pub mod text;

use crate::edit::{
    edit_models, file_edit_models, Edit, EditModel, File, FileEdit, FileEditModel,
};
use crate::strings::{owned, same_text};
use crate::text_size::TextRange;
use context::{outcome, Plan, PlanModel, RefactorContext, Refusal, RefusalModel};
use vstd::prelude::*;

verus! {

/// The refactorings the server knows how to perform.
#[derive(Debug, Clone, Copy, PartialEq, Eq, Hash, Structural)]
pub enum RefactorKind {
    InlineVariable,
    ExtractVariable,
    IntroduceConstant,
    ExtractFunction,
    AddReturnAnnotation,
    ConvertToDataClass,
    ConvertFromDataClass,
}

impl RefactorKind {
    /// Every refactoring.
    pub fn all() -> (kinds: Vec<RefactorKind>)
        ensures
            kinds@ == seq![
                RefactorKind::InlineVariable,
                RefactorKind::ExtractVariable,
                RefactorKind::IntroduceConstant,
                RefactorKind::ExtractFunction,
                RefactorKind::AddReturnAnnotation,
                RefactorKind::ConvertToDataClass,
                RefactorKind::ConvertFromDataClass,
            ],
            forall|kind: RefactorKind| #[trigger] kinds@.contains(kind),
    {
        let kinds = vec![
            RefactorKind::InlineVariable,
            RefactorKind::ExtractVariable,
            RefactorKind::IntroduceConstant,
            RefactorKind::ExtractFunction,
            RefactorKind::AddReturnAnnotation,
            RefactorKind::ConvertToDataClass,
            RefactorKind::ConvertFromDataClass,
        ];
        assert forall|kind: RefactorKind| #[trigger] kinds@.contains(kind) by {
            match kind {
                RefactorKind::InlineVariable => assert(kinds@[0] == kind),
                RefactorKind::ExtractVariable => assert(kinds@[1] == kind),
                RefactorKind::IntroduceConstant => assert(kinds@[2] == kind),
                RefactorKind::ExtractFunction => assert(kinds@[3] == kind),
                RefactorKind::AddReturnAnnotation => assert(kinds@[4] == kind),
                RefactorKind::ConvertToDataClass => assert(kinds@[5] == kind),
                RefactorKind::ConvertFromDataClass => assert(kinds@[6] == kind),
            }
        }
        kinds
    }

    /// The LSP code action kind the refactoring is offered as.
    pub open spec fn spec_code_action_kind(self) -> Seq<char> {
        match self {
            RefactorKind::InlineVariable => "refactor.inline.variable"@,
            RefactorKind::ExtractVariable => "refactor.extract.variable"@,
            RefactorKind::IntroduceConstant => "refactor.extract.constant"@,
            RefactorKind::ExtractFunction => "refactor.extract.function"@,
            RefactorKind::AddReturnAnnotation => "refactor.rewrite.returnAnnotation"@,
            RefactorKind::ConvertToDataClass => "refactor.rewrite.toDataClass"@,
            RefactorKind::ConvertFromDataClass => "refactor.rewrite.fromDataClass"@,
        }
    }

    /// The stable name of the refactoring.
    pub open spec fn spec_id(self) -> Seq<char> {
        match self {
            RefactorKind::InlineVariable => "inline-variable"@,
            RefactorKind::ExtractVariable => "extract-variable"@,
            RefactorKind::IntroduceConstant => "introduce-constant"@,
            RefactorKind::ExtractFunction => "extract-function"@,
            RefactorKind::AddReturnAnnotation => "add-return-annotation"@,
            RefactorKind::ConvertToDataClass => "convert-to-data-class"@,
            RefactorKind::ConvertFromDataClass => "convert-from-data-class"@,
        }
    }

    /// The LSP code action kind the refactoring is offered as.
    pub fn code_action_kind(self) -> (kind: &'static str)
        ensures
            kind@ == self.spec_code_action_kind(),
    {
        match self {
            RefactorKind::InlineVariable => "refactor.inline.variable",
            RefactorKind::ExtractVariable => "refactor.extract.variable",
            RefactorKind::IntroduceConstant => "refactor.extract.constant",
            RefactorKind::ExtractFunction => "refactor.extract.function",
            RefactorKind::AddReturnAnnotation => "refactor.rewrite.returnAnnotation",
            RefactorKind::ConvertToDataClass => "refactor.rewrite.toDataClass",
            RefactorKind::ConvertFromDataClass => "refactor.rewrite.fromDataClass",
        }
    }

    /// A stable name for the refactoring, which round-trips through a code
    /// action's `data` so the edits can be computed when the action is resolved.
    pub fn id(self) -> (id: &'static str)
        ensures
            id@ == self.spec_id(),
    {
        match self {
            RefactorKind::InlineVariable => "inline-variable",
            RefactorKind::ExtractVariable => "extract-variable",
            RefactorKind::IntroduceConstant => "introduce-constant",
            RefactorKind::ExtractFunction => "extract-function",
            RefactorKind::AddReturnAnnotation => "add-return-annotation",
            RefactorKind::ConvertToDataClass => "convert-to-data-class",
            RefactorKind::ConvertFromDataClass => "convert-from-data-class",
        }
    }
}

/// No two refactorings share an id, so an id says which refactoring it names.
pub proof fn law_ids_are_distinct(left: RefactorKind, right: RefactorKind)
    ensures
        left.spec_id() == right.spec_id() ==> left == right,
{
    reveal_strlit("inline-variable");
    reveal_strlit("extract-variable");
    reveal_strlit("introduce-constant");
    reveal_strlit("extract-function");
    reveal_strlit("add-return-annotation");
    reveal_strlit("convert-to-data-class");
    reveal_strlit("convert-from-data-class");
    assert("inline-variable"@.len() == 15);
    assert("extract-variable"@.len() == 16 && "extract-variable"@[8] == 'v');
    assert("introduce-constant"@.len() == 18);
    assert("extract-function"@.len() == 16 && "extract-function"@[8] == 'f');
    assert("add-return-annotation"@.len() == 21 && "add-return-annotation"@[0] == 'a');
    assert("convert-to-data-class"@.len() == 21 && "convert-to-data-class"@[0] == 'c');
    assert("convert-from-data-class"@.len() == 23);
}

impl RefactorKind {
    /// The refactoring `id` names, when it names one.
    pub fn from_id(id: &str) -> (kind: Option<Self>)
        ensures
            match kind {
                Some(kind) => kind.spec_id() == id@,
                None => forall|other: RefactorKind| #[trigger] other.spec_id() != id@,
            },
    {
        if same_text(id, "inline-variable") {
            Some(RefactorKind::InlineVariable)
        } else if same_text(id, "extract-variable") {
            Some(RefactorKind::ExtractVariable)
        } else if same_text(id, "introduce-constant") {
            Some(RefactorKind::IntroduceConstant)
        } else if same_text(id, "extract-function") {
            Some(RefactorKind::ExtractFunction)
        } else if same_text(id, "add-return-annotation") {
            Some(RefactorKind::AddReturnAnnotation)
        } else if same_text(id, "convert-to-data-class") {
            Some(RefactorKind::ConvertToDataClass)
        } else if same_text(id, "convert-from-data-class") {
            Some(RefactorKind::ConvertFromDataClass)
        } else {
            None
        }
    }
}

/// A refactoring available at a range, or the reason it is not.
#[derive(Debug)]
pub struct RefactorOffer {
    pub kind: RefactorKind,
    pub title: String,
    /// `Ok` holds the rewrite and `Err` why there is none.
    ///
    /// The edits come with the offer because working them out is how the question was answered:
    /// a refactoring applies exactly when its rewrite can be spelled, so there is no cheaper
    /// test to run first. A caller that only needs to know *whether* to offer it may drop them.
    pub availability: Result<Vec<FileEdit>, String>,
}

/// A [`RefactorOffer`] as a mathematical value.
pub ghost struct OfferModel {
    pub kind: RefactorKind,
    pub title: Seq<char>,
    pub availability: Result<Seq<FileEditModel>, Seq<char>>,
}

impl View for RefactorOffer {
    type V = OfferModel;

    open spec fn view(&self) -> OfferModel {
        OfferModel {
            kind: self.kind,
            title: self.title@,
            availability: match self.availability {
                Ok(edits) => Ok(file_edit_models(edits@)),
                Err(reason) => Err(reason@),
            },
        }
    }
}

impl Clone for RefactorOffer {
    fn clone(&self) -> (offer: Self)
        ensures
            offer@ == self@,
    {
        let availability = match &self.availability {
            Ok(edits) => {
                let mut copied: Vec<FileEdit> = Vec::new();
                let mut i: usize = 0;
                while i < edits.len()
                    invariant
                        i <= edits.len(),
                        copied.len() == i,
                        forall|j: int| 0 <= j < i ==> (#[trigger] copied@[j])@ == edits@[j]@,
                    decreases edits.len() - i,
                {
                    copied.push(FileEdit { file: edits[i].file, edit: edits[i].edit.copy() });
                    i += 1;
                }
                assert(file_edit_models(copied@) =~= file_edit_models(edits@));
                Ok(copied)
            },
            Err(reason) => Err(owned(reason.as_str())),
        };
        RefactorOffer { kind: self.kind, title: owned(self.title.as_str()), availability }
    }
}

pub open spec fn offer_models(offers: Seq<RefactorOffer>) -> Seq<OfferModel> {
    offers.map_values(|offer: RefactorOffer| offer@)
}

/// A refactoring worked out in full.
#[derive(Debug)]
pub struct Refactor {
    pub kind: RefactorKind,
    pub title: String,
    pub edits: Vec<FileEdit>,
}

/// A [`Refactor`] as a mathematical value.
pub ghost struct RefactorModel {
    pub kind: RefactorKind,
    pub title: Seq<char>,
    pub edits: Seq<FileEditModel>,
}

impl View for Refactor {
    type V = RefactorModel;

    open spec fn view(&self) -> RefactorModel {
        RefactorModel { kind: self.kind, title: self.title@, edits: file_edit_models(self.edits@) }
    }
}

/// `edits`, each carrying the file it applies to.
pub open spec fn edits_of(file: File, edits: Seq<EditModel>) -> Seq<FileEditModel> {
    edits.map_values(|edit: EditModel| FileEditModel { file, edit })
}

/// What the refactoring `kind` comes to at `range`.
pub open spec fn plan_at(context: RefactorContext, kind: RefactorKind, range: TextRange) -> Result<
    PlanModel,
    RefusalModel,
> {
    match kind {
        RefactorKind::InlineVariable => inline_variable::inline_variable_at(context, range),
        RefactorKind::ExtractVariable => extract_variable::extract_variable_at(
            context,
            range,
            extract_variable::Target::Variable,
        ),
        RefactorKind::IntroduceConstant => extract_variable::extract_variable_at(
            context,
            range,
            extract_variable::Target::Constant,
        ),
        RefactorKind::ExtractFunction => extract_function::extract_function_at(context, range),
        RefactorKind::AddReturnAnnotation => return_annotation::return_annotation_at(
            context,
            range,
        ),
        RefactorKind::ConvertToDataClass => data_class::data_class_at(
            context,
            range,
            data_class::Direction::ToDataClass,
        ),
        RefactorKind::ConvertFromDataClass => data_class::data_class_at(
            context,
            range,
            data_class::Direction::FromDataClass,
        ),
    }
}

/// The offer of the refactoring `kind` at `range`, when it is about what is there.
pub open spec fn offer_at(context: RefactorContext, kind: RefactorKind, range: TextRange) -> Option<
    OfferModel,
> {
    match plan_at(context, kind, range) {
        Ok(plan) => Some(
            OfferModel {
                kind,
                title: plan.title,
                availability: Ok(edits_of(context.file, plan.edits)),
            },
        ),
        Err(RefusalModel::NotApplicable) => None,
        Err(RefusalModel::Refused { title, reason }) => Some(
            OfferModel { kind, title, availability: Err(reason) },
        ),
    }
}

/// The offers of those of `kinds` that are about what is at `range`, in order.
pub open spec fn offers_among(
    context: RefactorContext,
    range: TextRange,
    kinds: Seq<RefactorKind>,
) -> Seq<OfferModel>
    decreases kinds.len(),
{
    if kinds.len() == 0 {
        Seq::empty()
    } else {
        let before = offers_among(context, range, kinds.drop_last());
        match offer_at(context, kinds.last(), range) {
            Some(offer) => before.push(offer),
            None => before,
        }
    }
}

/// The offers made of `kinds` at `range`. Only python and basedpython source is rewritten: a
/// notebook's cells and a stub's declarations are not code these refactorings reason about.
pub open spec fn offers_at(
    context: RefactorContext,
    range: TextRange,
    kinds: Seq<RefactorKind>,
) -> Seq<OfferModel> {
    if context.is_py_file && !context.has_invalid_syntax {
        offers_among(context, range, kinds)
    } else {
        Seq::empty()
    }
}

/// The refactoring `kind` at `range` worked out, or why it cannot be applied.
pub open spec fn refactor_at(
    context: RefactorContext,
    kind: RefactorKind,
    range: TextRange,
) -> Result<RefactorModel, Seq<char>> {
    if !context.is_py_file {
        Err("the refactoring does not apply here"@)
    } else if context.has_invalid_syntax {
        Err("the file has syntax errors"@)
    } else {
        match plan_at(context, kind, range) {
            Ok(plan) => Ok(
                RefactorModel {
                    kind,
                    title: plan.title,
                    edits: edits_of(context.file, plan.edits),
                },
            ),
            Err(RefusalModel::NotApplicable) => Err("the refactoring does not apply here"@),
            Err(RefusalModel::Refused { title, reason }) => Err(reason),
        }
    }
}

/// An offer and the refactoring it offers are one rewrite, or one refusal: the same title and
/// edits, or the same reason.
pub proof fn law_offers_agree(
    context: RefactorContext,
    range: TextRange,
    kinds: Seq<RefactorKind>,
    i: int,
)
    requires
        0 <= i < offers_at(context, range, kinds).len(),
    ensures
        ({
            let offer = offers_at(context, range, kinds)[i];
            &&& kinds.contains(offer.kind)
            &&& match offer.availability {
                Ok(edits) => refactor_at(context, offer.kind, range) == Ok::<
                    RefactorModel,
                    Seq<char>,
                >(RefactorModel { kind: offer.kind, title: offer.title, edits }),
                Err(reason) => refactor_at(context, offer.kind, range) == Err::<
                    RefactorModel,
                    Seq<char>,
                >(reason),
            }
        }),
    decreases kinds.len(),
{
    if kinds.len() > 0 {
        let before = offers_at(context, range, kinds.drop_last());
        if i < before.len() {
            law_offers_agree(context, range, kinds.drop_last(), i);
            let kind = before[i].kind;
            let k = choose|k: int|
                0 <= k < kinds.drop_last().len() && kinds.drop_last()[k] == kind;
            assert(kinds[k] == kind);
            assert(offers_at(context, range, kinds)[i] == before[i]);
        } else {
            assert(kinds[kinds.len() - 1] == kinds.last());
        }
    }
}

/// A refactoring that can be applied is offered to whoever asks about it.
pub proof fn law_applicable_is_offered(
    context: RefactorContext,
    range: TextRange,
    kinds: Seq<RefactorKind>,
    kind: RefactorKind,
)
    requires
        kinds.contains(kind),
        refactor_at(context, kind, range) is Ok,
    ensures
        exists|i: int|
            0 <= i < offers_at(context, range, kinds).len() && (#[trigger] offers_at(
                context,
                range,
                kinds,
            )[i]).kind == kind,
    decreases kinds.len(),
{
    let k = choose|k: int| 0 <= k < kinds.len() && kinds[k] == kind;
    let before = offers_at(context, range, kinds.drop_last());
    let all = offers_at(context, range, kinds);
    if k < kinds.len() - 1 {
        assert(kinds.drop_last()[k] == kind);
        law_applicable_is_offered(context, range, kinds.drop_last(), kind);
        let i = choose|i: int| 0 <= i < before.len() && (#[trigger] before[i]).kind == kind;
        assert(all[i] == before[i]);
    } else {
        assert(all[before.len() as int].kind == kind);
    }
}

impl RefactorContext {
    /// A plan's edits, each carrying the file it applies to.
    fn file_edits(&self, edits: Vec<Edit>) -> (carried: Vec<FileEdit>)
        ensures
            file_edit_models(carried@) == edits_of(self.file, edit_models(edits@)),
    {
        let ghost all = edit_models(edits@);
        let mut carried: Vec<FileEdit> = Vec::new();
        let mut i: usize = 0;
        assert(file_edit_models(carried@) =~= edits_of(self.file, all.take(0)));
        while i < edits.len()
            invariant
                i <= edits.len(),
                all == edit_models(edits@),
                file_edit_models(carried@) == edits_of(self.file, all.take(i as int)),
            decreases edits.len() - i,
        {
            let ghost before = carried@;
            let edit = FileEdit { file: self.file, edit: edits[i].copy() };
            carried.push(edit);
            assert(file_edit_models(carried@) =~= file_edit_models(before).push(edit@));
            assert(edit@.edit == all[i as int]);
            assert(file_edit_models(carried@) =~= edits_of(self.file, all.take(i + 1)));
            i += 1;
        }
        assert(all.take(i as int) =~= all);
        carried
    }

    fn plan(&self, kind: RefactorKind, range: TextRange) -> (plan: Result<Plan, Refusal>)
        requires
            self.wf(),
        ensures
            outcome(plan) == plan_at(*self, kind, range),
    {
        match kind {
            RefactorKind::InlineVariable => inline_variable::plan(self, range),
            RefactorKind::ExtractVariable => extract_variable::plan(
                self,
                range,
                extract_variable::Target::Variable,
            ),
            RefactorKind::IntroduceConstant => extract_variable::plan(
                self,
                range,
                extract_variable::Target::Constant,
            ),
            RefactorKind::ExtractFunction => extract_function::plan(self, range),
            RefactorKind::AddReturnAnnotation => return_annotation::plan(self, range),
            RefactorKind::ConvertToDataClass => data_class::plan(
                self,
                range,
                data_class::Direction::ToDataClass,
            ),
            RefactorKind::ConvertFromDataClass => data_class::plan(
                self,
                range,
                data_class::Direction::FromDataClass,
            ),
        }
    }
}

/// Those of `kinds` that are about what is at `range`, each with its rewrite or the
/// reason there is none.
///
/// `kinds` is asked for rather than assumed because answering for one costs working its rewrite
/// out, so a caller that will not offer a refactoring should not name it — a client narrowing a
/// `textDocument/codeAction` with `only` then pays for nothing it asked no question about.
pub fn refactors(context: &RefactorContext, range: TextRange, kinds: &Vec<RefactorKind>) -> (offers:
    Vec<RefactorOffer>)
    requires
        context.wf(),
    ensures
        offer_models(offers@) == offers_at(*context, range, kinds@),
{
    let mut offers: Vec<RefactorOffer> = Vec::new();
    assert(offer_models(offers@) =~= Seq::empty());
    if !context.is_py_file || context.has_invalid_syntax {
        return offers;
    }
    let mut i: usize = 0;
    while i < kinds.len()
        invariant
            i <= kinds.len(),
            context.wf(),
            offer_models(offers@) == offers_among(*context, range, kinds@.take(i as int)),
        decreases kinds.len() - i,
    {
        assert(kinds@.take(i + 1).drop_last() =~= kinds@.take(i as int));
        assert(kinds@.take(i + 1).last() == kinds@[i as int]);
        let ghost before = offers@;
        let kind = kinds[i];
        match context.plan(kind, range) {
            Ok(plan) => {
                let offer = RefactorOffer {
                    kind,
                    title: plan.title,
                    availability: Ok(context.file_edits(plan.edits)),
                };
                offers.push(offer);
                assert(offer_models(offers@) =~= offer_models(before).push(offer@));
            },
            Err(Refusal::NotApplicable) => {},
            Err(Refusal::Refused { title, reason }) => {
                let offer = RefactorOffer { kind, title, availability: Err(reason) };
                offers.push(offer);
                assert(offer_models(offers@) =~= offer_models(before).push(offer@));
            },
        }
        i += 1;
    }
    assert(kinds@.take(i as int) =~= kinds@);
    offers
}

/// The edits of the refactoring `kind` at `range`, or why it cannot be applied.
pub fn refactor(context: &RefactorContext, kind: RefactorKind, range: TextRange) -> (found: Result<
    Refactor,
    String,
>)
    requires
        context.wf(),
    ensures
        match found {
            Ok(refactor) => refactor_at(*context, kind, range) == Ok::<RefactorModel, Seq<char>>(
                refactor@,
            ),
            Err(reason) => refactor_at(*context, kind, range) == Err::<RefactorModel, Seq<char>>(
                reason@,
            ),
        },
{
    if !context.is_py_file {
        return Err(owned("the refactoring does not apply here"));
    }
    if context.has_invalid_syntax {
        return Err(owned("the file has syntax errors"));
    }
    match context.plan(kind, range) {
        Ok(plan) => Ok(
            Refactor { kind, title: plan.title, edits: context.file_edits(plan.edits) },
        ),
        Err(Refusal::NotApplicable) => Err(owned("the refactoring does not apply here")),
        Err(Refusal::Refused { reason, .. }) => Err(reason),
    }
}

} // verus!
