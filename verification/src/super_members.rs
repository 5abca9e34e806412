//! finds the superclass members a class member overrides: the direction
//! going to implementations does not go, which finds the members that
//! override one
//!
//! what counts as an override is the override checks' own walk up the MRO.
//! of the declarations that walk finds, a member
//! goes to the nearest along each branch of the MRO: the first of them is what
//! `missing-override-decorator` names, and `invalid-method-override` compares
//! the member with each declaration the walk finds, these and the ones they
//! override in turn
//!
//! asked two ways, from the same code: of one member, at a position on its name
//! ([`super_members`]), which is what *Go to Super* asks; and of every member a
//! document declares at once ([`document_super_members`]), which is what an
//! editor drawing an "overrides" marker beside each one asks, on every pass over
//! the document

use crate::navigation::{first, first_target, NavigationTarget};
use crate::strings::{owned, same_text};
use crate::text_size::{TextRange, TextSize};
use vstd::prelude::*;

verus! {

/// a superclass member that a class member overrides
#[derive(Debug, Clone)]
pub struct SuperMember {
    /// the member's name
    pub name: String,
    /// the superclass that declares it
    pub superclass: String,
    /// where the superclass declares it, or, for a member the superclass
    /// synthesizes rather than writes, the superclass itself
    pub target: NavigationTarget,
    /// whether the superclass synthesizes the member, as a dataclass does its
    /// `__init__`, so that [`Self::target`] is the class
    pub synthesized: bool,
    /// whether the member is abstract where the superclass declares it: an
    /// `@abstractmethod`, or a protocol method with no implementation
    pub is_abstract: bool,
}

/// a [`SuperMember`] as a mathematical value
pub ghost struct SuperMemberModel {
    pub name: Seq<char>,
    pub superclass: Seq<char>,
    pub target: NavigationTarget,
    pub synthesized: bool,
    pub is_abstract: bool,
}

impl View for SuperMember {
    type V = SuperMemberModel;

    open spec fn view(&self) -> SuperMemberModel {
        SuperMemberModel {
            name: self.name@,
            superclass: self.superclass@,
            target: self.target,
            synthesized: self.synthesized,
            is_abstract: self.is_abstract,
        }
    }
}

pub open spec fn super_models(members: Seq<SuperMember>) -> Seq<SuperMemberModel> {
    members.map_values(|member: SuperMember| member@)
}

/// a class member a document declares that overrides something, and what it
/// overrides
#[derive(Debug, Clone)]
pub struct OverridingMember {
    /// the member's name
    pub name: String,
    /// the class whose body declares it
    pub class: String,
    /// its name where it is declared: the name of a `def` or a nested class, a
    /// name a class body assigns, annotates or captures, or an import's alias
    pub name_range: TextRange,
    /// whether the member is itself abstract, in the sense of
    /// [`SuperMember::is_abstract`]
    pub is_abstract: bool,
    /// what it overrides directly, in MRO order. never empty
    pub super_members: Vec<SuperMember>,
}

/// an [`OverridingMember`] as a mathematical value
pub ghost struct OverridingMemberModel {
    pub name: Seq<char>,
    pub class: Seq<char>,
    pub name_range: TextRange,
    pub is_abstract: bool,
    pub super_members: Seq<SuperMemberModel>,
}

impl View for OverridingMember {
    type V = OverridingMemberModel;

    open spec fn view(&self) -> OverridingMemberModel {
        OverridingMemberModel {
            name: self.name@,
            class: self.class@,
            name_range: self.name_range,
            is_abstract: self.is_abstract,
            super_members: super_models(self.super_members@),
        }
    }
}

pub open spec fn overriding_models(members: Seq<OverridingMember>) -> Seq<OverridingMemberModel> {
    members.map_values(|member: OverridingMember| member@)
}

/// a member of a superclass that a definition overrides, as the override checks
/// find it
#[derive(Debug)]
pub struct OverriddenMember {
    /// tells the superclass from every other class
    pub superclass: u32,
    pub superclass_name: String,
    /// where the superclass declares the member
    pub declarations: Vec<NavigationTarget>,
    /// where the superclass itself is declared
    pub class_declarations: Vec<NavigationTarget>,
    pub synthesized: bool,
    pub is_abstract: bool,
}

/// a definition of a class member, with what the override checks find it
/// overrides, in MRO order
#[derive(Debug)]
pub struct ClassMemberDefinition {
    pub name: String,
    pub class_name: String,
    pub name_range: TextRange,
    pub is_abstract: bool,
    pub overridden: Vec<OverriddenMember>,
}

/// whether `name` is a constructor's, or of a method constructors call
pub open spec fn is_constructor_like(name: Seq<char>) -> bool {
    name == "__init__"@ || name == "__new__"@ || name == "__post_init__"@ || name
        == "__init_subclass__"@
}

/// whether one of `members` is of the superclass `superclass`
pub open spec fn has_superclass(members: Seq<OverriddenMember>, superclass: u32) -> bool {
    exists|i: int| 0 <= i < members.len() && (#[trigger] members[i]).superclass == superclass
}

/// `found` with those of `members` whose superclass is not there yet
pub open spec fn merged(found: Seq<OverriddenMember>, members: Seq<OverriddenMember>) -> Seq<
    OverriddenMember,
>
    decreases members.len(),
{
    if members.len() == 0 {
        found
    } else {
        let before = merged(found, members.drop_last());
        if has_superclass(before, members.last().superclass) {
            before
        } else {
            before.push(members.last())
        }
    }
}

/// what the definitions `declared` override between them: each superclass once,
/// as the first of them to override something of it does
pub open spec fn overridden_by(declared: Seq<ClassMemberDefinition>) -> Seq<OverriddenMember>
    decreases declared.len(),
{
    if declared.len() == 0 {
        Seq::empty()
    } else {
        merged(overridden_by(declared.drop_last()), declared.last().overridden@)
    }
}

/// where `member` is declared, or the superclass itself for one with no
/// declaration to go to
pub open spec fn target_of(member: OverriddenMember) -> Option<NavigationTarget> {
    match first_target(member.declarations@) {
        Some(target) => Some(target),
        None => first_target(member.class_declarations@),
    }
}

/// the members `overridden`, named `name`, that there is somewhere to go to
pub open spec fn targets_of(name: Seq<char>, overridden: Seq<OverriddenMember>) -> Seq<
    SuperMemberModel,
>
    decreases overridden.len(),
{
    if overridden.len() == 0 {
        Seq::empty()
    } else {
        let before = targets_of(name, overridden.drop_last());
        let member = overridden.last();
        match target_of(member) {
            Some(target) => before.push(
                SuperMemberModel {
                    name,
                    superclass: member.superclass_name@,
                    target,
                    synthesized: member.synthesized,
                    is_abstract: member.is_abstract,
                },
            ),
            None => before,
        }
    }
}

/// whether one of `declared` is abstract
pub open spec fn any_abstract(declared: Seq<ClassMemberDefinition>) -> bool {
    exists|i: int| 0 <= i < declared.len() && (#[trigger] declared[i]).is_abstract
}

/// what the definitions `declared`, which all name the same member at the same
/// place in the source, override between them
pub open spec fn overriding(declared: Seq<ClassMemberDefinition>) -> OverridingMemberModel {
    let first = declared[0];
    OverridingMemberModel {
        name: first.name@,
        class: first.class_name@,
        name_range: first.name_range,
        is_abstract: any_abstract(declared),
        super_members: targets_of(first.name@, overridden_by(declared)),
    }
}

/// whether the name of `member` is at `offset`
pub open spec fn is_named_at(member: ClassMemberDefinition, offset: int) -> bool {
    member.name_range.start != member.name_range.end && member.name_range.start <= offset
        <= member.name_range.end
}

/// those of `members` whose name is at `offset`
pub open spec fn named_at(members: Seq<ClassMemberDefinition>, offset: int) -> Seq<
    ClassMemberDefinition,
>
    decreases members.len(),
{
    if members.len() == 0 {
        Seq::empty()
    } else if is_named_at(members.last(), offset) {
        named_at(members.drop_last(), offset).push(members.last())
    } else {
        named_at(members.drop_last(), offset)
    }
}

/// what the member named at `offset` overrides, when there is one
pub open spec fn super_members_at(members: Seq<ClassMemberDefinition>, offset: int) -> Option<
    Seq<SuperMemberModel>,
> {
    let declared = named_at(members, offset);
    if declared.len() == 0 {
        None
    } else {
        Some(overriding(declared).super_members)
    }
}

/// how many of the first of `members` are named at one place in the source
pub open spec fn run(members: Seq<ClassMemberDefinition>) -> int
    decreases members.len(),
{
    if members.len() == 0 {
        0
    } else if members.len() > 1 && members[0].name_range == members[1].name_range {
        1 + run(members.skip(1))
    } else {
        1
    }
}

pub proof fn lemma_run(members: Seq<ClassMemberDefinition>)
    ensures
        members.len() > 0 ==> 1 <= run(members) <= members.len(),
        forall|i: int|
            0 <= i < run(members) ==> (#[trigger] members[i]).name_range == members[0].name_range,
    decreases members.len(),
{
    if members.len() > 1 && members[0].name_range == members[1].name_range {
        lemma_run(members.skip(1));
        assert forall|i: int| 0 <= i < run(members) implies (#[trigger] members[i]).name_range
            == members[0].name_range by {
            if i > 0 {
                assert(members.skip(1)[i - 1] == members[i]);
                assert(members.skip(1)[0] == members[1]);
            }
        }
    }
}

/// what the definitions `declared`, all named at one place, are listed as
pub open spec fn listed_as(declared: Seq<ClassMemberDefinition>) -> Seq<OverridingMemberModel> {
    let first = declared[0];
    if first.name_range.start == first.name_range.end || is_constructor_like(first.name@)
        || overriding(declared).super_members.len() == 0 {
        Seq::empty()
    } else {
        seq![overriding(declared)]
    }
}

/// every one of `members` that overrides something, in order
pub open spec fn listed(members: Seq<ClassMemberDefinition>) -> Seq<OverridingMemberModel>
    decreases members.len(),
{
    if members.len() == 0 {
        Seq::empty()
    } else {
        proof {
            lemma_run(members);
        }
        listed_as(members.take(run(members))) + listed(members.skip(run(members)))
    }
}

/// whether `name` is a constructor's, or of a method constructors call
pub fn is_constructor_like_method(name: &str) -> (constructor_like: bool)
    ensures
        constructor_like == is_constructor_like(name@),
{
    same_text(name, "__init__") || same_text(name, "__new__") || same_text(name, "__post_init__")
        || same_text(name, "__init_subclass__")
}

fn merge<'a>(found: &mut Vec<&'a OverriddenMember>, members: &'a Vec<OverriddenMember>)
    ensures
        final(found)@.unref() == merged(old(found)@.unref(), members@),
{
    let ghost start = found@.unref();
    let mut i: usize = 0;
    while i < members.len()
        invariant
            i <= members.len(),
            found@.unref() == merged(start, members@.take(i as int)),
        decreases members.len() - i,
    {
        assert(members@.take(i + 1).drop_last() =~= members@.take(i as int));
        assert(members@.take(i + 1).last() == members@[i as int]);
        let member = &members[i];
        let ghost before = found@.unref();
        let mut known = false;
        let mut j: usize = 0;
        while j < found.len() && !known
            invariant
                j <= found.len(),
                before == found@.unref(),
                known ==> has_superclass(before, member.superclass),
                !known ==> forall|k: int|
                    0 <= k < j ==> (#[trigger] before[k]).superclass != member.superclass,
            decreases found.len() - j, !known as int,
        {
            assert(before[j as int] == *found@[j as int]);
            if found[j].superclass == member.superclass {
                known = true;
            } else {
                j += 1;
            }
        }
        if !known {
            found.push(member);
            assert(found@.unref() =~= before.push(*member));
        }
        i += 1;
    }
    assert(members@.take(i as int) =~= members@);
}

/// where each of `overridden`, the members named `name` a member overrides, is
/// declared, or the superclass itself for one with no declaration to go to. one
/// with neither is left out
fn targets(name: &str, overridden: &Vec<&OverriddenMember>) -> (found: Vec<SuperMember>)
    ensures
        super_models(found@) == targets_of(name@, overridden@.unref()),
{
    let ghost all = overridden@.unref();
    let mut found: Vec<SuperMember> = Vec::new();
    let mut i: usize = 0;
    assert(super_models(found@) =~= targets_of(name@, all.take(0)));
    while i < overridden.len()
        invariant
            i <= overridden.len(),
            all == overridden@.unref(),
            super_models(found@) == targets_of(name@, all.take(i as int)),
        decreases overridden.len() - i,
    {
        assert(all.take(i + 1).drop_last() =~= all.take(i as int));
        let member = overridden[i];
        assert(all.take(i + 1).last() == *member);
        let target = match first(&member.declarations) {
            Some(target) => Some(target),
            None => first(&member.class_declarations),
        };
        if let Some(target) = target {
            let ghost before = found@;
            let item = SuperMember {
                name: owned(name),
                superclass: owned(member.superclass_name.as_str()),
                target,
                synthesized: member.synthesized,
                is_abstract: member.is_abstract,
            };
            found.push(item);
            assert(super_models(found@) =~= super_models(before).push(item@));
        }
        i += 1;
    }
    assert(all.take(i as int) =~= all);
    found
}

/// what the definitions `declared`, which all name the same member at the same
/// place in the source, override between them. `None` when `declared` is empty
fn overriding_member(declared: &Vec<&ClassMemberDefinition>) -> (member: Option<OverridingMember>)
    ensures
        match member {
            Some(member) => declared.len() > 0 && member@ == overriding(declared@.unref()),
            None => declared.len() == 0,
        },
{
    if declared.len() == 0 {
        return None;
    }
    let ghost all = declared@.unref();
    let mut is_abstract = false;
    let mut overridden: Vec<&OverriddenMember> = Vec::new();
    let mut i: usize = 0;
    assert(overridden@.unref() =~= overridden_by(all.take(0)));
    while i < declared.len()
        invariant
            i <= declared.len(),
            all == declared@.unref(),
            is_abstract == any_abstract(all.take(i as int)),
            overridden@.unref() == overridden_by(all.take(i as int)),
        decreases declared.len() - i,
    {
        let ghost before = all.take(i as int);
        let ghost upto = all.take(i + 1);
        assert(upto.drop_last() =~= before);
        assert(upto.last() == *declared@[i as int]);
        proof {
            if any_abstract(before) {
                let k = choose|k: int| 0 <= k < before.len() && (#[trigger] before[k]).is_abstract;
                assert(upto[k].is_abstract);
            }
            if any_abstract(upto) {
                let k = choose|k: int| 0 <= k < upto.len() && (#[trigger] upto[k]).is_abstract;
                if k < i {
                    assert(before[k].is_abstract);
                }
            }
            if declared@[i as int].is_abstract {
                assert(upto[i as int].is_abstract);
            }
        }
        is_abstract = is_abstract || declared[i].is_abstract;
        merge(&mut overridden, &declared[i].overridden);
        i += 1;
    }
    assert(all.take(i as int) =~= all);
    let first = declared[0];
    assert(all[0] == *first);
    Some(
        OverridingMember {
            name: owned(first.name.as_str()),
            class: owned(first.class_name.as_str()),
            name_range: first.name_range,
            is_abstract,
            super_members: targets(first.name.as_str(), &overridden),
        },
    )
}

pub open spec fn supers_in(found: Option<Vec<SuperMember>>) -> Option<Seq<SuperMemberModel>> {
    match found {
        Some(members) => Some(super_models(members@)),
        None => None,
    }
}

/// the superclass members the class member declared at `offset` overrides
/// directly, in MRO order
///
/// `offset` is on the member's name where it is declared, as
/// [`OverridingMember::name_range`] has it. `None` when there is no such member
/// there; empty when there is one and it overrides nothing
pub fn super_members(members: &Vec<ClassMemberDefinition>, offset: TextSize) -> (found: Option<
    Vec<SuperMember>,
>)
    ensures
        supers_in(found) == super_members_at(members@, offset as int),
{
    let mut declared: Vec<&ClassMemberDefinition> = Vec::new();
    let mut i: usize = 0;
    assert(declared@.unref() =~= named_at(members@.take(0), offset as int));
    while i < members.len()
        invariant
            i <= members.len(),
            declared@.unref() == named_at(members@.take(i as int), offset as int),
        decreases members.len() - i,
    {
        assert(members@.take(i + 1).drop_last() =~= members@.take(i as int));
        assert(members@.take(i + 1).last() == members@[i as int]);
        let member = &members[i];
        if !member.name_range.is_empty() && member.name_range.contains_inclusive(offset) {
            let ghost before = declared@.unref();
            declared.push(member);
            assert(declared@.unref() =~= before.push(*member));
        }
        i += 1;
    }
    assert(members@.take(i as int) =~= members@);
    match overriding_member(&declared) {
        Some(member) => Some(member.super_members),
        None => None,
    }
}

/// every class member `members` declares that overrides something, with what it
/// overrides, in source order: [`super_members`] of each, from one pass over the
/// document
///
/// a member declared more than once is listed at each declaration that names it
/// in the source, as each is answered: a python property's getter and its setter
/// each override their own accessor. a declaration that stands for several, as a
/// basedpython property with `get` and `set` blocks stands for its getter and its
/// setter under the one name, is listed once, with what any of them overrides
///
/// constructors and the methods they call (`__init__`, `__new__`,
/// `__post_init__`, `__init_subclass__`) are left out: every class's `__init__`
/// overrides `object.__init__`, which says nothing about any of them, and
/// neither `invalid-method-override` nor `missing-override-decorator` holds one
/// to what it overrides. [`super_members`] still answers one when asked
pub fn document_super_members(members: &Vec<ClassMemberDefinition>) -> (found: Vec<
    OverridingMember,
>)
    ensures
        overriding_models(found@) == listed(members@),
{
    let mut found: Vec<OverridingMember> = Vec::new();
    let mut i: usize = 0;
    assert(members@.skip(0) =~= members@);
    assert(overriding_models(found@) + listed(members@.skip(0)) =~= listed(members@));
    while i < members.len()
        invariant
            i <= members.len(),
            overriding_models(found@) + listed(members@.skip(i as int)) == listed(members@),
        decreases members.len() - i,
    {
        let ghost rest = members@.skip(i as int);
        proof {
            lemma_run(rest);
        }
        // the definitions come in source order, so the ones naming the same text
        // are next to each other
        let mut declared: Vec<&ClassMemberDefinition> = Vec::new();
        declared.push(&members[i]);
        let mut j: usize = i + 1;
        assert(declared@.unref() =~= rest.take(1));
        assert(rest.skip(0) =~= rest);
        while j < members.len() && members[j - 1].name_range == members[j].name_range
            invariant
                i < j <= members.len(),
                rest == members@.skip(i as int),
                declared@.unref() == rest.take(j - i),
                run(rest) == j - i - 1 + run(rest.skip(j - i - 1)),
            decreases members.len() - j,
        {
            let ghost before = declared@.unref();
            declared.push(&members[j]);
            assert(declared@.unref() =~= before.push(members@[j as int]));
            assert(rest[j - i] == members@[j as int]);
            assert(before.push(members@[j as int]) =~= rest.take(j - i + 1));
            assert(rest.skip(j - i - 1).skip(1) =~= rest.skip(j - i));
            assert(rest.skip(j - i - 1)[0] == members@[j - 1]);
            assert(rest.skip(j - i - 1)[1] == members@[j as int]);
            j += 1;
        }
        assert(j < members.len() ==> rest.skip(j - i - 1)[1] == members@[j as int]);
        assert(rest.skip(j - i - 1)[0] == members@[j - 1]);
        assert(run(rest) == j - i);
        assert(rest.skip(j - i) =~= members@.skip(j as int));
        let first = declared[0];
        assert(declared@.unref()[0] == *first);
        let ghost before = found@;
        if !first.name_range.is_empty() && !is_constructor_like_method(first.name.as_str()) {
            if let Some(member) = overriding_member(&declared) {
                if member.super_members.len() > 0 {
                    assert(super_models(member.super_members@).len() > 0);
                    found.push(member);
                    assert(overriding_models(found@) =~= overriding_models(before) + seq![
                        member@,
                    ]);
                } else {
                    assert(super_models(member.super_members@).len() == 0);
                }
            }
        }
        assert(overriding_models(found@) =~= overriding_models(before) + listed_as(
            rest.take(run(rest)),
        ));
        assert(overriding_models(found@) + listed(members@.skip(j as int)) =~= overriding_models(
            before,
        ) + listed(rest));
        i = j;
    }
    assert(members@.skip(i as int) =~= Seq::empty());
    found
}

/// what a document lists overrides something, is written somewhere, and is no
/// constructor
pub proof fn law_listed_members_override(members: Seq<ClassMemberDefinition>, i: int)
    requires
        0 <= i < listed(members).len(),
    ensures
        listed(members)[i].super_members.len() > 0,
        listed(members)[i].name_range.start != listed(members)[i].name_range.end,
        !is_constructor_like(listed(members)[i].name),
    decreases members.len(),
{
    lemma_run(members);
    let length = run(members);
    let here = listed_as(members.take(length));
    if i >= here.len() {
        law_listed_members_override(members.skip(length), i - here.len());
    } else {
        assert(members.take(length)[0] == members[0]);
    }
}

proof fn lemma_merged_distinct(found: Seq<OverriddenMember>, members: Seq<OverriddenMember>)
    requires
        distinct_superclasses(found),
    ensures
        distinct_superclasses(merged(found, members)),
    decreases members.len(),
{
    if members.len() > 0 {
        lemma_merged_distinct(found, members.drop_last());
    }
}

/// whether no two of `members` are of one superclass
pub open spec fn distinct_superclasses(members: Seq<OverriddenMember>) -> bool {
    forall|i: int, j: int|
        0 <= i < j < members.len() ==> (#[trigger] members[i]).superclass != (
        #[trigger] members[j]).superclass
}

/// a member goes to each superclass at most once, however many definitions it
/// has
pub proof fn law_each_superclass_once(declared: Seq<ClassMemberDefinition>)
    ensures
        distinct_superclasses(overridden_by(declared)),
    decreases declared.len(),
{
    if declared.len() > 0 {
        law_each_superclass_once(declared.drop_last());
        lemma_merged_distinct(
            overridden_by(declared.drop_last()),
            declared.last().overridden@,
        );
    }
}

proof fn lemma_named(members: Seq<ClassMemberDefinition>, from: int, to: int, offset: int)
    requires
        0 <= from <= to <= members.len(),
        forall|i: int|
            0 <= i < members.len() ==> (is_named_at(#[trigger] members[i], offset) <==> from <= i
                < to),
    ensures
        named_at(members, offset) == members.subrange(from, to),
    decreases members.len(),
{
    if members.len() == 0 {
        assert(members.subrange(from, to) =~= Seq::empty());
    } else {
        let rest = members.drop_last();
        let last = members.len() - 1;
        assert(members[last] == members.last());
        let upto = if to > last {
            last
        } else {
            to
        };
        let start = if from > last {
            last
        } else {
            from
        };
        assert forall|i: int| 0 <= i < rest.len() implies (is_named_at(
            #[trigger] rest[i],
            offset,
        ) <==> start <= i < upto) by {
            assert(rest[i] == members[i]);
        }
        lemma_named(rest, start, upto, offset);
        if from <= last < to {
            assert(members.subrange(from, to) =~= rest.subrange(start, upto).push(
                members.last(),
            ));
        } else {
            assert(members.subrange(from, to) =~= rest.subrange(start, upto));
        }
    }
}

/// asked of one member and asked of the whole document, the answer is the same:
/// where only the definitions of one place are named at an offset, what is
/// answered there is what the document lists for that place
pub proof fn law_both_ways_agree(
    members: Seq<ClassMemberDefinition>,
    from: int,
    to: int,
    offset: int,
)
    requires
        0 <= from < to <= members.len(),
        forall|i: int|
            0 <= i < members.len() ==> (is_named_at(#[trigger] members[i], offset) <==> from <= i
                < to),
    ensures
        ({
            let declared = members.subrange(from, to);
            &&& super_members_at(members, offset) == Some(overriding(declared).super_members)
            &&& listed_as(declared).len() > 0 ==> super_members_at(members, offset) == Some(
                listed_as(declared)[0].super_members,
            )
        }),
{
    lemma_named(members, from, to, offset);
}

/// whether `a` is written before `b`
pub open spec fn is_written_before(a: TextRange, b: TextRange) -> bool {
    a.start < b.start || (a.start == b.start && a.end < b.end)
}

/// whether `members` come in the order of their names in the source, the ones
/// named at one place together
pub open spec fn is_in_source_order(members: Seq<ClassMemberDefinition>) -> bool {
    forall|i: int, j: int|
        0 <= i < j < members.len() ==> (#[trigger] members[i]).name_range == (
        #[trigger] members[j]).name_range || is_written_before(
            members[i].name_range,
            members[j].name_range,
        )
}

/// those of `members` that are named at `range`
pub open spec fn declared_at(members: Seq<ClassMemberDefinition>, range: TextRange) -> Seq<
    ClassMemberDefinition,
>
    decreases members.len(),
{
    if members.len() == 0 {
        Seq::empty()
    } else if members.last().name_range == range {
        declared_at(members.drop_last(), range).push(members.last())
    } else {
        declared_at(members.drop_last(), range)
    }
}

proof fn lemma_declared_at_all(members: Seq<ClassMemberDefinition>, range: TextRange)
    requires
        forall|i: int| 0 <= i < members.len() ==> (#[trigger] members[i]).name_range == range,
    ensures
        declared_at(members, range) == members,
    decreases members.len(),
{
    if members.len() > 0 {
        assert forall|i: int| 0 <= i < members.len() - 1 implies (
        #[trigger] members.drop_last()[i]).name_range == range by {
            assert(members.drop_last()[i] == members[i]);
        }
        assert(members[members.len() - 1].name_range == range);
        lemma_declared_at_all(members.drop_last(), range);
        assert(members.drop_last().push(members.last()) =~= members);
    }
}

proof fn lemma_declared_at_none(members: Seq<ClassMemberDefinition>, range: TextRange)
    requires
        forall|i: int| 0 <= i < members.len() ==> (#[trigger] members[i]).name_range != range,
    ensures
        declared_at(members, range).len() == 0,
    decreases members.len(),
{
    if members.len() > 0 {
        assert forall|i: int| 0 <= i < members.len() - 1 implies (
        #[trigger] members.drop_last()[i]).name_range != range by {
            assert(members.drop_last()[i] == members[i]);
        }
        assert(members[members.len() - 1].name_range != range);
        lemma_declared_at_none(members.drop_last(), range);
    }
}

proof fn lemma_declared_at_split(
    members: Seq<ClassMemberDefinition>,
    at: int,
    range: TextRange,
)
    requires
        0 <= at <= members.len(),
    ensures
        declared_at(members, range) == declared_at(members.take(at), range) + declared_at(
            members.skip(at),
            range,
        ),
    decreases members.len(),
{
    if at == members.len() {
        assert(members.take(at) =~= members);
        assert(declared_at(members.skip(at), range) =~= Seq::empty());
        assert(declared_at(members, range) + Seq::empty() =~= declared_at(members, range));
    } else {
        let rest = members.drop_last();
        lemma_declared_at_split(rest, at, range);
        assert(rest.take(at) =~= members.take(at));
        assert(rest.skip(at) =~= members.skip(at).drop_last());
        assert(members.skip(at).last() == members.last());
        assert(declared_at(members, range) =~= declared_at(members.take(at), range)
            + declared_at(members.skip(at), range));
    }
}

/// the definitions of the first place come first, and are followed by others
proof fn lemma_first_place(members: Seq<ClassMemberDefinition>)
    requires
        is_in_source_order(members),
        members.len() > 0,
    ensures
        forall|i: int|
            run(members) <= i < members.len() ==> is_written_before(
                members[0].name_range,
                (#[trigger] members[i]).name_range,
            ),
    decreases members.len(),
{
    lemma_run(members);
    let length = run(members);
    if length < members.len() {
        lemma_run_ends(members);
        assert(members[length - 1].name_range == members[0].name_range);
        assert forall|i: int| length <= i < members.len() implies is_written_before(
            members[0].name_range,
            (#[trigger] members[i]).name_range,
        ) by {
            assert(members[length].name_range != members[0].name_range);
            assert(is_written_before(members[0].name_range, members[length].name_range));
            if i > length {
                assert(members[length].name_range == members[i].name_range
                    || is_written_before(members[length].name_range, members[i].name_range));
            }
        }
    }
}

proof fn lemma_run_ends(members: Seq<ClassMemberDefinition>)
    requires
        run(members) < members.len(),
        members.len() > 0,
    ensures
        members[run(members)].name_range != members[0].name_range,
    decreases members.len(),
{
    lemma_run(members);
    if members.len() > 1 && members[0].name_range == members[1].name_range {
        let rest = members.skip(1);
        lemma_run(rest);
        lemma_run_ends(rest);
        assert(rest[0] == members[1]);
        assert(rest[run(rest)] == members[run(members)]);
    }
}

/// what the document lists for the place `range`
pub open spec fn listed_at(members: Seq<ClassMemberDefinition>, range: TextRange) -> Seq<
    OverridingMemberModel,
> {
    listed_as(declared_at(members, range))
}

proof fn lemma_later_places(members: Seq<ClassMemberDefinition>, i: int)
    requires
        is_in_source_order(members),
        run(members) <= i < members.len(),
    ensures
        declared_at(members, members[i].name_range) == declared_at(
            members.skip(run(members)),
            members[i].name_range,
        ),
{
    lemma_run(members);
    lemma_first_place(members);
    let length = run(members);
    let here = members.take(length);
    let range = members[i].name_range;
    assert forall|k: int| 0 <= k < here.len() implies (#[trigger] here[k]).name_range
        != range by {
        assert(here[k] == members[k]);
        assert(members[k].name_range == members[0].name_range);
    }
    lemma_declared_at_none(here, range);
    lemma_declared_at_split(members, length, range);
    assert(declared_at(here, range) =~= Seq::empty());
    assert(Seq::empty() + declared_at(members.skip(length), range) =~= declared_at(
        members.skip(length),
        range,
    ));
}

proof fn lemma_here(members: Seq<ClassMemberDefinition>)
    requires
        is_in_source_order(members),
        members.len() > 0,
    ensures
        declared_at(members, members[0].name_range) == members.take(run(members)),
        is_in_source_order(members.skip(run(members))),
{
    lemma_run(members);
    lemma_first_place(members);
    let length = run(members);
    let here = members.take(length);
    let later = members.skip(length);
    let range = members[0].name_range;
    assert forall|k: int| 0 <= k < here.len() implies (#[trigger] here[k]).name_range
        == range by {
        assert(here[k] == members[k]);
    }
    assert forall|k: int| 0 <= k < later.len() implies (#[trigger] later[k]).name_range
        != range by {
        assert(later[k] == members[length + k]);
    }
    lemma_declared_at_all(here, range);
    lemma_declared_at_none(later, range);
    lemma_declared_at_split(members, length, range);
    assert(here + declared_at(later, range) =~= here);
    assert forall|i: int, j: int| 0 <= i < j < later.len() implies (
    #[trigger] later[i]).name_range == (#[trigger] later[j]).name_range || is_written_before(
        later[i].name_range,
        later[j].name_range,
    ) by {
        assert(later[i] == members[length + i] && later[j] == members[length + j]);
    }
}

/// what a document lists is what it lists for the places its members are named
/// at: each of them that overrides something is there, with what all of its
/// definitions override
pub proof fn law_listing_is_complete(members: Seq<ClassMemberDefinition>, i: int)
    requires
        is_in_source_order(members),
        0 <= i < members.len(),
        listed_at(members, members[i].name_range).len() > 0,
    ensures
        listed(members).contains(overriding(declared_at(members, members[i].name_range))),
    decreases members.len(),
{
    lemma_run(members);
    lemma_here(members);
    let length = run(members);
    let here = listed_as(members.take(length));
    let later = listed(members.skip(length));
    let range = members[i].name_range;
    let wanted = overriding(declared_at(members, range));
    if i < length {
        assert(members[i].name_range == members[0].name_range);
        assert(listed(members)[0] == wanted);
    } else {
        lemma_later_places(members, i);
        assert(members.skip(length)[i - length] == members[i]);
        law_listing_is_complete(members.skip(length), i - length);
        let k = later.index_of(wanted);
        assert(listed(members)[here.len() + k] == wanted);
    }
}

/// everything a document lists is listed for the place of one of its members
pub proof fn law_listing_is_of_members(members: Seq<ClassMemberDefinition>, k: int) -> (i: int)
    requires
        is_in_source_order(members),
        0 <= k < listed(members).len(),
    ensures
        0 <= i < members.len(),
        listed_at(members, members[i].name_range) == seq![listed(members)[k]],
        listed(members)[k].name_range == members[i].name_range,
    decreases members.len(),
{
    lemma_run(members);
    lemma_here(members);
    let length = run(members);
    let here = listed_as(members.take(length));
    if k < here.len() {
        assert(members.take(length)[0] == members[0]);
        assert(here =~= seq![listed(members)[k]]);
        0
    } else {
        let rest = members.skip(length);
        let i = law_listing_is_of_members(rest, k - here.len());
        assert(rest[i] == members[length + i]);
        lemma_later_places(members, length + i);
        length + i
    }
}

/// a document's members are listed in source order, and none of them twice
pub proof fn law_listing_is_in_source_order(
    members: Seq<ClassMemberDefinition>,
    k: int,
    l: int,
)
    requires
        is_in_source_order(members),
        0 <= k < l < listed(members).len(),
    ensures
        is_written_before(listed(members)[k].name_range, listed(members)[l].name_range),
    decreases members.len(),
{
    lemma_run(members);
    lemma_here(members);
    lemma_first_place(members);
    let length = run(members);
    let here = listed_as(members.take(length));
    let rest = members.skip(length);
    if k >= here.len() {
        law_listing_is_in_source_order(rest, k - here.len(), l - here.len());
    } else {
        assert(members.take(length)[0] == members[0]);
        let i = law_listing_is_of_members(rest, l - here.len());
        assert(rest[i] == members[length + i]);
    }
}

/// whether the names of `members` are written, and different ones apart from each
/// other, as two names of a source are
pub open spec fn are_names_apart(members: Seq<ClassMemberDefinition>) -> bool {
    &&& forall|i: int|
        0 <= i < members.len() ==> (#[trigger] members[i]).name_range.start
            <= members[i].name_range.end
    &&& forall|i: int, j: int|
        0 <= i < members.len() && 0 <= j < members.len() ==> {
            let a = (#[trigger] members[i]).name_range;
            let b = (#[trigger] members[j]).name_range;
            a.start == a.end || b.start == b.end || a == b || a.end < b.start || b.end < a.start
        }
}

proof fn lemma_named_is_declared(members: Seq<ClassMemberDefinition>, range: TextRange)
    requires
        range.start < range.end,
        forall|i: int|
            0 <= i < members.len() ==> {
                let name = (#[trigger] members[i]).name_range;
                name.start == name.end || name == range || name.end < range.start || range.end
                    < name.start
            },
    ensures
        named_at(members, range.start as int) == declared_at(members, range),
    decreases members.len(),
{
    if members.len() > 0 {
        let rest = members.drop_last();
        let last = members[members.len() - 1];
        assert(last == members.last());
        assert forall|i: int| 0 <= i < rest.len() implies {
            let name = (#[trigger] rest[i]).name_range;
            name.start == name.end || name == range || name.end < range.start || range.end
                < name.start
        } by {
            assert(rest[i] == members[i]);
        }
        lemma_named_is_declared(rest, range);
        assert(is_named_at(last, range.start as int) == (last.name_range == range));
    }
}

proof fn lemma_answer_at(members: Seq<ClassMemberDefinition>, i: int)
    requires
        are_names_apart(members),
        0 <= i < members.len(),
        members[i].name_range.start != members[i].name_range.end,
    ensures
        super_members_at(members, members[i].name_range.start as int) == Some(
            overriding(declared_at(members, members[i].name_range)).super_members,
        ),
        declared_at(members, members[i].name_range).len() > 0,
{
    let range = members[i].name_range;
    assert forall|k: int| 0 <= k < members.len() implies {
        let name = (#[trigger] members[k]).name_range;
        name.start == name.end || name == range || name.end < range.start || range.end
            < name.start
    } by {
        assert(members[k] == members[k] && members[i].name_range == range);
    }
    lemma_named_is_declared(members, range);
    lemma_declared_somewhere(members, i);
}

proof fn lemma_declared_somewhere(members: Seq<ClassMemberDefinition>, i: int)
    requires
        0 <= i < members.len(),
    ensures
        declared_at(members, members[i].name_range).len() > 0,
    decreases members.len(),
{
    if i < members.len() - 1 {
        assert(members.drop_last()[i] == members[i]);
        lemma_declared_somewhere(members.drop_last(), i);
    }
}

/// what a document lists for a member is what is answered on the member's name
pub proof fn law_listing_is_what_is_answered(members: Seq<ClassMemberDefinition>, k: int)
    requires
        is_in_source_order(members),
        are_names_apart(members),
        0 <= k < listed(members).len(),
    ensures
        super_members_at(members, listed(members)[k].name_range.start as int) == Some(
            listed(members)[k].super_members,
        ),
{
    let i = law_listing_is_of_members(members, k);
    let declared = declared_at(members, members[i].name_range);
    law_listed_members_override(members, k);
    lemma_answer_at(members, i);
    assert(listed_as(declared)[0] == listed(members)[k]);
}

/// every member that is no constructor, and for which an override is answered on
/// its name, is listed with that answer
pub proof fn law_what_is_answered_is_listed(members: Seq<ClassMemberDefinition>, i: int)
    requires
        is_in_source_order(members),
        are_names_apart(members),
        0 <= i < members.len(),
        members[i].name_range.start != members[i].name_range.end,
        !is_constructor_like(declared_at(members, members[i].name_range)[0].name@),
        super_members_at(members, members[i].name_range.start as int) matches Some(answer)
            && answer.len() > 0,
    ensures
        exists|k: int|
            0 <= k < listed(members).len() && (#[trigger] listed(members)[k]).name_range
                == members[i].name_range && super_members_at(
                members,
                members[i].name_range.start as int,
            ) == Some(listed(members)[k].super_members),
{
    let range = members[i].name_range;
    let declared = declared_at(members, range);
    lemma_answer_at(members, i);
    lemma_declared_is_there(members, range, 0);
    assert(listed_at(members, range) =~= seq![overriding(declared)]);
    law_listing_is_complete(members, i);
    let k = listed(members).index_of(overriding(declared));
    assert(listed(members)[k] == overriding(declared));
}

proof fn lemma_declared_is_there(members: Seq<ClassMemberDefinition>, range: TextRange, k: int)
    requires
        0 <= k < declared_at(members, range).len(),
    ensures
        declared_at(members, range)[k].name_range == range,
    decreases members.len(),
{
    let before = declared_at(members.drop_last(), range);
    if k < before.len() {
        lemma_declared_is_there(members.drop_last(), range, k);
    }
}

/// whether a definition among the first `upto` of `members` that is named at
/// `offset` overrides something of `superclass`
pub open spec fn is_overridden_before(
    members: Seq<ClassMemberDefinition>,
    upto: int,
    offset: int,
    superclass: u32,
) -> bool {
    exists|i: int|
        0 <= i < upto && (#[trigger] members[i]).name_range.start <= offset
            <= members[i].name_range.end && has_superclass(members[i].overridden@, superclass)
}

proof fn lemma_merged_keeps(found: Seq<OverriddenMember>, members: Seq<OverriddenMember>)
    ensures
        forall|member: OverriddenMember|
            found.contains(member) ==> #[trigger] merged(found, members).contains(member),
        forall|superclass: u32| #[trigger]
            has_superclass(merged(found, members), superclass) ==> has_superclass(found, superclass)
                || has_superclass(members, superclass),
    decreases members.len(),
{
    let all = merged(found, members);
    if members.len() > 0 {
        let before = merged(found, members.drop_last());
        lemma_merged_keeps(found, members.drop_last());
        assert forall|member: OverriddenMember| found.contains(member) implies #[trigger] all.contains(
            member,
        ) by {
            assert(before.contains(member));
            let k = before.index_of(member);
            assert(all[k] == member);
        }
        assert forall|superclass: u32| #[trigger] has_superclass(all, superclass) implies has_superclass(
            found,
            superclass,
        ) || has_superclass(members, superclass) by {
            let i = choose|i: int| 0 <= i < all.len() && (#[trigger] all[i]).superclass == superclass;
            if i < before.len() {
                assert(before[i] == all[i]);
                assert(has_superclass(before, superclass));
                if has_superclass(members.drop_last(), superclass) {
                    let j = choose|j: int|
                        0 <= j < members.drop_last().len() && (
                        #[trigger] members.drop_last()[j]).superclass == superclass;
                    assert(members[j] == members.drop_last()[j]);
                }
            } else {
                assert(members[members.len() - 1] == members.last());
            }
        }
    }
}

proof fn lemma_merged_takes(found: Seq<OverriddenMember>, members: Seq<OverriddenMember>, j: int)
    requires
        0 <= j < members.len(),
        !has_superclass(found, members[j].superclass),
        forall|k: int| 0 <= k < j ==> (#[trigger] members[k]).superclass != members[j].superclass,
    ensures
        merged(found, members).contains(members[j]),
    decreases members.len(),
{
    let all = merged(found, members);
    let before = merged(found, members.drop_last());
    if j < members.len() - 1 {
        assert(members.drop_last()[j] == members[j]);
        assert forall|k: int| 0 <= k < j implies (#[trigger] members.drop_last()[k]).superclass
            != members[j].superclass by {
            assert(members.drop_last()[k] == members[k]);
        }
        lemma_merged_takes(found, members.drop_last(), j);
        let k = before.index_of(members[j]);
        assert(all[k] == members[j]);
    } else {
        lemma_merged_keeps(found, members.drop_last());
        if has_superclass(before, members[j].superclass) {
            let k = choose|k: int|
                0 <= k < members.drop_last().len() && (#[trigger] members.drop_last()[k]).superclass
                    == members[j].superclass;
            assert(members[k] == members.drop_last()[k]);
        }
        assert(all[all.len() - 1] == members[j]);
    }
}

proof fn lemma_none_before(members: Seq<ClassMemberDefinition>, offset: int, superclass: u32)
    requires
        !is_overridden_before(members, members.len() as int, offset, superclass),
    ensures
        !has_superclass(overridden_by(named_at(members, offset)), superclass),
    decreases members.len(),
{
    if members.len() > 0 {
        let before = members.drop_last();
        let last = members.last();
        assert(members[members.len() - 1] == last);
        assert(!is_overridden_before(before, before.len() as int, offset, superclass)) by {
            assert forall|i: int| 0 <= i < before.len() implies !((
            #[trigger] before[i]).name_range.start <= offset <= before[i].name_range.end
                && has_superclass(before[i].overridden@, superclass)) by {
                assert(before[i] == members[i]);
            }
        }
        lemma_none_before(before, offset, superclass);
        if is_named_at(last, offset) {
            let all = named_at(members, offset);
            assert(all.drop_last() =~= named_at(before, offset));
            lemma_merged_keeps(overridden_by(named_at(before, offset)), last.overridden@);
        }
    }
}

proof fn lemma_is_answered(members: Seq<ClassMemberDefinition>, offset: int, i: int, j: int)
    requires
        0 <= i < members.len(),
        is_named_at(members[i], offset),
        0 <= j < members[i].overridden@.len(),
        !is_overridden_before(members, i, offset, members[i].overridden@[j].superclass),
        forall|k: int|
            0 <= k < j ==> (#[trigger] members[i].overridden@[k]).superclass
                != members[i].overridden@[j].superclass,
    ensures
        named_at(members, offset).len() > 0,
        overridden_by(named_at(members, offset)).contains(members[i].overridden@[j]),
    decreases members.len(),
{
    let before = members.drop_last();
    let last = members.last();
    let all = named_at(members, offset);
    if is_named_at(last, offset) {
        assert(all.drop_last() =~= named_at(before, offset));
    }
    if i < members.len() - 1 {
        assert(before[i] == members[i]);
        assert forall|k: int| 0 <= k < i implies !((#[trigger] before[k]).name_range.start <= offset
            <= before[k].name_range.end && has_superclass(
            before[k].overridden@,
            members[i].overridden@[j].superclass,
        )) by {
            assert(before[k] == members[k]);
        }
        lemma_is_answered(before, offset, i, j);
        if is_named_at(last, offset) {
            lemma_merged_keeps(overridden_by(named_at(before, offset)), last.overridden@);
        }
    } else {
        assert forall|k: int| 0 <= k < before.len() implies !((
        #[trigger] before[k]).name_range.start <= offset <= before[k].name_range.end
            && has_superclass(before[k].overridden@, members[i].overridden@[j].superclass)) by {
            assert(before[k] == members[k]);
        }
        lemma_none_before(before, offset, members[i].overridden@[j].superclass);
        lemma_merged_takes(overridden_by(named_at(before, offset)), last.overridden@, j);
    }
}

proof fn lemma_target_each(name: Seq<char>, overridden: Seq<OverriddenMember>, i: int) -> (k: int)
    requires
        0 <= i < overridden.len(),
        target_of(overridden[i]) is Some,
    ensures
        0 <= k < targets_of(name, overridden).len(),
        targets_of(name, overridden)[k] == (SuperMemberModel {
            name,
            superclass: overridden[i].superclass_name@,
            target: target_of(overridden[i])->0,
            synthesized: overridden[i].synthesized,
            is_abstract: overridden[i].is_abstract,
        }),
    decreases overridden.len(),
{
    if i < overridden.len() - 1 {
        assert(overridden.drop_last()[i] == overridden[i]);
        lemma_target_each(name, overridden.drop_last(), i)
    } else {
        targets_of(name, overridden).len() - 1
    }
}

/// everything a member overrides is answered on its name, anywhere from where
/// the name starts to where it ends: each superclass whose member is declared
/// somewhere, or that is itself, with the first place there is to go to
pub proof fn law_everything_overridden_is_answered(
    members: Seq<ClassMemberDefinition>,
    offset: int,
    i: int,
    j: int,
) -> (k: int)
    requires
        0 <= i < members.len(),
        members[i].name_range.start < members[i].name_range.end,
        members[i].name_range.start <= offset <= members[i].name_range.end,
        0 <= j < members[i].overridden@.len(),
        members[i].overridden@[j].declarations@.len() > 0
            || members[i].overridden@[j].class_declarations@.len() > 0,
        !is_overridden_before(members, i, offset, members[i].overridden@[j].superclass),
        forall|k: int|
            0 <= k < j ==> (#[trigger] members[i].overridden@[k]).superclass
                != members[i].overridden@[j].superclass,
    ensures
        super_members_at(members, offset) matches Some(answers) && 0 <= k < answers.len() && ({
            let member = members[i].overridden@[j];
            let answer = answers[k];
            &&& answer.superclass == member.superclass_name@
            &&& answer.synthesized == member.synthesized
            &&& answer.is_abstract == member.is_abstract
            &&& answer.target == if member.declarations@.len() > 0 {
                member.declarations@[0]
            } else {
                member.class_declarations@[0]
            }
        }),
{
    lemma_is_answered(members, offset, i, j);
    let declared = named_at(members, offset);
    let overridden = overridden_by(declared);
    let at = overridden.index_of(members[i].overridden@[j]);
    lemma_target_each(declared[0].name@, overridden, at)
}

} // verus!
