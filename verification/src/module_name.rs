//! The names of modules: `alpha.util`.

use crate::edit::text_in;
use crate::refactor::names::is_python_identifier;
use crate::strings::{before_dot, owned, same_text};
use vstd::prelude::*;

verus! {

/// Whether `text` names a module: identifiers with a dot between each two.
pub open spec fn is_module_name(text: Seq<char>) -> bool
    decreases text.len(),
{
    let first = before_dot(text);
    if first.len() >= text.len() {
        is_python_identifier(text)
    } else {
        is_python_identifier(first) && is_module_name(text.skip(first.len() as int + 1))
    }
}

/// The name of `rest` inside the module `name`.
pub open spec fn extended(name: Seq<char>, rest: Seq<char>) -> Seq<char> {
    name + seq!['.'] + rest
}

/// What follows `parent` and its dot in `name`, when `name` is inside `parent`.
pub open spec fn relative_part(name: Seq<char>, parent: Seq<char>) -> Option<Seq<char>> {
    if name.len() > parent.len() && name.take(parent.len() as int) == parent
        && name[parent.len() as int] == '.' {
        Some(name.skip(parent.len() as int + 1))
    } else {
        None
    }
}

/// Where the last dot of `text` is; one before its start when it has none.
pub open spec fn last_dot(text: Seq<char>) -> int
    decreases text.len(),
{
    if text.len() == 0 {
        -1
    } else if text.last() == '.' {
        text.len() - 1
    } else {
        last_dot(text.drop_last())
    }
}

/// What `text` holds before its last dot, when it has one.
pub open spec fn parent_part(text: Seq<char>) -> Option<Seq<char>> {
    if last_dot(text) < 0 {
        None
    } else {
        Some(text.take(last_dot(text)))
    }
}

/// What `text` holds after its last dot.
pub open spec fn last_part(text: Seq<char>) -> Seq<char> {
    text.skip(last_dot(text) + 1)
}

pub proof fn lemma_parent_is_shorter(text: Seq<char>)
    ensures
        parent_part(text) matches Some(parent) ==> parent.len() < text.len(),
{
    lemma_last_dot(text);
}

/// What stands before a dot of a name is its parent, or before a dot of that.
pub proof fn lemma_parent_of_extended(prefix: Seq<char>, rest: Seq<char>)
    ensures
        parent_part(extended(prefix, rest)) matches Some(parent) && (parent == prefix || exists|
            shorter: Seq<char>,
        | parent == #[trigger] extended(prefix, shorter)),
{
    let whole = extended(prefix, rest);
    lemma_last_dot(whole);
    assert(whole[prefix.len() as int] == '.');
    let at = last_dot(whole);
    if at == prefix.len() {
        assert(whole.take(at) =~= prefix);
    } else {
        let shorter = rest.take(at - prefix.len() - 1);
        assert(whole.take(at) =~= extended(prefix, shorter));
    }
}

proof fn lemma_before_dot(text: Seq<char>)
    ensures
        before_dot(text).len() <= text.len(),
        before_dot(text) == text.take(before_dot(text).len() as int),
        before_dot(text).len() < text.len() ==> text[before_dot(text).len() as int] == '.',
    decreases text.len(),
{
    if text.len() > 0 && text[0] != '.' {
        let rest = text.skip(1);
        lemma_before_dot(rest);
        let length = before_dot(text).len() as int;
        assert(before_dot(text) =~= text.take(length)) by {
            assert forall|i: int| 0 <= i < length implies before_dot(text)[i] == text[i] by {
                if i > 0 {
                    assert(before_dot(rest)[i - 1] == rest[i - 1]);
                }
            }
        }
        if length < text.len() {
            assert(rest[length - 1] == text[length]);
        }
    } else {
        assert(before_dot(text) =~= text.take(0));
    }
}

/// What stands before the first dot does not depend on what follows it.
proof fn lemma_before_dot_extended(name: Seq<char>, rest: Seq<char>)
    ensures
        before_dot(extended(name, rest)) == before_dot(name),
    decreases name.len(),
{
    let whole = extended(name, rest);
    if name.len() > 0 && name[0] != '.' {
        assert(whole.skip(1) =~= extended(name.skip(1), rest));
        lemma_before_dot_extended(name.skip(1), rest);
        assert(whole[0] == name[0]);
    } else if name.len() > 0 {
        assert(whole[0] == name[0]);
    } else {
        assert(whole[0] == '.');
    }
}

/// A name put together of two texts with a dot between them is one exactly when both are.
pub proof fn lemma_extended_name(name: Seq<char>, rest: Seq<char>)
    ensures
        is_module_name(extended(name, rest)) == (is_module_name(name) && is_module_name(rest)),
    decreases name.len(),
{
    let whole = extended(name, rest);
    lemma_before_dot_extended(name, rest);
    lemma_before_dot(name);
    let first = before_dot(name);
    if first.len() >= name.len() {
        assert(first =~= name);
        assert(whole.skip(first.len() as int + 1) =~= rest);
    } else {
        let tail = name.skip(first.len() as int + 1);
        assert(whole.skip(first.len() as int + 1) =~= extended(tail, rest));
        lemma_extended_name(tail, rest);
    }
}

proof fn lemma_last_dot(text: Seq<char>)
    ensures
        -1 <= last_dot(text) < text.len(),
        last_dot(text) >= 0 ==> text[last_dot(text)] == '.',
        forall|i: int| last_dot(text) < i < text.len() ==> #[trigger] text[i] != '.',
    decreases text.len(),
{
    if text.len() > 0 && text.last() != '.' {
        let rest = text.drop_last();
        lemma_last_dot(rest);
        assert forall|i: int| last_dot(text) < i < text.len() implies #[trigger] text[i]
            != '.' by {
            if i < rest.len() {
                assert(rest[i] == text[i]);
            }
        }
        if last_dot(text) >= 0 {
            assert(rest[last_dot(text)] == text[last_dot(text)]);
        }
    }
}

/// The last component of a name has no dot.
pub proof fn lemma_last_part(text: Seq<char>)
    ensures
        !last_part(text).contains('.'),
{
    lemma_last_dot(text);
    let last = last_part(text);
    assert forall|i: int| 0 <= i < last.len() implies last[i] != '.' by {
        assert(last[i] == text[last_dot(text) + 1 + i]);
    }
}

/// What follows a dot, and has none, is the last component.
pub proof fn lemma_last_part_of(parent: Seq<char>, last: Seq<char>)
    requires
        !last.contains('.'),
    ensures
        parent_part(extended(parent, last)) == Some(parent),
        last_part(extended(parent, last)) == last,
{
    let text = extended(parent, last);
    lemma_last_dot(text);
    assert(text[parent.len() as int] == '.');
    let at = last_dot(text);
    if at > parent.len() {
        assert(text[at] == last[at - parent.len() - 1]);
        assert(last.contains('.'));
    }
    assert(text.take(at) =~= parent);
    assert(last_part(text) =~= last);
}

/// A name is its parent extended by its last component.
pub proof fn lemma_parent_extended(text: Seq<char>)
    ensures
        parent_part(text) matches Some(parent) ==> text == extended(parent, last_part(text)),
        parent_part(text) is None ==> last_part(text) == text,
{
    lemma_last_dot(text);
    match parent_part(text) {
        Some(parent) => {
            assert(text =~= extended(parent, last_part(text)));
        },
        None => {
            assert(last_part(text) =~= text);
        },
    }
}

/// `ModuleName::new` of ty_module_resolver: makes a name of exactly the texts that are python
/// identifiers with a single dot between each two.
#[verifier::external_body]
fn is_valid(text: &str) -> (valid: bool)
    ensures
        valid == is_module_name(text@),
{
    ty_module_resolver::ModuleName::new(text).is_some()
}

/// `ModuleName::relative_to` of ty_module_resolver: what follows `parent` and a dot in `name`,
/// or nothing when `name` does not start so.
#[verifier::external_body]
fn relative_text(name: &str, parent: &str) -> (rest: Option<String>)
    requires
        is_module_name(name@),
        is_module_name(parent@),
    ensures
        text_in(rest) == relative_part(name@, parent@),
{
    let name = ty_module_resolver::ModuleName::new(name)?;
    let parent = ty_module_resolver::ModuleName::new(parent)?;
    Some(name.relative_to(&parent)?.as_str().to_string())
}

/// `ModuleName::extend` of ty_module_resolver: appends a dot and `rest` to `name`.
#[verifier::external_body]
fn extended_text(name: &str, rest: &str) -> (whole: String)
    requires
        is_module_name(name@),
        is_module_name(rest@),
    ensures
        whole@ == extended(name@, rest@),
{
    let mut name = ty_module_resolver::ModuleName::new(name).unwrap();
    name.extend(&ty_module_resolver::ModuleName::new(rest).unwrap());
    name.as_str().to_string()
}

/// `ModuleName::parent` of ty_module_resolver: what stands before the last dot of `name`.
#[verifier::external_body]
fn parent_text(name: &str) -> (parent: Option<String>)
    requires
        is_module_name(name@),
    ensures
        text_in(parent) == parent_part(name@),
{
    Some(ty_module_resolver::ModuleName::new(name)?.parent()?.as_str().to_string())
}

/// `ModuleName::last_component` of ty_module_resolver: what stands after the last dot of `name`.
#[verifier::external_body]
fn last_text(name: &str) -> (last: String)
    requires
        is_module_name(name@),
    ensures
        last@ == last_part(name@),
{
    ty_module_resolver::ModuleName::new(name).unwrap().last_component().to_string()
}

/// The absolute name of a module.
#[derive(Debug)]
pub struct ModuleName {
    text: String,
}

impl View for ModuleName {
    type V = Seq<char>;

    closed spec fn view(&self) -> Seq<char> {
        self.text@
    }
}

/// The name in `found`, as a mathematical value.
pub open spec fn name_in(found: Option<ModuleName>) -> Option<Seq<char>> {
    match found {
        Some(name) => Some(name@),
        None => None,
    }
}

impl ModuleName {
    #[verifier::type_invariant]
    closed spec fn names_a_module(&self) -> bool {
        is_module_name(self@)
    }

    /// Creates a module name for `name`, when it is a valid, absolute one.
    pub fn new(name: &str) -> (found: Option<ModuleName>)
        ensures
            name_in(found) == if is_module_name(name@) {
                Some(name@)
            } else {
                None
            },
    {
        if is_valid(name) {
            Some(ModuleName { text: owned(name) })
        } else {
            None
        }
    }

    /// A name is always a valid one.
    pub fn as_str(&self) -> (text: &str)
        ensures
            text@ == self@,
            is_module_name(text@),
    {
        proof {
            use_type_invariant(self);
        }
        self.text.as_str()
    }

    /// The same name again.
    pub fn copy(&self) -> (name: ModuleName)
        ensures
            name@ == self@,
    {
        proof {
            use_type_invariant(self);
        }
        ModuleName { text: owned(self.text.as_str()) }
    }

    pub fn is(&self, other: &ModuleName) -> (same: bool)
        ensures
            same == (self@ == other@),
    {
        same_text(self.as_str(), other.as_str())
    }

    /// What of this name follows `parent`, when it is inside it.
    pub fn relative_to(&self, parent: &ModuleName) -> (rest: Option<ModuleName>)
        ensures
            name_in(rest) == relative_part(self@, parent@),
    {
        proof {
            use_type_invariant(self);
            use_type_invariant(parent);
        }
        match relative_text(self.as_str(), parent.as_str()) {
            Some(text) => {
                proof {
                    assert(self@ =~= extended(parent@, text@));
                    lemma_extended_name(parent@, text@);
                }
                Some(ModuleName { text })
            },
            None => None,
        }
    }

    /// The name of `rest` inside this module.
    pub fn extended_by(&self, rest: &ModuleName) -> (name: ModuleName)
        ensures
            name@ == extended(self@, rest@),
    {
        proof {
            use_type_invariant(self);
            use_type_invariant(rest);
            lemma_extended_name(self@, rest@);
        }
        let text = extended_text(self.as_str(), rest.as_str());
        ModuleName { text }
    }

    /// The name of this module's immediate parent, if it has a parent.
    pub fn parent(&self) -> (parent: Option<ModuleName>)
        ensures
            name_in(parent) == parent_part(self@),
    {
        proof {
            use_type_invariant(self);
            lemma_parent_extended(self@);
        }
        match parent_text(self.as_str()) {
            Some(text) => {
                proof {
                    lemma_extended_name(text@, last_part(self@));
                }
                Some(ModuleName { text })
            },
            None => None,
        }
    }

    /// The last component of this name.
    pub fn last_component(&self) -> (last: String)
        ensures
            last@ == last_part(self@),
    {
        proof {
            use_type_invariant(self);
        }
        last_text(self.as_str())
    }
}

} // verus!
