//! Sets of names and of identifiers of nodes and definitions, hashed with rustc's hasher.

use rustc_hash::{FxBuildHasher, FxHashSet};
use vstd::prelude::*;

verus! {

/// The hasher the sets are built with.
#[verifier::external_type_specification]
#[verifier::external_body]
pub struct ExFxBuildHasher(FxBuildHasher);

/// The names a set holds.
pub uninterp spec fn names_of(set: FxHashSet<String>) -> Set<Seq<char>>;

/// Whether `names` are `count` names.
pub open spec fn counts(names: Set<Seq<char>>, count: nat) -> bool {
    names.finite() && names.len() == count
}

/// The numbers a set holds.
pub uninterp spec fn ids_of(set: FxHashSet<u32>) -> Set<u32>;

/// `FxHashSet::default` of rustc_hash: a set of no names.
#[verifier::external_body]
pub(crate) fn no_names() -> (set: FxHashSet<String>)
    ensures
        names_of(set) == Set::<Seq<char>>::empty(),
{
    FxHashSet::default()
}

/// `FxHashSet::insert` of rustc_hash: adds `name`, or leaves the set as it is when it holds one
/// of the same text.
#[verifier::external_body]
pub(crate) fn insert_name(set: &mut FxHashSet<String>, name: String)
    ensures
        names_of(*final(set)) == names_of(*old(set)).insert(name@),
{
    set.insert(name);
}

/// `FxHashSet::contains` of rustc_hash: whether the set holds a name of the text `name`.
#[verifier::external_body]
pub(crate) fn contains_name(set: &FxHashSet<String>, name: &str) -> (contains: bool)
    ensures
        contains == names_of(*set).contains(name@),
{
    set.contains(name)
}

/// `FxHashSet::len` of rustc_hash: how many names the set holds.
#[verifier::external_body]
pub(crate) fn count_names(set: &FxHashSet<String>) -> (count: usize)
    ensures
        counts(names_of(*set), count as nat),
{
    set.len()
}

/// `FxHashSet::default` of rustc_hash: a set of no numbers.
#[verifier::external_body]
pub(crate) fn no_ids() -> (set: FxHashSet<u32>)
    ensures
        ids_of(set) == Set::<u32>::empty(),
{
    FxHashSet::default()
}

/// `FxHashSet::insert` of rustc_hash: adds `id`, and says whether the set lacked it.
#[verifier::external_body]
pub(crate) fn insert_id(set: &mut FxHashSet<u32>, id: u32) -> (added: bool)
    ensures
        ids_of(*final(set)) == ids_of(*old(set)).insert(id),
        added == !ids_of(*old(set)).contains(id),
{
    set.insert(id)
}

} // verus!
