//! Places an editor can go to.

use crate::edit::File;
use crate::text_size::TextRange;
use vstd::prelude::*;

verus! {

/// A place an editor can go to.
#[derive(Debug, Clone, Copy, PartialEq, Eq, Structural)]
pub struct NavigationTarget {
    pub file: File,
    /// What is selected on arriving.
    pub focus_range: TextRange,
    /// The whole of what is gone to.
    pub full_range: TextRange,
}

/// The first of `targets`.
pub open spec fn first_target(targets: Seq<NavigationTarget>) -> Option<NavigationTarget> {
    if targets.len() > 0 {
        Some(targets[0])
    } else {
        None
    }
}

/// The first of `targets`.
pub fn first(targets: &Vec<NavigationTarget>) -> (target: Option<NavigationTarget>)
    ensures
        target == first_target(targets@),
{
    if targets.len() > 0 {
        Some(targets[0])
    } else {
        None
    }
}

} // verus!
