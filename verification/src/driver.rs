//! The binary driver: a pure decision table for content that is not
//! line-mergeable.
//!
//! No bytes are moved here; the caller copies the chosen side's content.
//! A union preference is not well-defined for non-line content, so the
//! preference type deliberately has no such variant: the choice is an
//! explicit policy of the caller.

use vstd::prelude::*;
use crate::render::Resolution;

verus! {

/// The side chosen for unmergeable content.
#[derive(Clone, Copy, PartialEq, Eq, Structural, Debug)]
pub enum Pick {
    Ours,
    Theirs,
    Ancestor,
}

/// Maps an optional resolution preference to a chosen side and a
/// resolution status: without a preference, ours is picked and the merge
/// counts as a conflict; any explicit preference picks that side and the
/// merge is complete.
pub fn binary_merge(preference: Option<Pick>) -> (r: (Pick, Resolution))
    ensures
        preference is None ==> r == (Pick::Ours, Resolution::Conflict),
        preference == Some(Pick::Ancestor) ==> r == (Pick::Ancestor, Resolution::Complete),
        preference == Some(Pick::Ours) ==> r == (Pick::Ours, Resolution::Complete),
        preference == Some(Pick::Theirs) ==> r == (Pick::Theirs, Resolution::Complete),
{
    match preference {
        Option::None => (Pick::Ours, Resolution::Conflict),
        Option::Some(p) => (p, Resolution::Complete),
    }
}

} // verus!
