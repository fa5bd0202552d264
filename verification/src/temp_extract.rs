use vstd::prelude::*;

use crate::text::in_listing;

verus! {

/// What to do with a filled staging directory.
#[derive(Clone, Copy, PartialEq, Eq, Structural, Debug)]
pub enum StagingDisposition {
    /// Move the staged entries up into the archive's directory.
    MergeIntoParent,
    /// Leave the staging directory in place as a labelled folder.
    KeepDirectory,
}

/// The policy after a successful extraction: merge only when no directory
/// was asked for and the staged output is empty or a single entry; anything
/// larger stays a visible folder rather than risk burying the parent in
/// files.
pub fn staging_disposition(always_dir: bool, entry_count: usize) -> (r: StagingDisposition)
    ensures
        r == if !always_dir && entry_count <= 1 {
            StagingDisposition::MergeIntoParent
        } else {
            StagingDisposition::KeepDirectory
        },
{
    if !always_dir && entry_count <= 1 {
        StagingDisposition::MergeIntoParent
    } else {
        StagingDisposition::KeepDirectory
    }
}

/// The first pass of the merge: a move is allowed only when no staged entry's
/// name already occurs in the target directory.  When this returns false the
/// merge is abandoned with nothing moved.
pub fn can_move_from_tempdir(staged: &Vec<String>, target: &Vec<String>) -> (r: bool)
    ensures
        r == forall|i: int| 0 <= i < staged@.len() ==> !in_listing(target@, #[trigger] staged@[i]@),
{
    let mut i: usize = 0;
    while i < staged.len()
        invariant
            i <= staged@.len(),
            forall|k: int| 0 <= k < i ==> !in_listing(target@, #[trigger] staged@[k]@),
        decreases staged@.len() - i,
    {
        if crate::text::listing_contains(target, &staged[i]) {
            return false;
        }
        i = i + 1;
    }
    true
}

} // verus!
