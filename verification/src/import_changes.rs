//! Authority-set changes carried by an imported block: whether the block
//! needs a justification, and the guard that restores the authorities when
//! a change is abandoned.

use vstd::prelude::*;

verus! {

/// The authority-set change a block applies.
pub enum AppliedChanges {
    /// A standard change; `true` if it is ready to be applied.
    Standard(bool),
    /// A forced change to this set.
    Forced(Vec<u64>),
    NoChange,
}

impl AppliedChanges {
    /// Standard changes need a justification; forced ones and none do not.
    pub fn needs_justification(&self) -> (r: bool)
        ensures
            r == (*self is Standard),
    {
        match self {
            AppliedChanges::Standard(_) => true,
            AppliedChanges::Forced(_) | AppliedChanges::NoChange => false,
        }
    }
}

/// A pending change: the authorities before it, kept to restore them if the
/// change is abandoned, the change itself, and whether voting pauses.
pub struct PendingSetChanges {
    pub just_in_case: Option<Vec<u64>>,
    pub applied_changes: AppliedChanges,
    pub do_pause: bool,
}

impl PendingSetChanges {
    /// Abandons the change: the authorities go back to what they were.
    pub fn revert(self, authorities: &mut Vec<u64>)
        ensures
            match self.just_in_case {
                Some(old_set) => final(authorities)@ == old_set@,
                None => final(authorities)@ == old(authorities)@,
            },
    {
        match self.just_in_case {
            Some(old_set) => {
                *authorities = old_set;
            },
            None => {},
        }
    }

    /// Commits the change: the authorities stay as they are, and the change
    /// and the pause flag are handed out.
    pub fn defuse(self) -> (r: (AppliedChanges, bool))
        ensures
            r == (self.applied_changes, self.do_pause),
    {
        (self.applied_changes, self.do_pause)
    }
}

} // verus!
