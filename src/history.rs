use vstd::prelude::*;

use crate::sequence::Sequence;

verus! {

/// Turns the history that a user attached to a sequence into the history
/// stored on the rules derived from it.
pub trait RewriteSequence<R>: Sized {
    /// The history made for the rules of `top`.
    spec fn spec_sequence(&self, top: Sequence<Self>) -> R;

    fn sequence(&self, top: &Sequence<Self>) -> (r: R)
        ensures
            r == self.spec_sequence(*top),
    ;
}

/// A history that can produce the history of rules that only give structure.
pub trait Action: Sized {
    /// The history of the structural rules made below this one.
    spec fn spec_no_op(&self) -> Self;

    fn no_op(&self) -> (r: Self)
        ensures
            r == self.spec_no_op(),
    ;
}

/// A history that carries nothing.
#[derive(Clone, Copy, Debug, PartialEq, Eq, Structural)]
pub struct NullHistory;

impl RewriteSequence<NullHistory> for NullHistory {
    open spec fn spec_sequence(&self, top: Sequence<NullHistory>) -> NullHistory {
        NullHistory
    }

    fn sequence(&self, top: &Sequence<NullHistory>) -> (r: NullHistory) {
        NullHistory
    }
}

impl Action for NullHistory {
    open spec fn spec_no_op(&self) -> NullHistory {
        NullHistory
    }

    fn no_op(&self) -> (r: NullHistory) {
        NullHistory
    }
}

} // verus!
