//! The conditions under which an operation of the reactive core fails.

use vstd::prelude::*;

verus! {

/// Why an operation was refused.
#[derive(Clone, Copy, Debug, PartialEq, Eq, Structural)]
pub enum ReactiveError {
    /// A handle was used whose node or scope is not alive.
    UseAfterDispose,
    /// Two items handed to the reconciler share a key.
    DuplicateKey,
    /// A node handle was read before it was bound to a view node.
    NotMounted,
}

impl ReactiveError {
    /// What the error says of itself.
    pub open spec fn text(self) -> Seq<char> {
        match self {
            ReactiveError::UseAfterDispose => "use of a handle after its scope was disposed"@,
            ReactiveError::DuplicateKey => "two items of one keyed list share a key"@,
            ReactiveError::NotMounted => "the node handle is not bound to a view node yet"@,
        }
    }

    /// A description of the error for the user.
    pub fn message(&self) -> (text: &'static str)
        ensures
            text@ == self.text(),
    {
        match self {
            ReactiveError::UseAfterDispose => "use of a handle after its scope was disposed",
            ReactiveError::DuplicateKey => "two items of one keyed list share a key",
            ReactiveError::NotMounted => "the node handle is not bound to a view node yet",
        }
    }
}

} // verus!
