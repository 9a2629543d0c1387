//! A handle to a view node that exists only once the view is mounted.

use crate::error::ReactiveError;
use vstd::prelude::*;

verus! {

/// A handle that is bound to one view node when the view is attached, and
/// cannot be read before.
pub struct NodeRef {
    node: Option<u64>,
}

impl View for NodeRef {
    type V = Option<u64>;

    closed spec fn view(&self) -> Option<u64> {
        self.node
    }
}

impl NodeRef {
    /// A handle that is bound to nothing yet.
    pub fn new() -> (handle: Self)
        ensures
            handle@ is None,
    {
        NodeRef { node: None }
    }

    /// Binds the handle to `node`, and says whether it did: a handle is bound
    /// once, and one that is bound already stays as it is.
    pub fn attach(&mut self, node: u64) -> (bound: bool)
        ensures
            bound == (old(self)@ is None),
            final(self)@ == if bound {
                Some(node)
            } else {
                old(self)@
            },
    {
        match self.node {
            Some(_) => false,
            None => {
                self.node = Some(node);
                true
            },
        }
    }

    /// Whether the handle is bound to a view node.
    pub fn is_mounted(&self) -> (mounted: bool)
        ensures
            mounted == (self@ is Some),
    {
        self.node.is_some()
    }

    /// The view node that the handle is bound to. Fails with `NotMounted`
    /// where it is bound to none yet.
    pub fn get(&self) -> (node: Result<u64, ReactiveError>)
        ensures
            node == match self@ {
                Some(bound) => Ok::<u64, ReactiveError>(bound),
                None => Err::<u64, ReactiveError>(ReactiveError::NotMounted),
            },
    {
        match self.node {
            Some(bound) => Ok(bound),
            None => Err(ReactiveError::NotMounted),
        }
    }
}

} // verus!
