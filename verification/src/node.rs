//! Node identifiers and the outcome of a run.

use vstd::prelude::*;

verus! {

/// An opaque, stable identifier of a node: its slot in the tree's arena.
#[derive(Clone, Copy, Debug, PartialEq, Eq, Hash, Structural)]
pub struct Node(pub usize);

impl Node {
    /// The sentinel that stands for "no node": it fills `prev_action` on the
    /// first hop of a chain and never names a slot of a tree.
    pub open spec fn spec_placeholder() -> Node {
        Node(usize::MAX)
    }

    #[verifier::when_used_as_spec(spec_placeholder)]
    pub fn placeholder() -> (n: Node)
        ensures
            n == Node::spec_placeholder(),
    {
        Node(usize::MAX)
    }

    /// The slot this identifier names.
    pub fn index(self) -> (i: usize)
        ensures
            i == self.0,
    {
        self.0
    }

    pub fn is_placeholder(self) -> (b: bool)
        ensures
            b == (self == Node::spec_placeholder()),
    {
        self.0 == usize::MAX
    }
}

/// The terminal outcome of a run. "Still running" is the absence of any
/// result, not a value.
#[derive(Clone, Copy, Debug, PartialEq, Eq, Hash, Structural)]
pub enum RunResult {
    Success,
    Failure,
}

impl RunResult {
    /// The other outcome.
    pub open spec fn spec_flip(self) -> RunResult {
        match self {
            RunResult::Success => RunResult::Failure,
            RunResult::Failure => RunResult::Success,
        }
    }

    #[verifier::when_used_as_spec(spec_flip)]
    pub fn flip(self) -> (r: RunResult)
        ensures
            r == self.spec_flip(),
    {
        match self {
            RunResult::Success => RunResult::Failure,
            RunResult::Failure => RunResult::Success,
        }
    }
}

} // verus!
