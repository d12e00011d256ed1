//! The event envelope that carries a payload from node to node.

use vstd::prelude::*;
use crate::node::Node;

verus! {

/// The kinds of event that handlers register for.
#[derive(Clone, Copy, Debug, PartialEq, Eq, Hash, Structural)]
pub enum EventKind {
    /// Starts the execution of a node's actions.
    Run,
    /// Reports that a node's execution has ended.
    RunResult,
    /// Pre-empts a running node.
    Interrupt,
    /// Asks a node for its score.
    ScoreRequest,
    /// A log message for the debug observer.
    Log,
}

/// The payload of the event that starts a run.
#[derive(Clone, Copy, Debug, PartialEq, Eq, Hash, Structural)]
pub struct Run;

/// The payload of the event that pre-empts a run.
#[derive(Clone, Copy, Debug, PartialEq, Eq, Hash, Structural)]
pub struct Interrupt;

/// An event on its way through the tree.
#[derive(Debug, PartialEq, Eq, Hash)]
pub struct On<P> {
    pub payload: P,
    /// The node where the chain began; the same on every hop.
    pub origin: Node,
    /// The node that receives this hop.
    pub action: Node,
    /// The node this hop was forwarded from; the placeholder on the first hop.
    pub prev_action: Node,
}

impl<P: Copy> Copy for On<P> {

}

impl<P: Copy> Clone for On<P> {
    fn clone(&self) -> (ev: On<P>)
        ensures
            ev == *self,
    {
        *self
    }
}

impl<P: Copy> On<P> {
    pub open spec fn spec_new(payload: P, node: Node) -> On<P> {
        On { payload, origin: node, action: node, prev_action: Node::spec_placeholder() }
    }

    /// The first link of a chain that begins at `node`.
    #[verifier::when_used_as_spec(spec_new)]
    pub fn new(payload: P, node: Node) -> (ev: On<P>)
        ensures
            ev == On::spec_new(payload, node),
    {
        On { payload, origin: node, action: node, prev_action: Node::placeholder() }
    }

    pub open spec fn spec_forwarded(self, to: Node) -> On<P> {
        On { payload: self.payload, origin: self.origin, action: to, prev_action: self.action }
    }

    /// The next link of the chain, received by `to`.
    #[verifier::when_used_as_spec(spec_forwarded)]
    pub fn forwarded(self, to: Node) -> (ev: On<P>)
        ensures
            ev == self.spec_forwarded(to),
    {
        On { payload: self.payload, origin: self.origin, action: to, prev_action: self.action }
    }

    /// Whether this is the first link of its chain.
    pub fn is_first_hop(&self) -> (b: bool)
        ensures
            b == (self.prev_action == Node::spec_placeholder()),
    {
        self.prev_action.is_placeholder()
    }
}

} // verus!
