//! Bubbling: the hop-by-hop way of a response from a node to its ancestors.

use vstd::prelude::*;
use crate::event::On;
use crate::node::Node;
use crate::tree::Tree;

verus! {

/// Marker for a node that keeps the results of its subtree to itself. An
/// action that needs this has to report to its parent on its own.
#[derive(Clone, Copy, Debug, Default, PartialEq, Eq, Hash, Structural)]
pub struct NoBubble;

impl NoBubble {
    /// Puts the marker on `node`.
    pub fn insert(tree: &mut Tree, node: Node)
        requires
            old(tree).contains(node),
        ensures
            final(tree).same_shape(old(tree)),
            final(tree).records_of(node) == (crate::tree::Records {
                no_bubble: true,
                ..old(tree).records_of(node)
            }),
            forall|i: int|
                0 <= i < old(tree).nodes@.len() && i != node.0 ==> final(tree).nodes@[i] == old(
                    tree,
                ).nodes@[i],
    {
        let mut r = tree.records(node);
        r.no_bubble = true;
        tree.set_records(node, r);
    }

    /// Whether `node` carries the marker.
    pub fn is_on(tree: &Tree, node: Node) -> (b: bool)
        requires
            tree.contains(node),
        ensures
            b == tree.records_of(node).no_bubble,
    {
        tree.records(node).no_bubble
    }
}

/// Whether a response that `node` has received goes on: the node exists, has
/// not been despawned and carries no no-bubble marker.
pub open spec fn passes_on(tree: &Tree, node: Node) -> bool {
    &&& tree.contains(node)
    &&& tree.records_of(node).alive
    &&& !tree.records_of(node).no_bubble
}

/// The hop that follows `res`, if there is one: the same payload and origin,
/// received by the parent of the node that received `res`.
pub open spec fn next_hop<R: Copy>(tree: &Tree, res: On<R>) -> Option<On<R>> {
    if passes_on(tree, res.action) {
        match tree.parent_of(res.action) {
            Some(p) => if tree.contains(p) && tree.records_of(p).alive {
                Some(res.spec_forwarded(p))
            } else {
                None
            },
            None => None,
        }
    } else {
        None
    }
}

/// Every hop of the chain that starts with `res`, in the order of delivery.
pub open spec fn bubble_chain<R: Copy>(tree: &Tree, res: On<R>) -> Seq<On<R>>
    decreases res.action.0,
{
    match next_hop(tree, res) {
        Some(next) => if next.action.0 < res.action.0 {
            seq![res] + bubble_chain(tree, next)
        } else {
            seq![res]
        },
        None => seq![res],
    }
}

/// Passes a response on to the parent of the node that has just received it.
/// Returns the envelope for the parent, or `None` at a no-bubble boundary, at
/// the root, and where either node has disappeared.
pub fn propagate_response_to_parent_observers<R: Copy>(tree: &Tree, res: On<R>) -> (next: Option<
    On<R>,
>)
    ensures
        next == next_hop(tree, res),
{
    if !tree.has(res.action) {
        return None;
    }
    let r = tree.records(res.action);
    if !r.alive || r.no_bubble {
        return None;
    }
    match tree.parent(res.action) {
        Some(p) => {
            if tree.has(p) && tree.records(p).alive {
                Some(res.forwarded(p))
            } else {
                None
            }
        },
        None => None,
    }
}

impl<R: Copy> On<R> {
    /// Delivers this response to the node it is addressed to and lets it
    /// bubble from there. Returns every delivery, in order.
    pub fn trigger_bubble(&self, tree: &Tree) -> (hops: Vec<On<R>>)
        requires
            tree.wf(),
        ensures
            hops@ == bubble_chain(tree, *self),
    {
        let mut hops: Vec<On<R>> = Vec::new();
        let mut cur: On<R> = *self;
        loop
            invariant
                tree.wf(),
                bubble_chain(tree, *self) == hops@ + bubble_chain(tree, cur),
            decreases cur.action.0,
        {
            let next = propagate_response_to_parent_observers(tree, cur);
            hops.push(cur);
            match next {
                Some(n) => {
                    proof {
                        assert(tree.node_wf(cur.action.0 as int));
                        assert(bubble_chain(tree, cur) == seq![cur] + bubble_chain(tree, n));
                        assert(bubble_chain(tree, *self) =~= hops@ + bubble_chain(tree, n));
                    }
                    cur = n;
                },
                None => {
                    proof {
                        assert(bubble_chain(tree, cur) == seq![cur]);
                        assert(bubble_chain(tree, *self) =~= hops@);
                    }
                    return hops;
                },
            }
        }
    }
}

/// The chain begins with the response itself.
pub proof fn lemma_chain_first<R: Copy>(tree: &Tree, res: On<R>)
    ensures
        bubble_chain(tree, res).len() >= 1,
        bubble_chain(tree, res)[0] == res,
{
}

/// From its second hop on, a chain is the chain of its second hop.
pub proof fn lemma_chain_tail<R: Copy>(tree: &Tree, res: On<R>, k: int)
    requires
        1 <= k < bubble_chain(tree, res).len(),
    ensures
        next_hop(tree, res) is Some,
        next_hop(tree, res).unwrap().action.0 < res.action.0,
        k - 1 < bubble_chain(tree, next_hop(tree, res).unwrap()).len(),
        bubble_chain(tree, res)[k] == bubble_chain(tree, next_hop(tree, res).unwrap())[k - 1],
{
}

/// Along a bubble chain the origin and the payload never change.
pub proof fn law_origin_constant<R: Copy>(tree: &Tree, res: On<R>, k: int)
    requires
        0 <= k < bubble_chain(tree, res).len(),
    ensures
        bubble_chain(tree, res)[k].origin == res.origin,
        bubble_chain(tree, res)[k].payload == res.payload,
    decreases k,
{
    if k > 0 {
        lemma_chain_tail(tree, res, k);
        law_origin_constant(tree, next_hop(tree, res).unwrap(), k - 1);
    }
}

/// Each hop is received by the parent of the node that received the hop
/// before it, and names that node as the one it was forwarded from.
pub proof fn law_hops_linked<R: Copy>(tree: &Tree, res: On<R>, k: int)
    requires
        0 <= k,
        k + 1 < bubble_chain(tree, res).len(),
    ensures
        bubble_chain(tree, res)[k + 1].prev_action == bubble_chain(tree, res)[k].action,
        tree.parent_of(bubble_chain(tree, res)[k].action) == Some(
            bubble_chain(tree, res)[k + 1].action,
        ),
        bubble_chain(tree, res)[k + 1].action.0 < bubble_chain(tree, res)[k].action.0,
    decreases k,
{
    lemma_chain_tail(tree, res, k + 1);
    let next = next_hop(tree, res).unwrap();
    if k > 0 {
        lemma_chain_tail(tree, res, k);
        law_hops_linked(tree, next, k - 1);
    } else {
        lemma_chain_first(tree, next);
    }
}

/// A chain that starts at a node of the tree visits nodes of the tree only,
/// each of them once: the receivers come in strictly falling arena order.
pub proof fn law_each_node_once<R: Copy>(tree: &Tree, res: On<R>, j: int, k: int)
    requires
        0 <= j < k < bubble_chain(tree, res).len(),
    ensures
        bubble_chain(tree, res)[k].action.0 < bubble_chain(tree, res)[j].action.0,
        bubble_chain(tree, res)[k].action != bubble_chain(tree, res)[j].action,
    decreases k - j,
{
    law_hops_linked(tree, res, k - 1);
    if j < k - 1 {
        law_each_node_once(tree, res, j, k - 1);
    }
}

/// A node that has disappeared, or that carries the no-bubble marker, ends
/// the chain: the hop it receives is the last, so its parent receives nothing.
pub proof fn law_no_bubble_absorbs<R: Copy>(tree: &Tree, res: On<R>, k: int)
    requires
        0 <= k < bubble_chain(tree, res).len(),
        !passes_on(tree, bubble_chain(tree, res)[k].action),
    ensures
        k == bubble_chain(tree, res).len() - 1,
{
    if k + 1 < bubble_chain(tree, res).len() {
        lemma_no_hop_after(tree, res, k);
    }
}

proof fn lemma_no_hop_after<R: Copy>(tree: &Tree, res: On<R>, k: int)
    requires
        0 <= k,
        k + 1 < bubble_chain(tree, res).len(),
    ensures
        passes_on(tree, bubble_chain(tree, res)[k].action),
    decreases k,
{
    lemma_chain_tail(tree, res, k + 1);
    if k > 0 {
        lemma_chain_tail(tree, res, k);
        lemma_no_hop_after(tree, next_hop(tree, res).unwrap(), k - 1);
    }
}

/// In a well-formed tree a chain ends only where the propagation rule ends
/// it: at a no-bubble boundary, at a node without a parent, or where a node
/// has disappeared.
pub proof fn law_chain_ends_at_boundary<R: Copy>(tree: &Tree, res: On<R>)
    requires
        tree.wf(),
    ensures
        next_hop(tree, bubble_chain(tree, res).last()) is None,
    decreases res.action.0,
{
    match next_hop(tree, res) {
        Some(next) => {
            assert(tree.node_wf(res.action.0 as int));
            law_chain_ends_at_boundary(tree, next);
            assert(bubble_chain(tree, res).last() == bubble_chain(tree, next).last());
        },
        None => {},
    }
}

} // verus!
