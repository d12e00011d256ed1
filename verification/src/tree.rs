//! The tree model: an arena of nodes with parent and child links and the
//! bookkeeping records that the protocol reads and writes.

use vstd::prelude::*;
use crate::node::Node;
use crate::node::RunResult;
use crate::score::RunTimer;
use crate::score::Score;

verus! {

/// How often a repeating node runs its child again.
#[derive(Clone, Copy, Debug, PartialEq, Eq, Hash, Structural)]
pub enum RepeatPolicy {
    /// Repeat whatever the child reports.
    Always,
    /// Repeat only while the child succeeds.
    OnSuccess,
    /// Repeat only while the child fails.
    OnFailure,
}

/// The action data a node may carry.
#[derive(Clone, Copy, Debug, PartialEq, Eq, Hash, Structural)]
pub enum Action {
    /// Runs its children in sibling order until one fails.
    Sequence,
    /// Runs its children in sibling order until one succeeds.
    Fallback,
    /// Runs the child with the highest score.
    ScoreSelector,
    /// Runs its first child again and again, `max` times at most after the
    /// first run.
    Repeat { policy: RepeatPolicy, max: Option<u32> },
    /// Completes at once with the given result.
    RespondWith(RunResult),
    /// Stays running until some collaborator outside the engine completes it.
    External(u32),
}

/// The name record of a node.
#[derive(Clone, Copy, Debug, PartialEq, Eq, Hash, Structural)]
pub enum Name {
    /// The default name, "Node" followed by the count of nodes built so far.
    Numbered(usize),
    /// A name chosen by the caller, by its key in the caller's table of names.
    Given(u32),
}

/// Everything the engine keeps for one node.
#[derive(Clone, Copy, Debug, PartialEq, Eq, Hash, Structural)]
pub struct Records {
    /// Cleared once the node has been despawned.
    pub alive: bool,
    /// The `Running` marker: the node's execution is in flight.
    pub running: bool,
    /// The no-bubble marker: results stop here.
    pub no_bubble: bool,
    /// Marks the root of a behavior tree.
    pub root: bool,
    /// The default back-reference: the tree's root is the agent acted upon.
    pub root_is_target_agent: bool,
    pub timer: Option<RunTimer>,
    pub score: Option<Score>,
    pub name: Option<Name>,
    pub action: Option<Action>,
    /// How often the child of a repeating node has reported in this run.
    pub repeats: u32,
}

pub struct NodeData {
    pub parent: Option<Node>,
    /// Sibling order is execution order.
    pub children: Vec<Node>,
    pub records: Records,
}

pub struct Tree {
    pub nodes: Vec<NodeData>,
}

impl Records {
    pub open spec fn spec_new(action: Option<Action>) -> Records {
        Records {
            alive: true,
            running: false,
            no_bubble: false,
            root: false,
            root_is_target_agent: false,
            timer: None,
            score: None,
            name: None,
            action,
            repeats: 0,
        }
    }

    /// The records of a fresh node that carries `action` and nothing else.
    #[verifier::when_used_as_spec(spec_new)]
    pub fn new(action: Option<Action>) -> (r: Records)
        ensures
            r == Records::spec_new(action),
    {
        Records {
            alive: true,
            running: false,
            no_bubble: false,
            root: false,
            root_is_target_agent: false,
            timer: None,
            score: None,
            name: None,
            action,
            repeats: 0,
        }
    }
}

impl Tree {
    pub open spec fn len(&self) -> nat {
        self.nodes@.len()
    }

    pub open spec fn contains(&self, n: Node) -> bool {
        n.0 < self.nodes@.len()
    }

    pub open spec fn parent_of(&self, n: Node) -> Option<Node> {
        self.nodes@[n.0 as int].parent
    }

    pub open spec fn children_of(&self, n: Node) -> Seq<Node> {
        self.nodes@[n.0 as int].children@
    }

    pub open spec fn records_of(&self, n: Node) -> Records {
        self.nodes@[n.0 as int].records
    }

    /// The links of slot `i` agree with those of its neighbours: a parent
    /// comes before its child in the arena and lists it exactly once.
    pub open spec fn node_wf(&self, i: int) -> bool {
        let d = self.nodes@[i];
        &&& match d.parent {
            Some(p) => p.0 < i && self.nodes@[p.0 as int].children@.contains(Node(i as usize)),
            None => true,
        }
        &&& d.children@.no_duplicates()
        &&& forall|k: int|
            0 <= k < d.children@.len() ==> {
                let c = #[trigger] d.children@[k];
                i < c.0 < self.nodes@.len() && self.nodes@[c.0 as int].parent == Some(
                    Node(i as usize),
                )
            }
    }

    pub open spec fn wf(&self) -> bool {
        forall|i: int| 0 <= i < self.nodes@.len() ==> #[trigger] self.node_wf(i)
    }

    /// Same links as `other`; the records may differ.
    pub open spec fn same_shape(&self, other: &Tree) -> bool {
        &&& self.nodes@.len() == other.nodes@.len()
        &&& forall|i: int|
            0 <= i < self.nodes@.len() ==> {
                &&& (#[trigger] self.nodes@[i]).parent == other.nodes@[i].parent
                &&& self.nodes@[i].children@ == other.nodes@[i].children@
            }
    }

    pub proof fn lemma_same_shape_wf(&self, other: &Tree)
        requires
            self.wf(),
            other.same_shape(self),
        ensures
            other.wf(),
    {
        assert forall|i: int| 0 <= i < other.nodes@.len() implies #[trigger] other.node_wf(i) by {
            assert(self.node_wf(i));
            let d = other.nodes@[i];
            assert(self.nodes@[i].children@ == d.children@);
            match d.parent {
                Some(p) => {
                    assert(self.nodes@[p.0 as int].children@ == other.nodes@[p.0 as int].children@);
                },
                None => {},
            }
            assert forall|k: int| 0 <= k < d.children@.len() implies {
                let c = #[trigger] d.children@[k];
                i < c.0 < other.nodes@.len() && other.nodes@[c.0 as int].parent == Some(
                    Node(i as usize),
                )
            } by {
                let c = self.nodes@[i].children@[k];
                assert(self.nodes@[c.0 as int].parent == other.nodes@[c.0 as int].parent);
            }
        }
    }

    pub fn new() -> (t: Tree)
        ensures
            t.wf(),
            t.nodes@.len() == 0,
    {
        Tree { nodes: Vec::new() }
    }

    pub fn node_count(&self) -> (n: usize)
        ensures
            n == self.nodes@.len(),
    {
        self.nodes.len()
    }

    pub fn has(&self, n: Node) -> (b: bool)
        ensures
            b == self.contains(n),
    {
        n.0 < self.nodes.len()
    }

    /// Adds a node without links that carries `records`.
    pub fn spawn(&mut self, records: Records) -> (n: Node)
        requires
            old(self).wf(),
        ensures
            final(self).wf(),
            n.0 == old(self).nodes@.len(),
            final(self).nodes@.len() == old(self).nodes@.len() + 1,
            forall|i: int| 0 <= i < old(self).nodes@.len() ==> final(self).nodes@[i] == old(self).nodes@[i],
            final(self).parent_of(n) == None::<Node>,
            final(self).children_of(n) == Seq::<Node>::empty(),
            final(self).records_of(n) == records,
    {
        let n = Node(self.nodes.len());
        self.nodes.push(NodeData { parent: None, children: Vec::new(), records });
        proof {
            assert forall|i: int| 0 <= i < self.nodes@.len() implies #[trigger] self.node_wf(i) by {
                if i < old(self).nodes@.len() {
                    assert(old(self).node_wf(i));
                }
            }
        }
        n
    }

    /// Whether `child` may be linked under `parent`: both exist, the child
    /// was spawned after the parent and has no parent yet.
    pub open spec fn can_link(&self, parent: Node, child: Node) -> bool {
        &&& self.contains(parent)
        &&& self.contains(child)
        &&& parent.0 < child.0
        &&& self.parent_of(child) == None::<Node>
    }

    /// Appends `child` to the children of `parent`, after the siblings that
    /// are already there. Returns `false`, and changes nothing, where the
    /// link cannot be made.
    pub fn add_child(&mut self, parent: Node, child: Node) -> (linked: bool)
        requires
            old(self).wf(),
        ensures
            linked == old(self).can_link(parent, child),
            !linked ==> *final(self) == *old(self),
            final(self).wf(),
            final(self).nodes@.len() == old(self).nodes@.len(),
            linked ==> {
                &&& final(self).children_of(parent) == old(self).children_of(parent).push(child)
                &&& final(self).parent_of(child) == Some(parent)
                &&& final(self).parent_of(parent) == old(self).parent_of(parent)
                &&& final(self).children_of(child) == old(self).children_of(child)
                &&& forall|i: int|
                    0 <= i < old(self).nodes@.len() ==> (#[trigger] final(self).nodes@[i]).records
                        == old(self).nodes@[i].records
                &&& forall|i: int|
                    0 <= i < old(self).nodes@.len() && i != parent.0 && i != child.0
                        ==> final(self).nodes@[i] == old(self).nodes@[i]
            },
    {
        if !(parent.0 < child.0 && child.0 < self.nodes.len()) {
            return false;
        }
        if self.nodes[child.0].parent.is_some() {
            return false;
        }
        proof {
            assert(old(self).node_wf(parent.0 as int));
            if old(self).children_of(parent).contains(child) {
                let k = choose|k: int|
                    0 <= k < old(self).children_of(parent).len() && old(self).children_of(parent)[k]
                        == child;
                assert(old(self).nodes@[parent.0 as int].children@[k] == child);
                assert(false);
            }
        }
        self.nodes[child.0].parent = Some(parent);
        self.nodes[parent.0].children.push(child);
        proof {
            let pre = *old(self);
            let post = *self;
            assert(post.children_of(parent) == pre.children_of(parent).push(child));
            assert forall|i: int| 0 <= i < post.nodes@.len() implies #[trigger] post.node_wf(i) by {
                assert(pre.node_wf(i));
                let d = post.nodes@[i];
                match d.parent {
                    Some(p) => {
                        if i == child.0 {
                            assert(post.children_of(parent)[pre.children_of(parent).len() as int]
                                == child);
                        } else {
                            let k = choose|k: int|
                                0 <= k < pre.nodes@[p.0 as int].children@.len()
                                    && pre.nodes@[p.0 as int].children@[k] == Node(i as usize);
                            assert(post.nodes@[p.0 as int].children@[k] == Node(i as usize));
                        }
                    },
                    None => {},
                }
                assert forall|k: int| 0 <= k < d.children@.len() implies {
                    let c = #[trigger] d.children@[k];
                    i < c.0 < post.nodes@.len() && post.nodes@[c.0 as int].parent == Some(
                        Node(i as usize),
                    )
                } by {
                    if i == parent.0 && k == pre.children_of(parent).len() {
                    } else {
                        let c = pre.nodes@[i].children@[k];
                        assert(c == d.children@[k]);
                        assert(pre.nodes@[c.0 as int].parent == Some(Node(i as usize)));
                        assert(c != child);
                    }
                }
                if i == parent.0 {
                    assert(d.children@ == pre.children_of(parent).push(child));
                    assert(!pre.children_of(parent).contains(child));
                    assert(d.children@.no_duplicates());
                }
            }
        }
        true
    }

    pub fn parent(&self, n: Node) -> (p: Option<Node>)
        requires
            self.contains(n),
        ensures
            p == self.parent_of(n),
    {
        self.nodes[n.0].parent
    }

    pub fn children(&self, n: Node) -> (c: &Vec<Node>)
        requires
            self.contains(n),
        ensures
            c@ == self.children_of(n),
    {
        &self.nodes[n.0].children
    }

    pub fn records(&self, n: Node) -> (r: Records)
        requires
            self.contains(n),
        ensures
            r == self.records_of(n),
    {
        self.nodes[n.0].records
    }

    /// Replaces the records of `n`; no link changes.
    pub fn set_records(&mut self, n: Node, records: Records)
        requires
            old(self).contains(n),
        ensures
            final(self).same_shape(old(self)),
            final(self).records_of(n) == records,
            forall|i: int|
                0 <= i < old(self).nodes@.len() && i != n.0 ==> final(self).nodes@[i] == old(
                    self,
                ).nodes@[i],
    {
        self.nodes[n.0].records = records;
    }
}

/// Whether `n` is `root` or one of its descendants.
pub open spec fn in_subtree(tree: &Tree, n: Node, root: Node) -> bool
    decreases n.0,
{
    n == root || (tree.contains(n) && match tree.parent_of(n) {
        Some(p) => p.0 < n.0 && in_subtree(tree, p, root),
        None => false,
    })
}

/// Whether `n` is `root` or one of its descendants.
pub fn is_in_subtree(tree: &Tree, n: Node, root: Node) -> (b: bool)
    requires
        tree.wf(),
    ensures
        b == in_subtree(tree, n, root),
{
    let mut cur = n;
    loop
        invariant
            tree.wf(),
            in_subtree(tree, n, root) == in_subtree(tree, cur, root),
        decreases cur.0,
    {
        if cur == root {
            return true;
        }
        if !tree.has(cur) {
            return false;
        }
        match tree.parent(cur) {
            Some(p) => {
                proof {
                    assert(tree.node_wf(cur.0 as int));
                }
                cur = p;
            },
            None => {
                return false;
            },
        }
    }
}

/// The records of a node that has been despawned.
pub open spec fn despawned(r: Records) -> Records {
    Records { alive: false, running: false, ..r }
}

/// The count of nodes among `nodes` that have not been despawned.
pub open spec fn alive_among(nodes: Seq<NodeData>) -> nat
    decreases nodes.len(),
{
    if nodes.len() == 0 {
        0
    } else {
        alive_among(nodes.drop_last()) + if nodes.last().records.alive {
            1nat
        } else {
            0nat
        }
    }
}

impl Tree {
    /// Despawns `node` and every node below it: they are no longer alive
    /// and no longer running. Their slots and links stay, so that no
    /// identifier is ever given out twice.
    pub fn despawn(&mut self, node: Node)
        requires
            old(self).wf(),
        ensures
            final(self).wf(),
            final(self).same_shape(old(self)),
            forall|n: Node|
                old(self).contains(n) ==> #[trigger] final(self).records_of(n) == if in_subtree(
                    old(self),
                    n,
                    node,
                ) {
                    despawned(old(self).records_of(n))
                } else {
                    old(self).records_of(n)
                },
    {
        let count: usize = self.node_count();
        let mut inside: Vec<bool> = Vec::new();
        let mut i: usize = 0;
        while i < count
            invariant
                i <= count,
                count == self.nodes@.len(),
                *self == *old(self),
                self.wf(),
                inside@.len() == i,
                forall|j: int|
                    0 <= j < i ==> inside@[j] == in_subtree(old(self), Node(j as usize), node),
            decreases count - i,
        {
            let b = is_in_subtree(self, Node(i), node);
            inside.push(b);
            i = i + 1;
        }
        let mut i: usize = 0;
        while i < count
            invariant
                i <= count,
                count == old(self).nodes@.len(),
                inside@.len() == count,
                forall|j: int|
                    0 <= j < count ==> inside@[j] == in_subtree(old(self), Node(j as usize), node),
                self.same_shape(old(self)),
                forall|j: int|
                    0 <= j < i ==> (#[trigger] self.nodes@[j]).records == if inside@[j] {
                        despawned(old(self).nodes@[j].records)
                    } else {
                        old(self).nodes@[j].records
                    },
                forall|j: int| i <= j < count ==> self.nodes@[j] == old(self).nodes@[j],
            decreases count - i,
        {
            if inside[i] {
                let mut r = self.records(Node(i));
                r.alive = false;
                r.running = false;
                self.set_records(Node(i), r);
            }
            i = i + 1;
        }
        proof {
            old(self).lemma_same_shape_wf(self);
            assert forall|n: Node| old(self).contains(n) implies #[trigger] self.records_of(n)
                == if in_subtree(old(self), n, node) {
                despawned(old(self).records_of(n))
            } else {
                old(self).records_of(n)
            } by {
                assert(Node(n.0 as int as usize) == n);
                assert(self.nodes@[n.0 as int].records == if inside@[n.0 as int] {
                    despawned(old(self).nodes@[n.0 as int].records)
                } else {
                    old(self).nodes@[n.0 as int].records
                });
            }
        }
    }

    /// The count of nodes that have not been despawned.
    pub fn alive_count(&self) -> (n: usize)
        ensures
            n == alive_among(self.nodes@),
    {
        let mut n: usize = 0;
        let mut i: usize = 0;
        while i < self.nodes.len()
            invariant
                i <= self.nodes@.len(),
                n <= i,
                n == alive_among(self.nodes@.subrange(0, i as int)),
            decreases self.nodes@.len() - i,
        {
            proof {
                assert(self.nodes@.subrange(0, i + 1).drop_last() == self.nodes@.subrange(
                    0,
                    i as int,
                ));
            }
            if self.nodes[i].records.alive {
                n = n + 1;
            }
            i = i + 1;
        }
        proof {
            assert(self.nodes@.subrange(0, i as int) == self.nodes@);
        }
        n
    }
}

} // verus!
