//! The tree builder: a description of a tree that is spawned in one pass,
//! with the parent and child links and the default bookkeeping records.

use vstd::prelude::*;
use crate::node::Node;
use crate::score::RunTimer;
use crate::tree::Name;
use crate::tree::Records;
use crate::tree::Tree;

verus! {

/// Couldn't resist.. Marker to identify the root of a behavior graph
#[derive(Clone, Copy, Debug, Default, PartialEq, Eq, Hash, Structural)]
pub struct BeetRoot;

/// A tree that has not been spawned yet: the records of its root and the
/// builders of the subtrees below it, in sibling order.
pub struct BeetBuilder {
    pub children: Vec<BeetBuilder>,
    /// Puts the root marker and `Running` on this node if it is the root.
    pub insert_root_defaults: bool,
    /// Puts a name and a timer on this node.
    pub insert_defaults: bool,
    /// The records the node is spawned with.
    pub records: Records,
}

/// The count of nodes that the builders in `s` describe.
pub open spec fn sizes(s: Seq<BeetBuilder>) -> nat
    decreases s,
{
    if s.len() == 0 {
        0
    } else {
        sizes(s.drop_last()) + s.last().size()
    }
}

/// The records of a node with the default components on it: a fresh timer,
/// the back-reference to the agent, and `default_name` unless the node has a
/// name.
pub open spec fn with_default_components(r: Records, default_name: Name) -> Records {
    Records {
        timer: Some(RunTimer { ticks: 0 }),
        root_is_target_agent: true,
        name: match r.name {
            Some(n) => Some(n),
            None => Some(default_name),
        },
        ..r
    }
}

/// The records of a root with the root defaults on it.
pub open spec fn with_root_defaults(r: Records) -> Records {
    Records { root: true, running: true, ..r }
}

pub proof fn lemma_sizes_prefix(s: Seq<BeetBuilder>, k: int)
    requires
        0 <= k < s.len(),
    ensures
        sizes(s.subrange(0, k + 1)) == sizes(s.subrange(0, k)) + s[k].size(),
        sizes(s.subrange(0, k + 1)) <= sizes(s),
    decreases s.len() - k,
{
    assert(s.subrange(0, k + 1).drop_last() == s.subrange(0, k));
    if k + 1 < s.len() {
        lemma_sizes_prefix(s, k + 1);
    } else {
        assert(s.subrange(0, k + 1) == s);
    }
}

impl BeetBuilder {
    /// The count of nodes that this builder describes.
    pub open spec fn size(&self) -> nat
        decreases self,
    {
        1 + sizes(self.children@)
    }

    /// The slot of the root of child `k` when this builder is spawned at
    /// slot `at`: each subtree follows its root, in sibling order.
    pub open spec fn child_slot(&self, at: int, k: int) -> int {
        at + 1 + sizes(self.children@.subrange(0, k))
    }

    /// The records that the root of this builder has once it is spawned at
    /// slot `at` by a build that began at slot `base`. The default name
    /// counts the nodes that the build had spawned when the node was done.
    pub open spec fn spawned_records(&self, at: int, base: int) -> Records {
        if self.insert_defaults {
            with_default_components(
                self.records,
                Name::Numbered((at - base + self.size()) as usize),
            )
        } else {
            self.records
        }
    }

    /// The slots from `at` on hold the tree that this builder describes,
    /// except for the parent and the records of its root: every node before
    /// its children and each subtree after the one of the sibling before it.
    pub open spec fn built_below(&self, tree: &Tree, at: int, base: int) -> bool
        decreases self,
    {
        &&& 0 <= at
        &&& at + self.size() <= tree.nodes@.len()
        &&& tree.nodes@[at].children@.len() == self.children@.len()
        &&& forall|k: int|
            0 <= k < self.children@.len() ==> {
                &&& #[trigger] self.child_linked(tree, at, base, k)
                &&& self.children@[k].built_below(tree, self.child_slot(at, k), base)
            }
    }

    /// Child `k` of the node in slot `at` sits in the slot of child `k`,
    /// names that node as its parent and has the records it was built with.
    pub open spec fn child_linked(&self, tree: &Tree, at: int, base: int, k: int) -> bool {
        let slot = self.child_slot(at, k);
        &&& 0 <= k < self.children@.len()
        &&& tree.nodes@[at].children@[k].0 == slot
        &&& tree.nodes@[slot].parent == Some(Node(at as usize))
        &&& tree.nodes@[slot].records == self.children@[k].spawned_records(slot, base)
    }

    /// The slots from `at` on hold the tree that this builder describes.
    pub open spec fn built_at(&self, tree: &Tree, at: int, base: int) -> bool {
        &&& self.built_below(tree, at, base)
        &&& tree.nodes@[at].parent == None::<Node>
    }

    pub proof fn lemma_child_slot(&self, at: int, k: int)
        requires
            0 <= k < self.children@.len(),
        ensures
            at < self.child_slot(at, k),
            self.child_slot(at, k) + self.children@[k].size() <= at + self.size(),
            k + 1 < self.children@.len() ==> self.child_slot(at, k + 1) == self.child_slot(at, k)
                + self.children@[k].size(),
    {
        lemma_sizes_prefix(self.children@, k);
    }

    /// What was built stays built in a tree that holds the same nodes in the
    /// slots of the subtree.
    pub proof fn lemma_built_frame(&self, before: &Tree, after: &Tree, at: int, base: int)
        requires
            self.built_below(before, at, base),
            at + self.size() <= after.nodes@.len(),
            after.nodes@[at].children@ == before.nodes@[at].children@,
            forall|i: int| at < i < at + self.size() ==> after.nodes@[i] == before.nodes@[i],
        ensures
            self.built_below(after, at, base),
        decreases self,
    {
        assert forall|k: int| 0 <= k < self.children@.len() implies {
            &&& #[trigger] self.child_linked(after, at, base, k)
            &&& self.children@[k].built_below(after, self.child_slot(at, k), base)
        } by {
            let slot = self.child_slot(at, k);
            self.lemma_child_slot(at, k);
            assert(self.child_linked(before, at, base, k));
            self.children@[k].lemma_built_frame(before, after, slot, base);
        }
    }

    /// A builder for one node that carries `records`, with all defaults on.
    pub fn new(records: Records) -> (b: BeetBuilder)
        ensures
            b.children@ == Seq::<BeetBuilder>::empty(),
            b.insert_root_defaults,
            b.insert_defaults,
            b.records == records,
            b.size() == 1,
    {
        let b = BeetBuilder {
            children: Vec::new(),
            insert_root_defaults: true,
            insert_defaults: true,
            records,
        };
        proof {
            reveal_with_fuel(sizes, 1);
        }
        b
    }

    /// Adds `child` as the last child.
    pub fn child(self, child: BeetBuilder) -> (b: BeetBuilder)
        ensures
            b.children@ == self.children@.push(child),
            b.insert_root_defaults == self.insert_root_defaults,
            b.insert_defaults == self.insert_defaults,
            b.records == self.records,
            b.size() == self.size() + child.size(),
    {
        let mut b = self;
        b.children.push(child);
        proof {
            assert(b.children@.drop_last() == self.children@);
        }
        b
    }

    /// Puts the default components on a node's records.
    pub fn insert_default_components(records: Records, default_name: Name) -> (r: Records)
        ensures
            r == with_default_components(records, default_name),
    {
        let mut r = records;
        r.timer = Some(RunTimer::default());
        r.root_is_target_agent = true;
        if r.name.is_none() {
            r.name = Some(default_name);
        }
        r
    }

    /// Spawns the tree into `tree`, after the nodes that are there, and
    /// returns its root. A root with root defaults gets the root marker and
    /// `Running`.
    pub fn build(self, tree: &mut Tree) -> (root: Node)
        requires
            old(tree).wf(),
        ensures
            final(tree).wf(),
            root.0 == old(tree).nodes@.len(),
            final(tree).nodes@.len() == old(tree).nodes@.len() + self.size(),
            forall|i: int|
                0 <= i < old(tree).nodes@.len() ==> final(tree).nodes@[i] == old(tree).nodes@[i],
            self.built_at(final(tree), root.0 as int, root.0 as int),
            final(tree).records_of(root) == if self.insert_root_defaults {
                with_root_defaults(self.spawned_records(root.0 as int, root.0 as int))
            } else {
                self.spawned_records(root.0 as int, root.0 as int)
            },
    {
        let base = tree.node_count();
        let root = self.build_recursive(tree, base);
        if self.insert_root_defaults {
            let ghost before = *tree;
            let mut r = tree.records(root);
            r.root = true;
            r.running = true;
            tree.set_records(root, r);
            proof {
                before.lemma_same_shape_wf(tree);
                self.lemma_built_frame(&before, tree, base as int, base as int);
            }
        }
        root
    }

    /// Spawns the tree and returns its root.
    pub fn into_node(self, tree: &mut Tree) -> (root: Node)
        requires
            old(tree).wf(),
        ensures
            final(tree).wf(),
            root.0 == old(tree).nodes@.len(),
            final(tree).nodes@.len() == old(tree).nodes@.len() + self.size(),
            forall|i: int|
                0 <= i < old(tree).nodes@.len() ==> final(tree).nodes@[i] == old(tree).nodes@[i],
            self.built_at(final(tree), root.0 as int, root.0 as int),
            final(tree).records_of(root) == if self.insert_root_defaults {
                with_root_defaults(self.spawned_records(root.0 as int, root.0 as int))
            } else {
                self.spawned_records(root.0 as int, root.0 as int)
            },
    {
        self.build(tree)
    }

    fn build_recursive(&self, tree: &mut Tree, base: usize) -> (root: Node)
        requires
            old(tree).wf(),
            base <= old(tree).nodes@.len(),
        ensures
            final(tree).wf(),
            root.0 == old(tree).nodes@.len(),
            final(tree).nodes@.len() == old(tree).nodes@.len() + self.size(),
            forall|i: int|
                0 <= i < old(tree).nodes@.len() ==> final(tree).nodes@[i] == old(tree).nodes@[i],
            self.built_at(final(tree), root.0 as int, base as int),
            final(tree).records_of(root) == self.spawned_records(root.0 as int, base as int),
        decreases self,
    {
        let root = tree.spawn(self.records);
        let ghost at = root.0 as int;
        let mut k: usize = 0;
        proof {
            assert(self.children@.subrange(0, 0) == Seq::<BeetBuilder>::empty());
        }
        while k < self.children.len()
            invariant
                k <= self.children@.len(),
                at == root.0 == old(tree).nodes@.len(),
                base <= at,
                tree.wf(),
                tree.nodes@.len() == at + 1 + sizes(self.children@.subrange(0, k as int)),
                forall|i: int| 0 <= i < at ==> tree.nodes@[i] == old(tree).nodes@[i],
                tree.nodes@[at].parent == None::<Node>,
                tree.nodes@[at].records == self.records,
                tree.nodes@[at].children@.len() == k,
                forall|j: int|
                    0 <= j < k ==> {
                        &&& #[trigger] self.child_linked(tree, at, base as int, j)
                        &&& self.children@[j].built_below(
                            tree,
                            self.child_slot(at, j),
                            base as int,
                        )
                    },
            decreases self.children@.len() - k,
        {
            let ghost before = *tree;
            let c = self.children[k].build_recursive(tree, base);
            let ghost middle = *tree;
            let linked = tree.add_child(root, c);
            proof {
                let slot = self.child_slot(at, k as int);
                self.lemma_child_slot(at, k as int);
                lemma_sizes_prefix(self.children@, k as int);
                assert(c.0 == slot);
                assert(linked);
                self.children@[k as int].lemma_built_frame(&middle, tree, slot, base as int);
                assert(Node(at as usize) == root);
                assert forall|j: int| 0 <= j < k + 1 implies {
                    &&& #[trigger] self.child_linked(tree, at, base as int, j)
                    &&& self.children@[j].built_below(tree, self.child_slot(at, j), base as int)
                } by {
                    if j < k {
                        let s = self.child_slot(at, j);
                        self.lemma_child_slot(at, j);
                        lemma_sizes_le(self.children@, j, k as int);
                        assert(self.child_linked(&before, at, base as int, j));
                        assert(middle.nodes@[s] == before.nodes@[s]);
                        self.children@[j].lemma_built_frame(&before, &middle, s, base as int);
                        self.children@[j].lemma_built_frame(&middle, tree, s, base as int);
                    }
                }
            }
            k = k + 1;
        }
        proof {
            assert(self.children@.subrange(0, k as int) == self.children@);
        }
        if self.insert_defaults {
            let ghost before = *tree;
            let count = tree.node_count();
            let r = BeetBuilder::insert_default_components(
                self.records,
                Name::Numbered(count - base),
            );
            tree.set_records(root, r);
            proof {
                before.lemma_same_shape_wf(tree);
                assert forall|j: int| 0 <= j < self.children@.len() implies {
                    &&& #[trigger] self.child_linked(tree, at, base as int, j)
                    &&& self.children@[j].built_below(tree, self.child_slot(at, j), base as int)
                } by {
                    let s = self.child_slot(at, j);
                    self.lemma_child_slot(at, j);
                    assert(self.child_linked(&before, at, base as int, j));
                    self.children@[j].lemma_built_frame(&before, tree, s, base as int);
                }
            }
        }
        proof {
            assert(Node(at as usize) == root);
            assert(tree.nodes@.len() == at + self.size());
        }
        root
    }
}

/// The subtrees of earlier siblings end before those of later ones begin.
pub proof fn lemma_sizes_le(s: Seq<BeetBuilder>, j: int, k: int)
    requires
        0 <= j < k <= s.len(),
    ensures
        sizes(s.subrange(0, j + 1)) <= sizes(s.subrange(0, k)),
    decreases k - j,
{
    if j + 1 < k {
        lemma_sizes_le(s, j, k - 1);
        lemma_sizes_prefix(s, k - 1);
    }
}

} // verus!
