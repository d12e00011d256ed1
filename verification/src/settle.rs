//! Runs that come to an end by themselves: what a tree of selectors over
//! responding leaves reports, and the loop that drives the engine there.

use vstd::prelude::*;
use crate::action_observers::ActionObserverMap;
use crate::action_observers::Handler;
use crate::engine::as_pending;
use crate::engine::child_result_triggers;
use crate::engine::counts_repeat;
use crate::engine::listener;
use crate::engine::on_child_result_decision;
use crate::engine::on_run_decision;
use crate::engine::result_triggers;
use crate::engine::run_triggers;
use crate::engine::Delivered;
use crate::engine::Engine;
use crate::engine::Pending;
use crate::event::On;
use crate::node::Node;
use crate::node::RunResult;
use crate::response::bubble_chain;
use crate::response::next_hop;
use crate::selectors::child_scores;
use crate::selectors::law_winner_is_first_maximum;
use crate::selectors::lemma_flow_runs_next_sibling;
use crate::selectors::score_on_run;
use crate::selectors::Decision;
use crate::selectors::winner;
use crate::tree::Action;
use crate::tree::Records;
use crate::tree::Tree;

verus! {

/// Two records that differ at most in what a run changes: the `Running`
/// marker, the timer and the count of repeats.
pub open spec fn same_setup(a: Records, b: Records) -> bool {
    a == (Records { running: a.running, timer: a.timer, repeats: a.repeats, ..b })
}

/// `after` has the links of `before`, and each node is set up as before.
pub open spec fn same_setup_trees(after: &Tree, before: &Tree) -> bool {
    &&& after.same_shape(before)
    &&& forall|n: Node|
        before.contains(n) ==> same_setup(#[trigger] after.records_of(n), before.records_of(n))
}

/// The result that ends a flow with this action at once.
pub open spec fn until_of(action: Action) -> RunResult {
    match action {
        Action::Fallback => RunResult::Success,
        _ => RunResult::Failure,
    }
}

/// Whether `c` is a child that its parent `node` can run and hear: it
/// comes after its parent in the arena and carries no no-bubble marker.
pub open spec fn hears_child(tree: &Tree, node: Node, c: Node) -> bool {
    &&& node.0 < c.0
    &&& tree.contains(c)
    &&& !tree.records_of(c).no_bubble
}

/// Whether a run of `node` comes to its result by itself: the node is
/// there and not running, and it responds at once, or it is a sequence, a
/// fallback or a score selector over children that do, or it repeats such
/// a child up to a maximum. Nodes that wait for the outside, that repeat
/// without a maximum, or that carry no action do not.
pub open spec fn settles(tree: &Tree, node: Node) -> bool
    decreases tree.nodes@.len() - node.0,
{
    let r = tree.records_of(node);
    let children = tree.children_of(node);
    &&& tree.contains(node)
    &&& r.alive
    &&& !r.running
    &&& match r.action {
        Some(Action::RespondWith(_)) => true,
        Some(Action::Sequence) | Some(Action::Fallback) => forall|k: int|
            0 <= k < children.len() ==> {
                &&& #[trigger] hears_child(tree, node, children[k])
                &&& settles(tree, children[k])
            },
        Some(Action::ScoreSelector) => match winner(child_scores(tree, children)) {
            Some(w) => {
                &&& 0 <= w < children.len()
                &&& hears_child(tree, node, children[w])
                &&& settles(tree, children[w])
            },
            None => true,
        },
        Some(Action::Repeat { policy, max }) => children.len() == 0 || {
            &&& max is Some
            &&& hears_child(tree, node, children[0])
            &&& settles(tree, children[0])
        },
        _ => false,
    }
}

/// What a run of `node` reports in the end.
pub open spec fn outcome(tree: &Tree, node: Node) -> RunResult
    decreases tree.nodes@.len() - node.0, tree.children_of(node).len() + 1,
{
    let children = tree.children_of(node);
    match tree.records_of(node).action {
        Some(Action::RespondWith(r)) => r,
        Some(Action::Sequence) => flow_outcome_from(tree, node, RunResult::Failure, 0),
        Some(Action::Fallback) => flow_outcome_from(tree, node, RunResult::Success, 0),
        Some(Action::ScoreSelector) => match winner(child_scores(tree, children)) {
            Some(w) => if 0 <= w < children.len() && hears_child(tree, node, children[w]) {
                outcome(tree, children[w])
            } else {
                RunResult::Failure
            },
            None => RunResult::Failure,
        },
        Some(Action::Repeat { .. }) => if children.len() > 0 && hears_child(
            tree,
            node,
            children[0],
        ) {
            outcome(tree, children[0])
        } else {
            RunResult::Failure
        },
        _ => RunResult::Failure,
    }
}

/// What a flow at `node` reports in the end when its children from `i` on
/// are still to be run.
pub open spec fn flow_outcome_from(tree: &Tree, node: Node, until: RunResult, i: int) -> RunResult
    decreases tree.nodes@.len() - node.0, tree.children_of(node).len() - i,
{
    let children = tree.children_of(node);
    if 0 <= i < children.len() && hears_child(tree, node, children[i]) {
        if outcome(tree, children[i]) == until {
            until
        } else {
            flow_outcome_from(tree, node, until, i + 1)
        }
    } else {
        until.spec_flip()
    }
}

/// A run does not change what a run will report: in a tree with the same
/// links and set-up, where the nodes from `node` on are as little running
/// as before, `node` settles as before and reports the same.
pub proof fn lemma_settles_transfers(before: &Tree, after: &Tree, node: Node)
    requires
        before.wf(),
        same_setup_trees(after, before),
        forall|m: Node|
            before.contains(m) && m.0 >= node.0 ==> (#[trigger] after.records_of(m)).running
                == before.records_of(m).running,
        settles(before, node),
    ensures
        settles(after, node),
        outcome(after, node) == outcome(before, node),
    decreases before.nodes@.len() - node.0, before.children_of(node).len() + 1,
{
    let children = before.children_of(node);
    assert(after.children_of(node) == children);
    assert(same_setup(after.records_of(node), before.records_of(node)));
    assert(child_scores(after, children) =~= child_scores(before, children)) by {
        assert forall|k: int| 0 <= k < children.len() implies child_scores(after, children)[k]
            == child_scores(before, children)[k] by {
            assert(before.node_wf(node.0 as int));
            lemma_setup_of(before, after, children[k]);
        }
    }
    match before.records_of(node).action {
        Some(Action::Sequence) | Some(Action::Fallback) => {
            assert forall|k: int| 0 <= k < children.len() implies {
                &&& #[trigger] hears_child(after, node, children[k])
                &&& settles(after, children[k])
            } by {
                assert(hears_child(before, node, children[k]));
                lemma_setup_of(before, after, children[k]);
                lemma_settles_transfers(before, after, children[k]);
            }
            assert(settles(after, node));
            let until = until_of(before.records_of(node).action.unwrap());
            lemma_flow_transfers(before, after, node, until, 0);
        },
        Some(Action::ScoreSelector) => {
            match winner(child_scores(before, children)) {
                Some(w) => {
                    lemma_setup_of(before, after, children[w]);
                    lemma_settles_transfers(before, after, children[w]);
                    assert(hears_child(after, node, children[w]));
                },
                None => {},
            }
            assert(settles(after, node));
        },
        Some(Action::Repeat { .. }) => {
            if children.len() > 0 {
                lemma_setup_of(before, after, children[0]);
                lemma_settles_transfers(before, after, children[0]);
                assert(hears_child(after, node, children[0]));
            }
            assert(settles(after, node));
        },
        _ => {
            assert(settles(after, node));
        },
    }
}

proof fn lemma_setup_of(before: &Tree, after: &Tree, n: Node)
    requires
        same_setup_trees(after, before),
    ensures
        before.contains(n) ==> same_setup(after.records_of(n), before.records_of(n)),
        !before.contains(n) ==> !after.contains(n),
{
}

proof fn lemma_flow_transfers(before: &Tree, after: &Tree, node: Node, until: RunResult, i: int)
    requires
        before.wf(),
        same_setup_trees(after, before),
        forall|m: Node|
            before.contains(m) && m.0 >= node.0 ==> (#[trigger] after.records_of(m)).running
                == before.records_of(m).running,
        before.contains(node),
        0 <= i,
        forall|k: int|
            0 <= k < before.children_of(node).len() ==> {
                &&& #[trigger] hears_child(before, node, before.children_of(node)[k])
                &&& settles(before, before.children_of(node)[k])
            },
    ensures
        flow_outcome_from(after, node, until, i) == flow_outcome_from(before, node, until, i),
    decreases before.nodes@.len() - node.0, before.children_of(node).len() - i,
{
    let children = before.children_of(node);
    assert(after.children_of(node) == children);
    if i < children.len() {
        assert(hears_child(before, node, children[i]));
        lemma_setup_of(before, after, children[i]);
        lemma_settles_transfers(before, after, children[i]);
        lemma_flow_transfers(before, after, node, until, i + 1);
    }
}

/// The engine is in the middle of a run of `node` that began at `before`:
/// the links and the set-up are the same, and exactly `node` has become
/// running.
spec fn mid_run(before: &Tree, now: &Tree, node: Node) -> bool {
    &&& same_setup_trees(now, before)
    &&& forall|m: Node|
        before.contains(m) ==> (#[trigger] now.records_of(m)).running == (before.records_of(
            m,
        ).running || m == node)
}

/// Whether a node with this action repeats its child.
pub open spec fn is_repeat(action: Option<Action>) -> bool {
    action matches Some(Action::Repeat { .. })
}

/// The most runs of children that a run of `node` asks for.
spec fn budget(before: &Tree, node: Node) -> int {
    match before.records_of(node).action {
        Some(Action::Repeat { max: Some(m), .. }) => m + 1,
        _ => before.children_of(node).len() as int,
    }
}

/// What is pending in the middle of a run of `node`: its result, or the
/// run of the child that decides what it reports. For a repeat `i` counts
/// the runs of its child so far, for the others it is the place of the
/// child.
spec fn awaiting(before: &Tree, node: Node, t: Pending, i: int) -> bool {
    let children = before.children_of(node);
    match t {
        Pending::Result(n, r) => n == node && r == outcome(before, node),
        Pending::Run(c) => {
            &&& 0 <= i < budget(before, node)
            &&& hears_child(before, node, c)
            &&& settles(before, c)
            &&& children.contains(c)
            &&& match before.records_of(node).action {
                Some(Action::Sequence) => i < children.len() && c == children[i] && outcome(
                    before,
                    node,
                ) == flow_outcome_from(before, node, RunResult::Failure, i) && forall|k: int|
                    0 <= k < children.len() ==> {
                        &&& #[trigger] hears_child(before, node, children[k])
                        &&& settles(before, children[k])
                    },
                Some(Action::Fallback) => i < children.len() && c == children[i] && outcome(
                    before,
                    node,
                ) == flow_outcome_from(before, node, RunResult::Success, i) && forall|k: int|
                    0 <= k < children.len() ==> {
                        &&& #[trigger] hears_child(before, node, children[k])
                        &&& settles(before, children[k])
                    },
                Some(Action::ScoreSelector) => i < children.len() && c == children[i] && winner(
                    child_scores(before, children),
                ) == Some(i),
                Some(Action::Repeat { max, .. }) => children.len() > 0 && c == children[0]
                    && max is Some,
                _ => false,
            }
        },
        Pending::Interrupt(_) => false,
    }
}

proof fn lemma_single_run_trigger(tree: &Tree, node: Node, h: Handler)
    ensures
        run_triggers(tree, node, seq![h]) == as_pending(node, on_run_decision(tree, node, h)),
{
    reveal_with_fuel(run_triggers, 2);
    assert(seq![h].drop_last() =~= Seq::<Handler>::empty());
    assert(Seq::<Pending>::empty() + as_pending(node, on_run_decision(tree, node, h))
        =~= as_pending(node, on_run_decision(tree, node, h)));
}

proof fn lemma_single_child_trigger(
    tree: &Tree,
    node: Node,
    h: Handler,
    child: Node,
    result: RunResult,
)
    ensures
        child_result_triggers(tree, node, seq![h], child, result) == as_pending(
            node,
            on_child_result_decision(tree, node, h, child, result),
        ),
{
    reveal_with_fuel(child_result_triggers, 2);
    assert(seq![h].drop_last() =~= Seq::<Handler>::empty());
    assert(Seq::<Pending>::empty() + as_pending(
        node,
        on_child_result_decision(tree, node, h, child, result),
    ) =~= as_pending(node, on_child_result_decision(tree, node, h, child, result)));
}

/// The way of a result depends on the links and the set-up alone.
pub proof fn lemma_chain_transfers<R: Copy>(before: &Tree, after: &Tree, res: On<R>)
    requires
        same_setup_trees(after, before),
    ensures
        bubble_chain(after, res) == bubble_chain(before, res),
    decreases res.action.0,
{
    if before.contains(res.action) {
        assert(same_setup(after.records_of(res.action), before.records_of(res.action)));
        match before.parent_of(res.action) {
            Some(p) => {
                if before.contains(p) {
                    assert(same_setup(after.records_of(p), before.records_of(p)));
                }
            },
            None => {},
        }
    }
    assert(next_hop(after, res) == next_hop(before, res));
    match next_hop(before, res) {
        Some(next) => {
            if next.action.0 < res.action.0 {
                lemma_chain_transfers(before, after, next);
            }
        },
        None => {},
    }
}

/// What is pending once an accepted `Run` has reached a node that settles.
proof fn lemma_run_of_settling(tree: &Tree, observers: &ActionObserverMap, node: Node)
    requires
        tree.wf(),
        observers.is_standard(),
        settles(tree, node),
    ensures
        run_triggers(
            tree,
            node,
            observers.dispatched(crate::event::EventKind::Run, tree.records_of(node).action),
        ).len() == 1,
        awaiting(
            tree,
            node,
            run_triggers(
                tree,
                node,
                observers.dispatched(crate::event::EventKind::Run, tree.records_of(node).action),
            )[0],
            match tree.records_of(node).action {
                Some(Action::ScoreSelector) => match winner(
                    child_scores(tree, tree.children_of(node)),
                ) {
                    Some(w) => w,
                    None => 0,
                },
                _ => 0,
            },
        ),
{
    let children = tree.children_of(node);
    let handlers = observers.dispatched(
        crate::event::EventKind::Run,
        tree.records_of(node).action,
    );
    assert(handlers.len() == 1);
    assert(handlers =~= seq![handlers[0]]);
    lemma_single_run_trigger(tree, node, handlers[0]);
    law_winner_is_first_maximum(child_scores(tree, children));
}

/// What is pending once the result of the child `c` has reached its
/// parent `node` in the middle of the parent's run.
proof fn lemma_result_of_child(
    before: &Tree,
    now: &Tree,
    observers: &ActionObserverMap,
    node: Node,
    c: Node,
    i: int,
)
    requires
        before.wf(),
        observers.is_standard(),
        same_setup_trees(now, before),
        before.contains(node),
        now.records_of(node).running,
        now.records_of(node).alive,
        now.records_of(c).alive,
        awaiting(before, node, Pending::Run(c), i),
        is_repeat(before.records_of(node).action) ==> now.records_of(node).repeats == i,
    ensures
        listener(now, c) == Some(node),
        result_triggers(now, observers, c, outcome(before, c)).len() == 1,
        awaiting(before, node, result_triggers(now, observers, c, outcome(before, c))[0], i + 1),
        result_triggers(now, observers, c, outcome(before, c))[0] is Run && is_repeat(
            before.records_of(node).action,
        ) ==> i < u32::MAX,
        counts_repeat(now, node, c) <==> is_repeat(before.records_of(node).action),
{
    let children = before.children_of(node);
    let r = outcome(before, c);
    assert(before.node_wf(node.0 as int));
    assert(now.children_of(node) == children);
    assert(same_setup(now.records_of(node), before.records_of(node)));
    assert(same_setup(now.records_of(c), before.records_of(c)));
    let at = choose|k: int| 0 <= k < children.len() && children[k] == c;
    assert(children[at] == c);
    assert(now.parent_of(c) == before.parent_of(c));
    assert(listener(now, c) == Some(node));
    let handlers = observers.dispatched(
        crate::event::EventKind::RunResult,
        now.records_of(node).action,
    );
    assert(handlers.len() == 1);
    assert(handlers =~= seq![handlers[0]]);
    lemma_single_child_trigger(now, node, handlers[0], c, r);
    match before.records_of(node).action {
        Some(Action::Sequence) => {
            lemma_flow_runs_next_sibling(children, i, r, RunResult::Failure);
        },
        Some(Action::Fallback) => {
            lemma_flow_runs_next_sibling(children, i, r, RunResult::Success);
        },
        _ => {},
    }
}

impl Engine {
    /// Delivers what is pending until the run of `node` that is pending
    /// has come to its result, which is then the one pending trigger.
    /// Appends every hop delivered on the way to `log`: they all come from
    /// nodes below `node`.
    fn settle(&mut self, node: Node, log: &mut Vec<On<RunResult>>) -> (r: RunResult)
        requires
            old(self).wf(),
            old(self).observers.is_standard(),
            old(self).pending@ == seq![Pending::Run(node)],
            settles(&old(self).tree, node),
        ensures
            final(self).wf(),
            final(self).observers == old(self).observers,
            mid_run(&old(self).tree, &final(self).tree, node),
            forall|m: Node|
                old(self).tree.contains(m) && m.0 < node.0 ==> #[trigger] final(self).tree.records_of(
                    m,
                ) == old(self).tree.records_of(m),
            final(self).pending@ == seq![Pending::Result(node, r)],
            r == outcome(&old(self).tree, node),
            final(log)@.len() >= old(log)@.len(),
            final(log)@.subrange(0, old(log)@.len() as int) == old(log)@,
            forall|k: int|
                old(log)@.len() <= k < final(log)@.len() ==> (#[trigger] final(log)@[k]).origin.0
                    > node.0,
        decreases old(self).tree.nodes@.len() - node.0,
    {
        let ghost before = old(self).tree;
        proof {
            lemma_run_of_settling(&before, &old(self).observers, node);
            assert(old(self).pending@.drop_first() =~= Seq::<Pending>::empty());
        }
        let _ = self.step();
        let ghost mut i: int = match before.records_of(node).action {
            Some(Action::ScoreSelector) => match winner(
                child_scores(&before, before.children_of(node)),
            ) {
                Some(w) => w,
                None => 0,
            },
            _ => 0,
        };
        proof {
            let triggers = run_triggers(
                &before,
                node,
                old(self).observers.dispatched(
                    crate::event::EventKind::Run,
                    before.records_of(node).action,
                ),
            );
            assert(self.pending@ =~= triggers);
            assert(log@.subrange(0, old(log)@.len() as int) =~= old(log)@);
        }
        loop
            invariant
                before == old(self).tree,
                before.wf(),
                self.wf(),
                self.observers == old(self).observers,
                self.observers.is_standard(),
                before.contains(node),
                before.records_of(node).alive,
                mid_run(&before, &self.tree, node),
                forall|m: Node|
                    before.contains(m) && m.0 < node.0 ==> #[trigger] self.tree.records_of(m)
                        == before.records_of(m),
                self.pending@.len() == 1,
                awaiting(&before, node, self.pending@[0], i),
                self.pending@[0] is Run && is_repeat(before.records_of(node).action)
                    ==> self.tree.records_of(node).repeats == i,
                log@.len() >= old(log)@.len(),
                log@.subrange(0, old(log)@.len() as int) == old(log)@,
                forall|k: int|
                    old(log)@.len() <= k < log@.len() ==> (#[trigger] log@[k]).origin.0 > node.0,
            decreases budget(&before, node) - i,
        {
            let next = self.pending[0];
            match next {
                Pending::Result(_, r) => {
                    proof {
                        assert(self.pending@ =~= seq![Pending::Result(node, r)]);
                    }
                    return r;
                },
                Pending::Run(c) => {
                    let ghost mid = self.tree;
                    let ghost log_mid = log@;
                    proof {
                        assert(before.node_wf(node.0 as int));
                        lemma_settles_transfers(&before, &mid, c);
                        assert(self.pending@ =~= seq![Pending::Run(c)]);
                    }
                    let r = self.settle(c, log);
                    let ghost ready = self.tree;
                    let ghost log_ready = log@;
                    proof {
                        assert(same_setup_trees(&ready, &before)) by {
                            assert forall|n: Node| before.contains(n) implies same_setup(
                                #[trigger] ready.records_of(n),
                                before.records_of(n),
                            ) by {
                                assert(same_setup(mid.records_of(n), before.records_of(n)));
                                assert(same_setup(ready.records_of(n), mid.records_of(n)));
                            }
                        }
                        assert(ready.records_of(node).running);
                        assert(same_setup(ready.records_of(node), before.records_of(node)));
                        assert(same_setup(ready.records_of(c), before.records_of(c)));
                        assert(ready.records_of(node) == mid.records_of(node));
                        lemma_result_of_child(&before, &ready, &self.observers, node, c, i);
                        assert(self.pending@.drop_first() =~= Seq::<Pending>::empty());
                    }
                    let delivered = self.step();
                    proof {
                        assert(self.pending@ =~= result_triggers(
                            &ready,
                            &old(self).observers,
                            c,
                            r,
                        ));
                        assert forall|m: Node| before.contains(m) implies (
                        #[trigger] self.tree.records_of(m)).running == (before.records_of(
                            m,
                        ).running || m == node) && same_setup(
                            self.tree.records_of(m),
                            before.records_of(m),
                        ) by {
                            assert(same_setup(ready.records_of(m), before.records_of(m)));
                            assert(ready.records_of(m).running == (mid.records_of(m).running || m
                                == c));
                            assert(mid.records_of(m).running == (before.records_of(m).running || m
                                == node));
                            assert(!before.records_of(c).running);
                        }
                        assert(self.tree.same_shape(&before));
                        assert forall|m: Node| before.contains(m) && m.0 < node.0 implies (
                        #[trigger] self.tree.records_of(m)) == before.records_of(m) by {
                            assert(ready.records_of(m) == mid.records_of(m));
                            assert(mid.records_of(m) == before.records_of(m));
                        }
                        assert(self.tree.records_of(node) == crate::engine::records_after_result(
                            &ready,
                            c,
                            node,
                        ));
                    }
                    match delivered {
                        Delivered::Result(hops) => {
                            let mut hops = hops;
                            proof {
                                assert forall|k: int| 0 <= k < hops@.len() implies (
                                #[trigger] hops@[k]).origin.0 > node.0 by {
                                    crate::response::law_origin_constant(
                                        &ready,
                                        On::spec_new(r, c),
                                        k,
                                    );
                                }
                            }
                            log.append(&mut hops);
                        },
                        _ => {},
                    }
                    proof {
                        assert(log@.subrange(0, old(log)@.len() as int) =~= old(log)@) by {
                            assert(log_ready.subrange(0, old(log)@.len() as int) =~= old(log)@) by {
                                assert(log_ready.subrange(0, log_mid.len() as int) == log_mid);
                                assert(log_mid.subrange(0, old(log)@.len() as int) == old(log)@);
                                assert forall|k: int| 0 <= k < old(log)@.len() implies log_ready[k]
                                    == old(log)@[k] by {
                                    assert(log_ready.subrange(0, log_mid.len() as int)[k]
                                        == log_ready[k]);
                                    assert(log_mid.subrange(0, old(log)@.len() as int)[k]
                                        == log_mid[k]);
                                }
                            }
                        }
                        assert forall|k: int| old(log)@.len() <= k < log@.len() implies (
                        #[trigger] log@[k]).origin.0 > node.0 by {
                            if k < log_mid.len() {
                                assert(log_ready.subrange(0, log_mid.len() as int)[k]
                                    == log_ready[k]);
                                assert(log_mid[k].origin.0 > node.0);
                            } else if k < log_ready.len() {
                                assert(log_ready[k].origin.0 > c.0);
                            }
                        }
                        i = i + 1;
                    }
                },
                Pending::Interrupt(_) => {
                    proof {
                        assert(false);
                    }
                    return RunResult::Failure;
                },
            }
        }
    }
}

/// A flow whose children from `i` on are still to be run reports `until`
/// if and only if one of those children does.
pub proof fn law_flow_reports(tree: &Tree, node: Node, until: RunResult, i: int)
    requires
        0 <= i <= tree.children_of(node).len(),
        forall|k: int|
            0 <= k < tree.children_of(node).len() ==> #[trigger] hears_child(
                tree,
                node,
                tree.children_of(node)[k],
            ),
    ensures
        flow_outcome_from(tree, node, until, i) == until <==> exists|k: int|
            i <= k < tree.children_of(node).len() && #[trigger] outcome(
                tree,
                tree.children_of(node)[k],
            ) == until,
    decreases tree.children_of(node).len() - i,
{
    let children = tree.children_of(node);
    if i < children.len() {
        assert(hears_child(tree, node, children[i]));
        law_flow_reports(tree, node, until, i + 1);
        if outcome(tree, children[i]) != until {
            if exists|k: int| i <= k < children.len() && #[trigger] outcome(tree, children[k])
                == until {
                let k = choose|k: int| i <= k < children.len() && #[trigger] outcome(
                    tree,
                    children[k],
                ) == until;
                assert(i + 1 <= k);
            }
        }
    }
}

/// A sequence that settles succeeds if and only if each of its children
/// does.
pub proof fn law_sequence_outcome(tree: &Tree, node: Node)
    requires
        settles(tree, node),
        tree.records_of(node).action == Some(Action::Sequence),
    ensures
        outcome(tree, node) == RunResult::Success <==> forall|k: int|
            0 <= k < tree.children_of(node).len() ==> #[trigger] outcome(
                tree,
                tree.children_of(node)[k],
            ) == RunResult::Success,
{
    law_flow_reports(tree, node, RunResult::Failure, 0);
}

/// A fallback that settles fails if and only if each of its children does.
pub proof fn law_fallback_outcome(tree: &Tree, node: Node)
    requires
        settles(tree, node),
        tree.records_of(node).action == Some(Action::Fallback),
    ensures
        outcome(tree, node) == RunResult::Failure <==> forall|k: int|
            0 <= k < tree.children_of(node).len() ==> #[trigger] outcome(
                tree,
                tree.children_of(node)[k],
            ) == RunResult::Failure,
{
    law_flow_reports(tree, node, RunResult::Success, 0);
}

/// A repeat that settles reports what its child reports, and fails where
/// it has no child.
pub proof fn law_repeat_outcome(tree: &Tree, node: Node)
    requires
        settles(tree, node),
        is_repeat(tree.records_of(node).action),
    ensures
        outcome(tree, node) == if tree.children_of(node).len() > 0 {
            outcome(tree, tree.children_of(node)[0])
        } else {
            RunResult::Failure
        },
{
}

/// A score selector that settles reports what the first of its children
/// with the highest score reports, and fails where no child is eligible.
pub proof fn law_score_outcome(tree: &Tree, node: Node)
    requires
        settles(tree, node),
        tree.records_of(node).action == Some(Action::ScoreSelector),
    ensures
        outcome(tree, node) == match winner(child_scores(tree, tree.children_of(node))) {
            Some(w) => outcome(tree, tree.children_of(node)[w]),
            None => RunResult::Failure,
        },
{
}

/// `log` ends with the way up of the one result that `node` reports, and
/// holds no other result of `node` before it.
pub open spec fn reported_once(
    log: Seq<On<RunResult>>,
    tree: &Tree,
    node: Node,
    result: RunResult,
) -> bool {
    let chain = bubble_chain(tree, On::spec_new(result, node));
    &&& log.len() >= chain.len()
    &&& log.subrange(log.len() - chain.len(), log.len() as int) == chain
    &&& forall|k: int| 0 <= k < log.len() - chain.len() ==> (#[trigger] log[k]).origin != node
}

/// In a log in which `node` has reported once, exactly one delivery is a
/// result of `node` received by `node` itself, and it carries the result.
pub proof fn law_reported_once(
    log: Seq<On<RunResult>>,
    tree: &Tree,
    node: Node,
    result: RunResult,
    k: int,
)
    requires
        reported_once(log, tree, node, result),
        0 <= k < log.len(),
    ensures
        (log[k].origin == node && log[k].action == node) <==> k == log.len() - bubble_chain(
            tree,
            On::spec_new(result, node),
        ).len(),
        log[k].origin == node ==> log[k].payload == result,
{
    let chain = bubble_chain(tree, On::spec_new(result, node));
    let start = log.len() - chain.len();
    crate::response::lemma_chain_first(tree, On::spec_new(result, node));
    if k >= start {
        assert(log.subrange(start, log.len() as int)[k - start] == log[k]);
        crate::engine::law_one_result_at_origin(tree, node, result, k - start);
    }
}

impl Engine {
    /// Triggers `Run` on `node` and delivers what is pending until the
    /// result of `node` has been delivered. Returns every hop delivered, in
    /// order: the run ends, `node` reports exactly once, with what its tree
    /// of selectors comes to, and afterwards nothing is pending and no node
    /// is running that was not running before.
    pub fn run_to_completion(&mut self, node: Node) -> (log: Vec<On<RunResult>>)
        requires
            old(self).wf(),
            old(self).observers.is_standard(),
            old(self).pending@.len() == 0,
            settles(&old(self).tree, node),
            listener(&old(self).tree, node) is None,
        ensures
            final(self).wf(),
            final(self).observers == old(self).observers,
            same_setup_trees(&final(self).tree, &old(self).tree),
            forall|m: Node|
                old(self).tree.contains(m) ==> (#[trigger] final(self).tree.records_of(m)).running
                    == old(self).tree.records_of(m).running,
            final(self).pending@.len() == 0,
            reported_once(log@, &old(self).tree, node, outcome(&old(self).tree, node)),
    {
        let ghost before = self.tree;
        let mut log: Vec<On<RunResult>> = Vec::new();
        self.pending.push(Pending::Run(node));
        proof {
            assert(self.pending@ =~= seq![Pending::Run(node)]);
        }
        let r = self.settle(node, &mut log);
        let ghost ready = self.tree;
        let ghost during = log@;
        proof {
            assert(self.pending@.drop_first() =~= Seq::<Pending>::empty());
            assert(same_setup(ready.records_of(node), before.records_of(node)));
            assert(ready.records_of(node).running);
            assert(before.node_wf(node.0 as int));
            match before.parent_of(node) {
                Some(p) => {
                    assert(ready.parent_of(node) == Some(p));
                    assert(same_setup(ready.records_of(p), before.records_of(p)));
                    assert(ready.records_of(p).running == before.records_of(p).running);
                },
                None => {},
            }
            assert(listener(&ready, node) is None);
            lemma_chain_transfers(&before, &ready, On::spec_new(r, node));
        }
        let delivered = self.step();
        proof {
            assert(self.pending@ =~= Seq::<Pending>::empty());
            assert forall|m: Node| before.contains(m) implies (#[trigger] self.tree.records_of(
                m,
            )).running == before.records_of(m).running && same_setup(
                self.tree.records_of(m),
                before.records_of(m),
            ) by {
                assert(same_setup(ready.records_of(m), before.records_of(m)));
                assert(ready.records_of(m).running == (before.records_of(m).running || m == node));
            }
        }
        match delivered {
            Delivered::Result(hops) => {
                let mut hops = hops;
                log.append(&mut hops);
                proof {
                    let chain = bubble_chain(&before, On::spec_new(r, node));
                    assert(log@ == during + chain);
                    assert(log@.subrange(log@.len() - chain.len(), log@.len() as int) =~= chain);
                    assert forall|k: int| 0 <= k < log@.len() - chain.len() implies (
                    #[trigger] log@[k]).origin != node by {
                        assert(log@[k] == during[k]);
                    }
                }
            },
            _ => {
                proof {
                    assert(false);
                }
            },
        }
        log
    }
}

/// Whether a run of `node` comes to its result by itself.
pub fn check_settles(tree: &Tree, node: Node) -> (b: bool)
    requires
        tree.wf(),
    ensures
        b == settles(tree, node),
    decreases tree.nodes@.len() - node.0,
{
    if !tree.has(node) {
        return false;
    }
    let r = tree.records(node);
    if !r.alive || r.running {
        return false;
    }
    let children = tree.children(node);
    proof {
        assert(tree.node_wf(node.0 as int));
    }
    match r.action {
        Some(Action::RespondWith(_)) => true,
        Some(Action::Sequence) | Some(Action::Fallback) => {
            let mut k: usize = 0;
            while k < children.len()
                invariant
                    tree.wf(),
                    tree.contains(node),
                    r == tree.records_of(node),
                    r.alive,
                    !r.running,
                    r.action == Some(Action::Sequence) || r.action == Some(Action::Fallback),
                    children@ == tree.children_of(node),
                    k <= children@.len(),
                    forall|j: int|
                        0 <= j < k ==> {
                            &&& #[trigger] hears_child(tree, node, children@[j])
                            &&& settles(tree, children@[j])
                        },
                decreases children@.len() - k,
            {
                let c = children[k];
                proof {
                    assert(tree.node_wf(node.0 as int));
                    assert(children@[k as int] == c);
                }
                if tree.records(c).no_bubble {
                    proof {
                        assert(!hears_child(tree, node, children@[k as int]));
                    }
                    return false;
                }
                if !check_settles(tree, c) {
                    proof {
                        assert(!settles(tree, children@[k as int]));
                        assert(hears_child(tree, node, children@[k as int]));
                    }
                    return false;
                }
                k = k + 1;
            }
            true
        },
        Some(Action::ScoreSelector) => {
            proof {
                law_winner_is_first_maximum(child_scores(tree, children@));
            }
            match score_on_run(tree, children) {
                Decision::Run(c) => !tree.records(c).no_bubble && check_settles(tree, c),
                _ => true,
            }
        },
        Some(Action::Repeat { max, .. }) => {
            if children.len() == 0 {
                true
            } else {
                let c = children[0];
                max.is_some() && !tree.records(c).no_bubble && check_settles(tree, c)
            }
        },
        _ => false,
    }
}

impl Engine {
    /// Runs `node` to its result where that is sure to come: nothing is
    /// pending, the registry holds the engine's own handlers, the run of
    /// `node` settles and no running parent waits for it. Returns `None`,
    /// and changes nothing, where one of these does not hold.
    pub fn try_run_to_completion(&mut self, node: Node) -> (log: Option<Vec<On<RunResult>>>)
        requires
            old(self).wf(),
        ensures
            final(self).wf(),
            final(self).observers == old(self).observers,
            log is Some <==> {
                &&& old(self).observers.is_standard()
                &&& old(self).pending@.len() == 0
                &&& settles(&old(self).tree, node)
                &&& listener(&old(self).tree, node) is None
            },
            log is None ==> *final(self) == *old(self),
            log matches Some(l) ==> {
                &&& same_setup_trees(&final(self).tree, &old(self).tree)
                &&& forall|m: Node|
                    old(self).tree.contains(m) ==> (#[trigger] final(self).tree.records_of(
                        m,
                    )).running == old(self).tree.records_of(m).running
                &&& final(self).pending@.len() == 0
                &&& reported_once(l@, &old(self).tree, node, outcome(&old(self).tree, node))
            },
    {
        if self.pending.len() != 0 || !self.observers.check_standard() {
            return None;
        }
        if !check_settles(&self.tree, node) {
            return None;
        }
        if self.find_listener(node).is_some() {
            return None;
        }
        Some(self.run_to_completion(node))
    }
}

} // verus!
