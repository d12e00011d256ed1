//! The protocol: triggering `Run`, `RunResult` and `Interrupt` on the nodes
//! of a tree, and the queue of triggers that the handlers ask for.

use vstd::prelude::*;
use crate::action_observers::ActionObserverMap;
use crate::action_observers::Handler;
use crate::event::EventKind;
use crate::event::Interrupt;
use crate::event::On;
use crate::node::Node;
use crate::node::RunResult;
use crate::response::bubble_chain;
use crate::response::next_hop;
use crate::response::propagate_response_to_parent_observers;
use crate::score::RunTimer;
use crate::selectors::flow_on_child_result;
use crate::selectors::flow_on_child_result_spec;
use crate::selectors::flow_on_run;
use crate::selectors::flow_on_run_spec;
use crate::selectors::repeat_on_child_result;
use crate::selectors::repeat_on_child_result_spec;
use crate::selectors::repeat_on_run;
use crate::selectors::repeat_on_run_spec;
use crate::selectors::score_on_child_result;
use crate::selectors::score_on_child_result_spec;
use crate::selectors::score_on_run;
use crate::selectors::score_on_run_spec;
use crate::selectors::Decision;
use crate::tree::in_subtree;
use crate::tree::is_in_subtree;
use crate::tree::Action;
use crate::tree::Records;
use crate::tree::Tree;

verus! {

/// A trigger that a handler has asked for and that is not delivered yet.
#[derive(Clone, Copy, Debug, PartialEq, Eq, Hash, Structural)]
pub enum Pending {
    Run(Node),
    Result(Node, RunResult),
    Interrupt(Node),
}

/// The tree, the registry and the triggers that wait for delivery, oldest
/// first.
pub struct Engine {
    pub tree: Tree,
    pub observers: ActionObserverMap,
    pub pending: Vec<Pending>,
}

/// The handlers that an event of `kind` reaches on `node`.
pub open spec fn reached(
    tree: &Tree,
    observers: &ActionObserverMap,
    kind: EventKind,
    node: Node,
) -> Seq<Handler> {
    if tree.contains(node) && tree.records_of(node).alive {
        observers.dispatched(kind, tree.records_of(node).action)
    } else {
        Seq::empty()
    }
}

/// Whether a `Run` on `node` starts a run: the node exists, has not been
/// despawned and is not running. A `Run` on a running node is ignored.
pub open spec fn run_accepted(tree: &Tree, node: Node) -> bool {
    &&& tree.contains(node)
    &&& tree.records_of(node).alive
    &&& !tree.records_of(node).running
}

/// Whether a result of `node` ends a run: the node exists, has not been
/// despawned and is running. A result of a node that is not running matches
/// no `Run` and is dropped.
pub open spec fn result_accepted(tree: &Tree, node: Node) -> bool {
    &&& tree.contains(node)
    &&& tree.records_of(node).alive
    &&& tree.records_of(node).running
}

/// The records of a node whose run begins: `Running` is there, the timer
/// starts anew and no repeat has been counted.
pub open spec fn started(r: Records) -> Records {
    Records {
        running: true,
        timer: match r.timer {
            Some(_) => Some(RunTimer { ticks: 0 }),
            None => None,
        },
        repeats: 0,
        ..r
    }
}

/// What `handler` decides when `node` is run. A handler that does not find
/// the action record it expects on the node decides nothing.
pub open spec fn on_run_decision(tree: &Tree, node: Node, handler: Handler) -> Decision {
    let children = tree.children_of(node);
    match (handler, tree.records_of(node).action) {
        (Handler::FlowOnRun, Some(Action::Sequence)) => flow_on_run_spec(
            children,
            RunResult::Failure,
        ),
        (Handler::FlowOnRun, Some(Action::Fallback)) => flow_on_run_spec(
            children,
            RunResult::Success,
        ),
        (Handler::ScoreOnRun, Some(Action::ScoreSelector)) => score_on_run_spec(tree, children),
        (Handler::RepeatOnRun, Some(Action::Repeat { .. })) => repeat_on_run_spec(children),
        (Handler::RespondOnRun, Some(Action::RespondWith(r))) => Decision::Report(r),
        _ => Decision::Idle,
    }
}

/// What `handler` decides when `child` reports `result` to `node`.
pub open spec fn on_child_result_decision(
    tree: &Tree,
    node: Node,
    handler: Handler,
    child: Node,
    result: RunResult,
) -> Decision {
    let children = tree.children_of(node);
    match (handler, tree.records_of(node).action) {
        (Handler::FlowOnChildResult, Some(Action::Sequence)) => flow_on_child_result_spec(
            children,
            child,
            result,
            RunResult::Failure,
        ),
        (Handler::FlowOnChildResult, Some(Action::Fallback)) => flow_on_child_result_spec(
            children,
            child,
            result,
            RunResult::Success,
        ),
        (Handler::ScoreOnChildResult, Some(Action::ScoreSelector)) => score_on_child_result_spec(
            children,
            child,
            result,
        ),
        (
            Handler::RepeatOnChildResult,
            Some(Action::Repeat { policy, max }),
        ) => repeat_on_child_result_spec(
            policy,
            max,
            tree.records_of(node).repeats,
            children,
            child,
            result,
        ),
        _ => Decision::Idle,
    }
}

/// The trigger that carries out a decision of a handler of `node`.
pub open spec fn as_pending(node: Node, d: Decision) -> Seq<Pending> {
    match d {
        Decision::Idle => Seq::empty(),
        Decision::Run(child) => seq![Pending::Run(child)],
        Decision::Report(r) => seq![Pending::Result(node, r)],
    }
}

/// The triggers that `handlers` ask for, in their order, when `node` is run.
pub open spec fn run_triggers(tree: &Tree, node: Node, handlers: Seq<Handler>) -> Seq<Pending>
    decreases handlers.len(),
{
    if handlers.len() == 0 {
        Seq::empty()
    } else {
        run_triggers(tree, node, handlers.drop_last()) + as_pending(
            node,
            on_run_decision(tree, node, handlers.last()),
        )
    }
}

/// The triggers that `handlers` ask for, in their order, when `child`
/// reports `result` to `node`.
pub open spec fn child_result_triggers(
    tree: &Tree,
    node: Node,
    handlers: Seq<Handler>,
    child: Node,
    result: RunResult,
) -> Seq<Pending>
    decreases handlers.len(),
{
    if handlers.len() == 0 {
        Seq::empty()
    } else {
        child_result_triggers(tree, node, handlers.drop_last(), child, result) + as_pending(
            node,
            on_child_result_decision(tree, node, handlers.last(), child, result),
        )
    }
}

/// The parent that hears a result of `node`: the result passes on from the
/// node, and its parent is there and running.
pub open spec fn listener(tree: &Tree, node: Node) -> Option<Node> {
    if crate::response::passes_on(tree, node) {
        match tree.parent_of(node) {
            Some(p) => if tree.contains(p) && tree.records_of(p).alive && tree.records_of(
                p,
            ).running {
                Some(p)
            } else {
                None
            },
            None => None,
        }
    } else {
        None
    }
}

/// Whether a report of `child` counts as one more repeat of `parent`.
pub open spec fn counts_repeat(tree: &Tree, parent: Node, child: Node) -> bool {
    &&& listener(tree, child) == Some(parent)
    &&& tree.records_of(parent).action matches Some(Action::Repeat { .. })
    &&& tree.children_of(parent).len() > 0
    &&& tree.children_of(parent)[0] == child
}

/// One more repeat; the count stays at its maximum once reached.
pub open spec fn bumped(repeats: u32) -> u32 {
    if repeats == u32::MAX {
        u32::MAX
    } else {
        (repeats + 1) as u32
    }
}

/// The records of slot `i` once an accepted result of `node` has been
/// delivered: `Running` has left `node`, and a repeating parent that hears
/// the result has counted it.
pub open spec fn records_after_result(tree: &Tree, node: Node, i: Node) -> Records {
    let r = tree.records_of(i);
    if i == node {
        Records { running: false, ..r }
    } else if counts_repeat(tree, i, node) {
        Records { repeats: bumped(r.repeats), ..r }
    } else {
        r
    }
}

/// The triggers that the handlers of the parent ask for when an accepted
/// result of `node` is delivered.
pub open spec fn result_triggers(
    tree: &Tree,
    observers: &ActionObserverMap,
    node: Node,
    result: RunResult,
) -> Seq<Pending> {
    match listener(tree, node) {
        Some(p) => child_result_triggers(
            tree,
            p,
            observers.dispatched(EventKind::RunResult, tree.records_of(p).action),
            node,
            result,
        ),
        None => Seq::empty(),
    }
}

/// The records of slot `i` once an accepted `Run` has reached `node`.
pub open spec fn records_after_run(tree: &Tree, node: Node, i: Node) -> Records {
    if i == node {
        started(tree.records_of(i))
    } else {
        tree.records_of(i)
    }
}

/// The records of slot `i` once an accepted interruption has reached
/// `node`: `Running` has left the node and every node below it.
pub open spec fn records_after_interrupt(tree: &Tree, node: Node, i: Node) -> Records {
    let r = tree.records_of(i);
    if in_subtree(tree, i, node) {
        Records { running: false, ..r }
    } else {
        r
    }
}

impl Pending {
    pub open spec fn spec_target(self) -> Node {
        match self {
            Pending::Run(n) => n,
            Pending::Result(n, _) => n,
            Pending::Interrupt(n) => n,
        }
    }

    /// The node that the trigger is for.
    #[verifier::when_used_as_spec(spec_target)]
    pub fn target(self) -> (n: Node)
        ensures
            n == self.spec_target(),
    {
        match self {
            Pending::Run(n) => n,
            Pending::Result(n, _) => n,
            Pending::Interrupt(n) => n,
        }
    }
}

/// The triggers among `pending` that are for no node of the subtree of
/// `root`, in the same order.
pub open spec fn outside_subtree(pending: Seq<Pending>, tree: &Tree, root: Node) -> Seq<Pending>
    decreases pending.len(),
{
    if pending.len() == 0 {
        Seq::empty()
    } else {
        let rest = outside_subtree(pending.drop_last(), tree, root);
        if in_subtree(tree, pending.last().spec_target(), root) {
            rest
        } else {
            rest.push(pending.last())
        }
    }
}

/// The records of a node after one tick: the timer of a running node has
/// counted it.
pub open spec fn ticked(r: Records) -> Records {
    match r.timer {
        Some(t) => if r.running && r.alive && t.ticks < u64::MAX {
            Records { timer: Some(RunTimer { ticks: (t.ticks + 1) as u64 }), ..r }
        } else {
            r
        },
        None => r,
    }
}

/// What a step of the engine has delivered.
pub enum Delivered {
    /// No trigger was pending.
    Nothing,
    /// A `Run` for this node, and the handlers it reached.
    Run(Node, Vec<Handler>),
    /// A result, with each hop of its way up.
    Result(Vec<On<RunResult>>),
    /// An interruption, with the event handed to the node, if it was running.
    Interrupt(Option<On<Interrupt>>),
}

/// Runs one handler of a node that is run.
pub fn decide_on_run(tree: &Tree, node: Node, handler: Handler) -> (d: Decision)
    requires
        tree.wf(),
        tree.contains(node),
    ensures
        d == on_run_decision(tree, node, handler),
{
    let children = tree.children(node);
    proof {
        assert(tree.node_wf(node.0 as int));
    }
    match (handler, tree.records(node).action) {
        (Handler::FlowOnRun, Some(Action::Sequence)) => flow_on_run(children, RunResult::Failure),
        (Handler::FlowOnRun, Some(Action::Fallback)) => flow_on_run(children, RunResult::Success),
        (Handler::ScoreOnRun, Some(Action::ScoreSelector)) => score_on_run(tree, children),
        (Handler::RepeatOnRun, Some(Action::Repeat { .. })) => repeat_on_run(children),
        (Handler::RespondOnRun, Some(Action::RespondWith(r))) => Decision::Report(r),
        _ => Decision::Idle,
    }
}

/// Runs one handler of a node to which a child reports.
pub fn decide_on_child_result(
    tree: &Tree,
    node: Node,
    handler: Handler,
    child: Node,
    result: RunResult,
) -> (d: Decision)
    requires
        tree.contains(node),
    ensures
        d == on_child_result_decision(tree, node, handler, child, result),
{
    let children = tree.children(node);
    let records = tree.records(node);
    match (handler, records.action) {
        (Handler::FlowOnChildResult, Some(Action::Sequence)) => flow_on_child_result(
            children,
            child,
            result,
            RunResult::Failure,
        ),
        (Handler::FlowOnChildResult, Some(Action::Fallback)) => flow_on_child_result(
            children,
            child,
            result,
            RunResult::Success,
        ),
        (Handler::ScoreOnChildResult, Some(Action::ScoreSelector)) => score_on_child_result(
            children,
            child,
            result,
        ),
        (Handler::RepeatOnChildResult, Some(Action::Repeat { policy, max })) => {
            repeat_on_child_result(policy, max, records.repeats, children, child, result)
        },
        _ => Decision::Idle,
    }
}

/// What `trigger_run` on `node` makes of a tree and of the pending triggers,
/// and which handlers it reaches.
pub open spec fn run_delivered(
    tree: &Tree,
    observers: &ActionObserverMap,
    pending: Seq<Pending>,
    after: &Engine,
    node: Node,
    handlers: Seq<Handler>,
) -> bool {
    if run_accepted(tree, node) {
        &&& after.tree.same_shape(tree)
        &&& forall|n: Node|
            tree.contains(n) ==> #[trigger] after.tree.records_of(n) == records_after_run(
                tree,
                node,
                n,
            )
        &&& handlers == observers.dispatched(EventKind::Run, tree.records_of(node).action)
        &&& after.pending@ == pending + run_triggers(tree, node, handlers)
    } else {
        &&& after.tree == *tree
        &&& after.pending@ == pending
        &&& handlers == Seq::<Handler>::empty()
    }
}

/// What `trigger_result` on `node` makes of a tree and of the pending
/// triggers, and which hops it delivers.
pub open spec fn result_delivered(
    tree: &Tree,
    observers: &ActionObserverMap,
    pending: Seq<Pending>,
    after: &Engine,
    node: Node,
    result: RunResult,
    hops: Seq<On<RunResult>>,
) -> bool {
    if result_accepted(tree, node) {
        &&& after.tree.same_shape(tree)
        &&& forall|n: Node|
            tree.contains(n) ==> #[trigger] after.tree.records_of(n) == records_after_result(
                tree,
                node,
                n,
            )
        &&& hops == bubble_chain(tree, On::spec_new(result, node))
        &&& after.pending@ == pending + result_triggers(tree, observers, node, result)
    } else {
        &&& after.tree == *tree
        &&& after.pending@ == pending
        &&& hops == Seq::<On<RunResult>>::empty()
    }
}

/// What `trigger_interrupt` on `node` makes of a tree and of the pending
/// triggers, and which event it hands to the node.
pub open spec fn interrupt_delivered(
    tree: &Tree,
    pending: Seq<Pending>,
    after: &Engine,
    node: Node,
    ev: Option<On<Interrupt>>,
) -> bool {
    if result_accepted(tree, node) {
        &&& after.tree.same_shape(tree)
        &&& forall|n: Node|
            tree.contains(n) ==> #[trigger] after.tree.records_of(n) == records_after_interrupt(
                tree,
                node,
                n,
            )
        &&& ev == Some(On::spec_new(Interrupt, node))
        &&& after.pending@ == outside_subtree(pending, tree, node)
    } else {
        &&& after.tree == *tree
        &&& after.pending@ == pending
        &&& ev == None::<On<Interrupt>>
    }
}

/// A result ends the run it answers: once an accepted result of a node has
/// been delivered the node is not running, so a second result is dropped
/// until the node is run again, and a new run is accepted.
pub proof fn law_result_ends_run(before: &Tree, after: &Tree, node: Node)
    requires
        result_accepted(before, node),
        after.contains(node),
        after.records_of(node) == records_after_result(before, node, node),
    ensures
        !result_accepted(after, node),
        run_accepted(after, node),
{
}

/// A run waits for its result: once an accepted `Run` has reached a node
/// the node is running, so a second `Run` is ignored and a result is
/// accepted.
pub proof fn law_run_awaits_result(before: &Tree, after: &Tree, node: Node)
    requires
        run_accepted(before, node),
        after.contains(node),
        after.records_of(node) == records_after_run(before, node, node),
    ensures
        !run_accepted(after, node),
        result_accepted(after, node),
{
}

/// An interruption ends the run without a result: once an accepted
/// interruption has reached a node, no result of the node or of a node
/// below it is accepted.
pub proof fn law_interrupt_silences_subtree(before: &Tree, after: &Tree, node: Node, below: Node)
    requires
        result_accepted(before, node),
        in_subtree(before, below, node),
        after.contains(below),
        after.records_of(below) == records_after_interrupt(before, node, below),
    ensures
        !result_accepted(after, below),
{
}

/// Of the hops of a delivered result exactly one, the first, is received
/// by the node that reports: every node on the way up sees the result once.
pub proof fn law_one_result_at_origin(tree: &Tree, node: Node, result: RunResult, k: int)
    requires
        0 <= k < bubble_chain(tree, On::spec_new(result, node)).len(),
    ensures
        (bubble_chain(tree, On::spec_new(result, node))[k].action == node) <==> k == 0,
        bubble_chain(tree, On::spec_new(result, node))[k].payload == result,
        bubble_chain(tree, On::spec_new(result, node))[k].origin == node,
{
    let first = On::spec_new(result, node);
    crate::response::lemma_chain_first(tree, first);
    crate::response::law_origin_constant(tree, first, k);
    if k > 0 {
        crate::response::law_each_node_once(tree, first, 0, k);
    }
}

/// A node with the no-bubble marker keeps the result to itself: the only
/// hop is the one it receives, and no handler of its parent is asked.
pub proof fn law_no_bubble_keeps_result(
    tree: &Tree,
    observers: &ActionObserverMap,
    node: Node,
    result: RunResult,
)
    requires
        tree.contains(node),
        tree.records_of(node).no_bubble,
    ensures
        bubble_chain(tree, On::spec_new(result, node)) == seq![On::spec_new(result, node)],
        result_triggers(tree, observers, node, result) == Seq::<Pending>::empty(),
{
}

/// The parent that hears a result is the receiver of the second hop of its
/// chain.
pub proof fn law_listener_is_second_hop(tree: &Tree, node: Node, result: RunResult)
    requires
        tree.wf(),
        listener(tree, node) is Some,
    ensures
        bubble_chain(tree, On::spec_new(result, node)).len() >= 2,
        bubble_chain(tree, On::spec_new(result, node))[1] == (On {
            payload: result,
            origin: node,
            action: listener(tree, node).unwrap(),
            prev_action: node,
        }),
{
    let first = On::spec_new(result, node);
    assert(tree.node_wf(node.0 as int));
    let second = next_hop(tree, first).unwrap();
    crate::response::lemma_chain_first(tree, second);
}

impl Engine {
    pub open spec fn wf(&self) -> bool {
        self.tree.wf()
    }

    /// An engine over `tree` with the handlers in `observers` and nothing
    /// pending.
    pub fn new(tree: Tree, observers: ActionObserverMap) -> (e: Engine)
        ensures
            e.tree == tree,
            e.observers == observers,
            e.pending@ == Seq::<Pending>::empty(),
    {
        Engine { tree, observers, pending: Vec::new() }
    }

    /// The handlers that an event of `kind` reaches on `node`, in the order
    /// of registration: those registered for the action that the node
    /// carries. A node that is not there, or carries no action, is skipped
    /// silently.
    pub fn dispatch(&self, kind: EventKind, node: Node) -> (handlers: Vec<Handler>)
        ensures
            handlers@ == reached(&self.tree, &self.observers, kind, node),
    {
        if !self.tree.has(node) {
            return Vec::new();
        }
        let records = self.tree.records(node);
        if !records.alive {
            return Vec::new();
        }
        self.observers.dispatch(kind, records.action)
    }

    fn enqueue(&mut self, node: Node, d: Decision)
        ensures
            final(self).tree == old(self).tree,
            final(self).observers == old(self).observers,
            final(self).pending@ == old(self).pending@ + as_pending(node, d),
    {
        match d {
            Decision::Idle => {},
            Decision::Run(child) => {
                self.pending.push(Pending::Run(child));
            },
            Decision::Report(r) => {
                self.pending.push(Pending::Result(node, r));
            },
        }
        proof {
            assert(self.pending@ =~= old(self).pending@ + as_pending(node, d));
        }
    }

    /// Starts a run of `node`: puts `Running` on it, restarts its timer and
    /// hands `Run` to the handlers registered for its action, in the order
    /// of registration. What they ask for joins the pending triggers.
    /// Returns the handlers reached. Nothing happens where the run is not
    /// accepted.
    pub fn trigger_run(&mut self, node: Node) -> (handlers: Vec<Handler>)
        requires
            old(self).wf(),
        ensures
            final(self).wf(),
            final(self).observers == old(self).observers,
            run_delivered(
                &old(self).tree,
                &old(self).observers,
                old(self).pending@,
                &*final(self),
                node,
                handlers@,
            ),
    {
        if !self.tree.has(node) {
            return Vec::new();
        }
        let records = self.tree.records(node);
        if !records.alive || records.running {
            return Vec::new();
        }
        let handlers = self.observers.dispatch(EventKind::Run, records.action);
        let mut k: usize = 0;
        while k < handlers.len()
            invariant
                k <= handlers@.len(),
                self.tree == old(self).tree,
                self.observers == old(self).observers,
                self.tree.wf(),
                self.tree.contains(node),
                self.pending@ == old(self).pending@ + run_triggers(
                    &old(self).tree,
                    node,
                    handlers@.subrange(0, k as int),
                ),
            decreases handlers@.len() - k,
        {
            let d = decide_on_run(&self.tree, node, handlers[k]);
            proof {
                assert(handlers@.subrange(0, k + 1).drop_last() == handlers@.subrange(0, k as int));
            }
            self.enqueue(node, d);
            k = k + 1;
        }
        proof {
            assert(handlers@.subrange(0, k as int) == handlers@);
        }
        let mut r = records;
        r.running = true;
        r.repeats = 0;
        r.timer = match records.timer {
            Some(_) => Some(RunTimer::new()),
            None => None,
        };
        self.tree.set_records(node, r);
        proof {
            old(self).tree.lemma_same_shape_wf(&self.tree);
        }
        handlers
    }

    /// The parent that hears a result of `node`, if there is one.
    pub fn find_listener(&self, node: Node) -> (p: Option<Node>)
        requires
            self.wf(),
        ensures
            p == listener(&self.tree, node),
            p matches Some(q) ==> q.0 < node.0,
    {
        if !self.tree.has(node) {
            return None;
        }
        let r = self.tree.records(node);
        if !r.alive || r.no_bubble {
            return None;
        }
        proof {
            assert(self.tree.node_wf(node.0 as int));
        }
        match self.tree.parent(node) {
            Some(p) => {
                if self.tree.has(p) {
                    let pr = self.tree.records(p);
                    if pr.alive && pr.running {
                        return Some(p);
                    }
                }
                None
            },
            None => None,
        }
    }

    /// Ends the run of `node` with `result`: takes `Running` off the node,
    /// delivers the result to the node itself and lets it bubble towards the
    /// root. A running parent that hears it hands it to the handlers
    /// registered for its action, in the order of registration, and what
    /// they ask for joins the pending triggers. Returns every delivery, in
    /// order. Nothing happens, and nothing is delivered, where the result is
    /// not accepted.
    pub fn trigger_result(&mut self, node: Node, result: RunResult) -> (hops: Vec<On<RunResult>>)
        requires
            old(self).wf(),
        ensures
            final(self).wf(),
            final(self).observers == old(self).observers,
            result_delivered(
                &old(self).tree,
                &old(self).observers,
                old(self).pending@,
                &*final(self),
                node,
                result,
                hops@,
            ),
    {
        if !self.tree.has(node) {
            return Vec::new();
        }
        let records = self.tree.records(node);
        if !records.alive || !records.running {
            return Vec::new();
        }
        let hops = On::new(result, node).trigger_bubble(&self.tree);
        let heard_by = self.find_listener(node);
        match heard_by {
            None => {
                let mut r = records;
                r.running = false;
                self.tree.set_records(node, r);
            },
            Some(p) => {
                let parent_records = self.tree.records(p);
                let handlers = self.observers.dispatch(EventKind::RunResult, parent_records.action);
                let mut k: usize = 0;
                while k < handlers.len()
                    invariant
                        k <= handlers@.len(),
                        self.tree == old(self).tree,
                        self.observers == old(self).observers,
                        self.tree.contains(p),
                        self.pending@ == old(self).pending@ + child_result_triggers(
                            &old(self).tree,
                            p,
                            handlers@.subrange(0, k as int),
                            node,
                            result,
                        ),
                    decreases handlers@.len() - k,
                {
                    let d = decide_on_child_result(&self.tree, p, handlers[k], node, result);
                    proof {
                        assert(handlers@.subrange(0, k + 1).drop_last() == handlers@.subrange(
                            0,
                            k as int,
                        ));
                    }
                    self.enqueue(p, d);
                    k = k + 1;
                }
                proof {
                    assert(handlers@.subrange(0, k as int) == handlers@);
                }
                let counts = match parent_records.action {
                    Some(Action::Repeat { .. }) => {
                        let siblings = self.tree.children(p);
                        siblings.len() > 0 && siblings[0] == node
                    },
                    _ => false,
                };
                let mut r = records;
                r.running = false;
                self.tree.set_records(node, r);
                if counts {
                    let mut pr = parent_records;
                    if pr.repeats < u32::MAX {
                        pr.repeats = pr.repeats + 1;
                    }
                    self.tree.set_records(p, pr);
                }
            },
        }
        proof {
            old(self).tree.lemma_same_shape_wf(&self.tree);
            assert forall|n: Node| old(self).tree.contains(n) implies #[trigger] self.tree.records_of(
                n,
            ) == records_after_result(&old(self).tree, node, n) by {
                assert(old(self).tree.node_wf(node.0 as int));
            }
        }
        hops
    }

    /// Pre-empts `node`: takes `Running` off the node and every node below
    /// it and drops the pending triggers for those nodes. The event is handed
    /// to the node alone and does not bubble. Nothing happens where the node
    /// is not running.
    pub fn trigger_interrupt(&mut self, node: Node) -> (ev: Option<On<Interrupt>>)
        requires
            old(self).wf(),
        ensures
            final(self).wf(),
            final(self).observers == old(self).observers,
            interrupt_delivered(&old(self).tree, old(self).pending@, &*final(self), node, ev),
    {
        if !self.tree.has(node) {
            return None;
        }
        let records = self.tree.records(node);
        if !records.alive || !records.running {
            return None;
        }
        let mut kept: Vec<Pending> = Vec::new();
        let mut k: usize = 0;
        while k < self.pending.len()
            invariant
                k <= self.pending@.len(),
                *self == *old(self),
                self.tree.wf(),
                kept@ == outside_subtree(
                    old(self).pending@.subrange(0, k as int),
                    &old(self).tree,
                    node,
                ),
            decreases self.pending@.len() - k,
        {
            let t = self.pending[k];
            proof {
                assert(self.pending@.subrange(0, k + 1).drop_last() == self.pending@.subrange(
                    0,
                    k as int,
                ));
            }
            if !is_in_subtree(&self.tree, t.target(), node) {
                kept.push(t);
            }
            k = k + 1;
        }
        proof {
            assert(self.pending@.subrange(0, k as int) == self.pending@);
        }
        let count: usize = self.tree.node_count();
        let mut inside: Vec<bool> = Vec::new();
        let mut i: usize = 0;
        while i < count
            invariant
                i <= count,
                count == self.tree.nodes@.len(),
                *self == *old(self),
                self.tree.wf(),
                inside@.len() == i,
                forall|j: int|
                    0 <= j < i ==> inside@[j] == in_subtree(&old(self).tree, Node(j as usize), node),
            decreases count - i,
        {
            let b = is_in_subtree(&self.tree, Node(i), node);
            inside.push(b);
            i = i + 1;
        }
        let mut i: usize = 0;
        while i < count
            invariant
                i <= count,
                count == old(self).tree.nodes@.len(),
                inside@.len() == count,
                forall|j: int|
                    0 <= j < count ==> inside@[j] == in_subtree(
                        &old(self).tree,
                        Node(j as usize),
                        node,
                    ),
                self.observers == old(self).observers,
                self.pending == old(self).pending,
                self.tree.same_shape(&old(self).tree),
                forall|j: int|
                    0 <= j < i ==> (#[trigger] self.tree.nodes@[j]).records
                        == records_after_interrupt(&old(self).tree, node, Node(j as usize)),
                forall|j: int| i <= j < count ==> self.tree.nodes@[j] == old(self).tree.nodes@[j],
            decreases count - i,
        {
            if inside[i] {
                let mut r = self.tree.records(Node(i));
                r.running = false;
                self.tree.set_records(Node(i), r);
            }
            i = i + 1;
        }
        self.pending = kept;
        proof {
            old(self).tree.lemma_same_shape_wf(&self.tree);
            assert forall|n: Node| old(self).tree.contains(n) implies #[trigger] self.tree.records_of(
                n,
            ) == records_after_interrupt(&old(self).tree, node, n) by {
                assert(Node(n.0 as int as usize) == n);
                assert(self.tree.nodes@[n.0 as int].records == records_after_interrupt(
                    &old(self).tree,
                    node,
                    Node(n.0 as int as usize),
                ));
            }
        }
        Some(On::new(Interrupt, node))
    }

    /// Counts one tick on the timer of every running node.
    pub fn tick(&mut self)
        requires
            old(self).wf(),
        ensures
            final(self).wf(),
            final(self).observers == old(self).observers,
            final(self).pending == old(self).pending,
            final(self).tree.same_shape(&old(self).tree),
            forall|n: Node|
                old(self).tree.contains(n) ==> #[trigger] final(self).tree.records_of(n) == ticked(
                    old(self).tree.records_of(n),
                ),
    {
        let count: usize = self.tree.node_count();
        let mut i: usize = 0;
        while i < count
            invariant
                i <= count,
                count == old(self).tree.nodes@.len(),
                self.observers == old(self).observers,
                self.pending == old(self).pending,
                self.tree.same_shape(&old(self).tree),
                forall|j: int|
                    0 <= j < i ==> (#[trigger] self.tree.nodes@[j]).records == ticked(
                        old(self).tree.nodes@[j].records,
                    ),
                forall|j: int| i <= j < count ==> self.tree.nodes@[j] == old(self).tree.nodes@[j],
            decreases count - i,
        {
            let mut r = self.tree.records(Node(i));
            if r.running && r.alive {
                match r.timer {
                    Some(t) => {
                        let mut t2 = t;
                        t2.tick();
                        r.timer = Some(t2);
                        self.tree.set_records(Node(i), r);
                    },
                    None => {},
                }
            }
            i = i + 1;
        }
        proof {
            old(self).tree.lemma_same_shape_wf(&self.tree);
        }
    }

    /// Delivers the oldest pending trigger, if there is one, as
    /// `trigger_run`, `trigger_result` or `trigger_interrupt` would.
    pub fn step(&mut self) -> (done: Delivered)
        requires
            old(self).wf(),
        ensures
            final(self).wf(),
            final(self).observers == old(self).observers,
            old(self).pending@.len() == 0 ==> done is Nothing && *final(self) == *old(self),
            old(self).pending@.len() > 0 ==> match old(self).pending@[0] {
                Pending::Run(n) => {
                    &&& done matches Delivered::Run(m, handlers)
                    &&& m == n
                    &&& run_delivered(
                        &old(self).tree,
                        &old(self).observers,
                        old(self).pending@.drop_first(),
                        &*final(self),
                        n,
                        handlers@,
                    )
                },
                Pending::Result(n, r) => {
                    &&& done matches Delivered::Result(hops)
                    &&& result_delivered(
                        &old(self).tree,
                        &old(self).observers,
                        old(self).pending@.drop_first(),
                        &*final(self),
                        n,
                        r,
                        hops@,
                    )
                },
                Pending::Interrupt(n) => {
                    &&& done matches Delivered::Interrupt(ev)
                    &&& interrupt_delivered(
                        &old(self).tree,
                        old(self).pending@.drop_first(),
                        &*final(self),
                        n,
                        ev,
                    )
                },
            },
    {
        if self.pending.len() == 0 {
            return Delivered::Nothing;
        }
        let next = self.pending.remove(0);
        proof {
            assert(self.pending@ =~= old(self).pending@.drop_first());
        }
        match next {
            Pending::Run(n) => {
                let handlers = self.trigger_run(n);
                Delivered::Run(n, handlers)
            },
            Pending::Result(n, r) => {
                let hops = self.trigger_result(n, r);
                Delivered::Result(hops)
            },
            Pending::Interrupt(n) => {
                let ev = self.trigger_interrupt(n);
                Delivered::Interrupt(ev)
            },
        }
    }
}

} // verus!
