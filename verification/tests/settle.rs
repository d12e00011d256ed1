use beet_flow::action_observers::observer_plugin;
use beet_flow::action_observers::ActionKind;
use beet_flow::action_observers::ActionObserverMap;
use beet_flow::action_observers::Handler;
use beet_flow::engine::Engine;
use beet_flow::engine::Pending;
use beet_flow::event::EventKind;
use beet_flow::event::On;
use beet_flow::node::Node;
use beet_flow::node::RunResult;
use beet_flow::response::NoBubble;
use beet_flow::score::Score;
use beet_flow::settle::check_settles;
use beet_flow::tree::Action;
use beet_flow::tree::Records;
use beet_flow::tree::RepeatPolicy;
use beet_flow::tree::Tree;

use RunResult::Failure;
use RunResult::Success;

fn leaf(tree: &mut Tree, parent: Node, result: RunResult) -> Node {
    let n = tree.spawn(Records::new(Some(Action::RespondWith(result))));
    assert!(tree.add_child(parent, n));
    n
}

fn inner(tree: &mut Tree, parent: Node, action: Action) -> Node {
    let n = tree.spawn(Records::new(Some(action)));
    assert!(tree.add_child(parent, n));
    n
}

fn engine_over(tree: Tree) -> Engine {
    let mut observers = ActionObserverMap::new();
    observer_plugin(&mut observers);
    Engine::new(tree, observers)
}

/// fallback [ sequence [ok, fail, ok], score [fail@1, ok@5, fail@5] ]
fn sample() -> (Tree, Node, Vec<Node>) {
    let mut tree = Tree::new();
    let root = tree.spawn(Records::new(Some(Action::Fallback)));
    let seq = inner(&mut tree, root, Action::Sequence);
    let a = leaf(&mut tree, seq, Success);
    let b = leaf(&mut tree, seq, Failure);
    let c = leaf(&mut tree, seq, Success);
    let pick = inner(&mut tree, root, Action::ScoreSelector);
    let low = leaf(&mut tree, pick, Failure);
    let high = leaf(&mut tree, pick, Success);
    let tied = leaf(&mut tree, pick, Failure);
    for (n, w) in [(low, 1), (high, 5), (tied, 5)] {
        let mut r = tree.records(n);
        r.score = Some(Score::Weight(w));
        tree.set_records(n, r);
    }
    (tree, root, vec![seq, a, b, c, pick, low, high, tied])
}

#[test]
fn the_root_reports_exactly_once() {
    let (tree, root, nodes) = sample();
    let (seq, b, pick, high) = (nodes[0], nodes[2], nodes[4], nodes[6]);
    let mut engine = engine_over(tree);
    let log = engine.run_to_completion(root);

    let own: Vec<&On<RunResult>> =
        log.iter().filter(|e| e.origin == root && e.action == root).collect();
    assert_eq!(own.len(), 1);
    assert_eq!(own[0].payload, Success);
    assert_eq!(log.last().unwrap(), &On::new(Success, root));
    assert_eq!(log.iter().filter(|e| e.origin == root).count(), 1);

    // what the nodes below reported, each to itself, in order
    let reports: Vec<(Node, RunResult)> = log
        .iter()
        .filter(|e| e.origin == e.action)
        .map(|e| (e.origin, e.payload))
        .collect();
    assert_eq!(
        reports,
        vec![
            (nodes[1], Success),
            (b, Failure),
            (seq, Failure),
            (high, Success),
            (pick, Success),
            (root, Success)
        ]
    );
    assert!(engine.pending.is_empty());
    for i in 0..engine.tree.node_count() {
        assert!(!engine.tree.records(Node(i)).running);
    }
}

#[test]
fn a_settled_run_can_be_run_again() {
    let (tree, root, _) = sample();
    let mut engine = engine_over(tree);
    let first = engine.run_to_completion(root);
    let second = engine.run_to_completion(root);
    assert_eq!(first, second);
}

#[test]
fn settling_is_checked() {
    let (mut tree, root, nodes) = sample();
    assert!(check_settles(&tree, root));
    assert!(check_settles(&tree, nodes[0]));
    assert!(!check_settles(&tree, Node(99)));

    let waiting = tree.spawn(Records::new(Some(Action::External(1))));
    assert!(!check_settles(&tree, waiting));
    let bare = tree.spawn(Records::new(None));
    assert!(!check_settles(&tree, bare));
    let forever = tree.spawn(Records::new(Some(Action::Repeat {
        policy: RepeatPolicy::Always,
        max: None,
    })));
    assert!(check_settles(&tree, forever));
    leaf(&mut tree, forever, Success);
    assert!(!check_settles(&tree, forever));
    let bounded = tree.spawn(Records::new(Some(Action::Repeat {
        policy: RepeatPolicy::Always,
        max: Some(1),
    })));
    leaf(&mut tree, bounded, Success);
    assert!(check_settles(&tree, bounded));

    // a child that keeps its result to itself leaves the sequence waiting
    NoBubble::insert(&mut tree, nodes[3]);
    assert!(!check_settles(&tree, nodes[0]));
    assert!(!check_settles(&tree, root));
}

#[test]
fn only_the_winner_of_a_score_selector_has_to_settle() {
    let mut tree = Tree::new();
    let root = tree.spawn(Records::new(Some(Action::ScoreSelector)));
    let stuck = tree.spawn(Records { score: Some(Score::Weight(1)), ..Records::new(None) });
    assert!(tree.add_child(root, stuck));
    let fine = tree.spawn(Records {
        score: Some(Score::Weight(2)),
        ..Records::new(Some(Action::RespondWith(Failure)))
    });
    assert!(tree.add_child(root, fine));
    assert!(check_settles(&tree, root));
    let mut engine = engine_over(tree);
    let log = engine.try_run_to_completion(root).unwrap();
    assert_eq!(log.last().unwrap().payload, Failure);

    let mut r = engine.tree.records(stuck);
    r.score = Some(Score::Weight(3));
    engine.tree.set_records(stuck, r);
    assert!(!check_settles(&engine.tree, root));
    assert_eq!(engine.try_run_to_completion(root), None);
}

#[test]
fn try_run_refuses_what_may_not_end() {
    let (tree, root, nodes) = sample();

    let mut engine = engine_over(tree);
    engine.pending.push(Pending::Run(nodes[1]));
    assert_eq!(engine.try_run_to_completion(root), None);
    assert_eq!(engine.pending, vec![Pending::Run(nodes[1])]);
    engine.pending.clear();

    // a running parent waits for the sequence
    engine.trigger_run(root);
    engine.pending.clear();
    assert_eq!(engine.try_run_to_completion(nodes[0]), None);
    engine.trigger_interrupt(root);
    assert!(engine.try_run_to_completion(nodes[0]).is_some());

    // a registry without the engine's own handlers
    let (tree, root, _) = sample();
    let mut bare = Engine::new(tree, ActionObserverMap::new());
    assert!(!bare.observers.check_standard());
    assert_eq!(bare.try_run_to_completion(root), None);

    // or with a handler twice
    let (tree, root, _) = sample();
    let mut twice = engine_over(tree);
    assert!(twice.observers.check_standard());
    twice.observers.register(EventKind::Run, ActionKind::Sequence, Handler::FlowOnRun);
    assert!(!twice.observers.check_standard());
    assert_eq!(twice.try_run_to_completion(root), None);
}

#[test]
fn a_subtree_reports_to_its_ancestors_on_the_way() {
    let (tree, _, nodes) = sample();
    let mut engine = engine_over(tree);
    let log = engine.run_to_completion(nodes[0]);
    // the sequence fails at its second child; its own result bubbles to the root
    assert_eq!(
        &log[log.len() - 2..],
        &[
            On::new(Failure, nodes[0]),
            On { payload: Failure, origin: nodes[0], action: Node(0), prev_action: nodes[0] }
        ]
    );
    assert!(!log.iter().any(|e| e.origin == nodes[3]));
}

#[test]
fn a_bounded_repeat_reports_once_after_its_last_run() {
    let mut tree = Tree::new();
    let root = tree.spawn(Records::new(Some(Action::Sequence)));
    let repeat = inner(&mut tree, root, Action::Repeat { policy: RepeatPolicy::OnFailure, max: Some(3) });
    let child = leaf(&mut tree, repeat, Failure);
    let last = leaf(&mut tree, root, Success);
    let mut engine = engine_over(tree);
    let log = engine.run_to_completion(root);

    let runs_of_child = log.iter().filter(|e| e.origin == child && e.action == child).count();
    assert_eq!(runs_of_child, 4);
    assert_eq!(log.iter().filter(|e| e.origin == repeat && e.action == repeat).count(), 1);
    assert_eq!(log.iter().filter(|e| e.origin == root && e.action == root).count(), 1);
    assert!(!log.iter().any(|e| e.origin == last));
    assert_eq!(log.last().unwrap(), &On::new(Failure, root));
    assert_eq!(engine.tree.records(repeat).repeats, 4);
}

#[test]
fn a_repeat_without_a_child_fails_at_once() {
    let mut tree = Tree::new();
    let root = tree.spawn(Records::new(Some(Action::Repeat {
        policy: RepeatPolicy::Always,
        max: None,
    })));
    let mut engine = engine_over(tree);
    assert_eq!(engine.try_run_to_completion(root), Some(vec![On::new(Failure, root)]));
}
