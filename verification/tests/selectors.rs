use beet_flow::action_observers::observer_plugin;
use beet_flow::action_observers::ActionObserverMap;
use beet_flow::engine::Delivered;
use beet_flow::engine::Engine;
use beet_flow::engine::Pending;
use beet_flow::node::Node;
use beet_flow::node::RunResult;
use beet_flow::response::NoBubble;
use beet_flow::score::Score;
use beet_flow::selectors::flow_on_child_result;
use beet_flow::selectors::flow_on_run;
use beet_flow::selectors::highest_score;
use beet_flow::selectors::position;
use beet_flow::selectors::repeat_on_child_result;
use beet_flow::selectors::repeat_on_run;
use beet_flow::selectors::score_on_child_result;
use beet_flow::selectors::score_on_run;
use beet_flow::selectors::Decision;
use beet_flow::tree::Action;
use beet_flow::tree::Records;
use beet_flow::tree::RepeatPolicy;
use beet_flow::tree::Tree;

use RunResult::Failure;
use RunResult::Success;

/// A root with `action` over leaves that respond with `results`.
fn flat(action: Action, results: &[RunResult]) -> (Engine, Node, Vec<Node>) {
    let mut tree = Tree::new();
    let root = tree.spawn(Records::new(Some(action)));
    let mut leaves = Vec::new();
    for r in results {
        let leaf = tree.spawn(Records::new(Some(Action::RespondWith(*r))));
        assert!(tree.add_child(root, leaf));
        leaves.push(leaf);
    }
    let mut observers = ActionObserverMap::new();
    observer_plugin(&mut observers);
    (Engine::new(tree, observers), root, leaves)
}

/// Steps until nothing is pending. Returns the nodes that were run, in
/// order, and the results that were delivered to their own node.
fn drain(engine: &mut Engine) -> (Vec<Node>, Vec<(Node, RunResult)>) {
    let mut ran = Vec::new();
    let mut results = Vec::new();
    for _ in 0..1000 {
        match engine.step() {
            Delivered::Nothing => return (ran, results),
            Delivered::Run(n, _) => ran.push(n),
            Delivered::Result(hops) => {
                if !hops.is_empty() {
                    results.push((hops[0].action, hops[0].payload));
                }
            }
            Delivered::Interrupt(_) => {}
        }
    }
    panic!("the engine did not come to rest");
}

fn run(engine: &mut Engine, root: Node) -> (Vec<Node>, Vec<(Node, RunResult)>) {
    engine.pending.push(Pending::Run(root));
    drain(engine)
}

fn result_of(results: &[(Node, RunResult)], node: Node) -> Vec<RunResult> {
    results.iter().filter(|(n, _)| *n == node).map(|(_, r)| *r).collect()
}

#[test]
fn sequence_succeeds_when_all_succeed() {
    let (mut engine, root, leaves) = flat(Action::Sequence, &[Success, Success, Success]);
    let (ran, results) = run(&mut engine, root);
    assert_eq!(ran, vec![root, leaves[0], leaves[1], leaves[2]]);
    assert_eq!(result_of(&results, root), vec![Success]);
}

#[test]
fn sequence_fails_at_the_first_failure() {
    let (mut engine, root, leaves) = flat(Action::Sequence, &[Success, Failure, Success]);
    let (ran, results) = run(&mut engine, root);
    assert_eq!(ran, vec![root, leaves[0], leaves[1]]);
    assert!(!ran.contains(&leaves[2]));
    assert_eq!(result_of(&results, root), vec![Failure]);
    assert!(!engine.tree.records(leaves[2]).running);
}

#[test]
fn sequence_without_children_succeeds() {
    let (mut engine, root, _) = flat(Action::Sequence, &[]);
    let (ran, results) = run(&mut engine, root);
    assert_eq!(ran, vec![root]);
    assert_eq!(results, vec![(root, Success)]);
}

#[test]
fn fallback_succeeds_as_soon_as_a_child_succeeds() {
    let (mut engine, root, leaves) = flat(Action::Fallback, &[Success, Failure]);
    let (ran, results) = run(&mut engine, root);
    assert_eq!(ran, vec![root, leaves[0]]);
    assert_eq!(result_of(&results, root), vec![Success]);

    let (mut engine, root, leaves) = flat(Action::Fallback, &[Failure, Success]);
    let (ran, results) = run(&mut engine, root);
    assert_eq!(ran, vec![root, leaves[0], leaves[1]]);
    assert_eq!(result_of(&results, root), vec![Success]);
}

#[test]
fn fallback_fails_only_if_both_fail() {
    let (mut engine, root, leaves) = flat(Action::Fallback, &[Failure, Failure]);
    let (ran, results) = run(&mut engine, root);
    assert_eq!(ran, vec![root, leaves[0], leaves[1]]);
    assert_eq!(result_of(&results, root), vec![Failure]);
}

#[test]
fn fallback_without_children_fails() {
    let (mut engine, root, _) = flat(Action::Fallback, &[]);
    let (_, results) = run(&mut engine, root);
    assert_eq!(results, vec![(root, Failure)]);
}

fn weight(w: f32) -> Score {
    Score::Weight(w.to_bits())
}

fn set_score(engine: &mut Engine, node: Node, score: Score) {
    let mut r = engine.tree.records(node);
    r.score = Some(score);
    engine.tree.set_records(node, r);
}

#[test]
fn score_selector_picks_the_first_of_the_tied_maxima() {
    let (mut engine, root, leaves) = flat(Action::ScoreSelector, &[Failure, Success, Failure]);
    set_score(&mut engine, leaves[0], weight(0.2));
    set_score(&mut engine, leaves[1], weight(0.7));
    set_score(&mut engine, leaves[2], weight(0.7));
    let (ran, results) = run(&mut engine, root);
    assert_eq!(ran, vec![root, leaves[1]]);
    assert_eq!(result_of(&results, root), vec![Success]);
}

#[test]
fn score_selector_fails_when_every_child_fails_to_score() {
    let (mut engine, root, leaves) = flat(Action::ScoreSelector, &[Success, Success]);
    set_score(&mut engine, leaves[0], Score::Fail);
    let (ran, results) = run(&mut engine, root);
    assert_eq!(ran, vec![root]);
    assert_eq!(results, vec![(root, Failure)]);
}

#[test]
fn score_selector_forwards_a_failure() {
    let (mut engine, root, leaves) = flat(Action::ScoreSelector, &[Failure, Success]);
    set_score(&mut engine, leaves[0], weight(0.9));
    set_score(&mut engine, leaves[1], weight(0.1));
    let (ran, results) = run(&mut engine, root);
    assert_eq!(ran, vec![root, leaves[0]]);
    assert_eq!(result_of(&results, root), vec![Failure]);
}

#[test]
fn highest_score_examples() {
    assert_eq!(highest_score(&vec![]), None);
    assert_eq!(highest_score(&vec![Score::Fail, Score::Fail]), None);
    assert_eq!(highest_score(&vec![Score::Fail, Score::Weight(0)]), Some(1));
    assert_eq!(highest_score(&vec![weight(0.2), weight(0.7), weight(0.7)]), Some(1));
    assert_eq!(highest_score(&vec![Score::Weight(3), Score::Weight(2), Score::Weight(3)]), Some(0));
    assert_eq!(highest_score(&vec![Score::Weight(1), Score::Fail, Score::Weight(9)]), Some(2));
}

#[test]
fn score_order() {
    assert!(Score::Weight(0).beats(Score::Fail));
    assert!(!Score::Fail.beats(Score::Weight(0)));
    assert!(!Score::Fail.beats(Score::Fail));
    assert!(Score::Weight(2).beats(Score::Weight(1)));
    assert!(!Score::Weight(2).beats(Score::Weight(2)));
    assert!(Score::Fail.is_fail());
    assert!(!Score::Weight(0).is_fail());
    assert_eq!(Score::default(), Score::Fail);
    assert!(weight(0.7).beats(weight(0.2)));
}

#[test]
fn flow_decisions() {
    let children = vec![Node(1), Node(2), Node(3)];
    assert_eq!(flow_on_run(&children, Failure), Decision::Run(Node(1)));
    assert_eq!(flow_on_run(&vec![], Failure), Decision::Report(Success));
    assert_eq!(flow_on_run(&vec![], Success), Decision::Report(Failure));
    assert_eq!(flow_on_child_result(&children, Node(1), Success, Failure), Decision::Run(Node(2)));
    assert_eq!(flow_on_child_result(&children, Node(3), Success, Failure), Decision::Report(Success));
    assert_eq!(flow_on_child_result(&children, Node(2), Failure, Failure), Decision::Report(Failure));
    assert_eq!(flow_on_child_result(&children, Node(2), Failure, Success), Decision::Run(Node(3)));
    assert_eq!(flow_on_child_result(&children, Node(9), Success, Failure), Decision::Idle);
    assert_eq!(position(&children, Node(3)), Some(2));
    assert_eq!(position(&children, Node(4)), None);
}

#[test]
fn score_decisions() {
    let mut tree = Tree::new();
    let a = tree.spawn(Records::new(None));
    let b = tree.spawn(Records { score: Some(Score::Weight(5)), ..Records::new(None) });
    let children = vec![a, b];
    assert_eq!(score_on_run(&tree, &children), Decision::Run(b));
    assert_eq!(score_on_run(&tree, &vec![a]), Decision::Report(Failure));
    assert_eq!(score_on_child_result(&children, b, Success), Decision::Report(Success));
    assert_eq!(score_on_child_result(&children, Node(7), Success), Decision::Idle);
}

#[test]
fn repeat_decisions() {
    let children = vec![Node(1)];
    assert_eq!(repeat_on_run(&children), Decision::Run(Node(1)));
    assert_eq!(repeat_on_run(&vec![]), Decision::Report(Failure));
    let again = |policy, max, repeats, result| {
        repeat_on_child_result(policy, max, repeats, &children, Node(1), result)
    };
    assert_eq!(again(RepeatPolicy::Always, None, 0, Failure), Decision::Run(Node(1)));
    assert_eq!(again(RepeatPolicy::Always, Some(2), 1, Success), Decision::Run(Node(1)));
    assert_eq!(again(RepeatPolicy::Always, Some(2), 2, Success), Decision::Report(Success));
    assert_eq!(again(RepeatPolicy::OnSuccess, None, 0, Failure), Decision::Report(Failure));
    assert_eq!(again(RepeatPolicy::OnSuccess, None, 0, Success), Decision::Run(Node(1)));
    assert_eq!(again(RepeatPolicy::OnFailure, None, 0, Success), Decision::Report(Success));
    assert_eq!(again(RepeatPolicy::OnFailure, None, 0, Failure), Decision::Run(Node(1)));
    assert_eq!(
        repeat_on_child_result(RepeatPolicy::Always, None, 0, &children, Node(2), Success),
        Decision::Idle
    );
}

#[test]
fn repeat_runs_its_child_up_to_the_maximum() {
    let action = Action::Repeat { policy: RepeatPolicy::Always, max: Some(2) };
    let (mut engine, root, leaves) = flat(action, &[Success]);
    let (ran, results) = run(&mut engine, root);
    assert_eq!(ran, vec![root, leaves[0], leaves[0], leaves[0]]);
    assert_eq!(result_of(&results, leaves[0]), vec![Success, Success, Success]);
    assert_eq!(result_of(&results, root), vec![Success]);
    assert_eq!(engine.tree.records(root).repeats, 3);
}

#[test]
fn repeat_on_failure_stops_at_a_success() {
    let action = Action::Repeat { policy: RepeatPolicy::OnFailure, max: None };
    let (mut engine, root, leaves) = flat(action, &[Success]);
    let (ran, results) = run(&mut engine, root);
    assert_eq!(ran, vec![root, leaves[0]]);
    assert_eq!(result_of(&results, root), vec![Success]);
}

#[test]
fn nested_selectors_report_once_at_the_root() {
    let mut tree = Tree::new();
    let root = tree.spawn(Records::new(Some(Action::Fallback)));
    let first = tree.spawn(Records::new(Some(Action::Sequence)));
    let second = tree.spawn(Records::new(Some(Action::Sequence)));
    let a = tree.spawn(Records::new(Some(Action::RespondWith(Success))));
    let b = tree.spawn(Records::new(Some(Action::RespondWith(Failure))));
    let c = tree.spawn(Records::new(Some(Action::RespondWith(Success))));
    assert!(tree.add_child(root, first));
    assert!(tree.add_child(root, second));
    assert!(tree.add_child(first, a));
    assert!(tree.add_child(first, b));
    assert!(tree.add_child(second, c));
    let mut observers = ActionObserverMap::new();
    observer_plugin(&mut observers);
    let mut engine = Engine::new(tree, observers);
    let (ran, results) = run(&mut engine, root);
    assert_eq!(ran, vec![root, first, a, b, second, c]);
    assert_eq!(result_of(&results, root), vec![Success]);
    assert_eq!(result_of(&results, first), vec![Failure]);
    assert_eq!(result_of(&results, second), vec![Success]);
    for n in [root, first, second, a, b, c] {
        assert!(!engine.tree.records(n).running);
    }
}

#[test]
fn a_no_bubble_child_leaves_its_parent_waiting() {
    let (mut engine, root, leaves) = flat(Action::Sequence, &[Success, Success]);
    NoBubble::insert(&mut engine.tree, leaves[0]);
    let (ran, results) = run(&mut engine, root);
    assert_eq!(ran, vec![root, leaves[0]]);
    assert_eq!(results, vec![(leaves[0], Success)]);
    assert!(engine.tree.records(root).running);

    // the parent goes on only when it is told so explicitly
    engine.pending.push(Pending::Run(leaves[1]));
    let (ran, results) = drain(&mut engine);
    assert_eq!(ran, vec![leaves[1]]);
    assert_eq!(results, vec![(leaves[1], Success), (root, Success)]);
}
