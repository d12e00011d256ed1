use beet_flow::action_observers::observer_plugin;
use beet_flow::action_observers::ActionObserverMap;
use beet_flow::engine::Delivered;
use beet_flow::engine::Engine;
use beet_flow::event::On;
use beet_flow::node::Node;
use beet_flow::node::RunResult;
use beet_flow::response::propagate_response_to_parent_observers;
use beet_flow::response::NoBubble;
use beet_flow::tree::Action;
use beet_flow::tree::Records;
use beet_flow::tree::Tree;

fn chain_of_three() -> (Tree, Node, Node, Node) {
    let mut tree = Tree::new();
    let parent = tree.spawn(Records::new(None));
    let child = tree.spawn(Records::new(None));
    let grandchild = tree.spawn(Records::new(Some(Action::RespondWith(RunResult::Success))));
    assert!(tree.add_child(parent, child));
    assert!(tree.add_child(child, grandchild));
    (tree, parent, child, grandchild)
}

#[test]
fn bubbles_up() {
    let (tree, parent, child, grandchild) = chain_of_three();
    let mut observers = ActionObserverMap::new();
    observer_plugin(&mut observers);
    let mut engine = Engine::new(tree, observers);

    engine.trigger_run(grandchild);
    let hops = match engine.step() {
        Delivered::Result(hops) => hops,
        _ => panic!("a result was pending"),
    };

    assert_eq!(hops.len(), 3);
    assert_eq!(
        hops[0],
        On {
            payload: RunResult::Success,
            origin: grandchild,
            action: grandchild,
            prev_action: Node::placeholder(),
        }
    );
    assert_eq!(
        hops[1],
        On { payload: RunResult::Success, origin: grandchild, action: child, prev_action: grandchild }
    );
    assert_eq!(
        hops[2],
        On { payload: RunResult::Success, origin: grandchild, action: parent, prev_action: child }
    );
}

#[test]
fn origin_is_constant_and_hops_are_linked() {
    let (tree, _, _, grandchild) = chain_of_three();
    let hops = On::new(RunResult::Failure, grandchild).trigger_bubble(&tree);
    for hop in hops.iter() {
        assert_eq!(hop.origin, grandchild);
        assert_eq!(hop.payload, RunResult::Failure);
    }
    for k in 0..hops.len() - 1 {
        assert_eq!(hops[k + 1].prev_action, hops[k].action);
        assert_eq!(tree.parent(hops[k].action), Some(hops[k + 1].action));
    }
}

#[test]
fn first_hop_has_the_placeholder() {
    let ev = On::new(RunResult::Success, Node(4));
    assert!(ev.is_first_hop());
    assert_eq!(ev.prev_action, Node(usize::MAX));
    let next = ev.forwarded(Node(2));
    assert!(!next.is_first_hop());
    assert_eq!(next, On { payload: RunResult::Success, origin: Node(4), action: Node(2), prev_action: Node(4) });
}

#[test]
fn no_bubble_absorbs_the_result() {
    let (mut tree, _, child, grandchild) = chain_of_three();
    NoBubble::insert(&mut tree, child);
    assert!(NoBubble::is_on(&tree, child));
    assert!(!NoBubble::is_on(&tree, grandchild));
    let hops = On::new(RunResult::Success, grandchild).trigger_bubble(&tree);
    assert_eq!(hops.len(), 2);
    assert_eq!(hops[1].action, child);

    let at_boundary = On::new(RunResult::Success, child).trigger_bubble(&tree);
    assert_eq!(at_boundary.len(), 1);
    assert_eq!(at_boundary[0].action, child);
}

#[test]
fn single_hop_to_the_parent() {
    let (tree, parent, child, grandchild) = chain_of_three();
    let first = On::new(RunResult::Success, grandchild);
    let second = propagate_response_to_parent_observers(&tree, first).unwrap();
    assert_eq!(second.action, child);
    assert_eq!(second.prev_action, grandchild);
    let third = propagate_response_to_parent_observers(&tree, second).unwrap();
    assert_eq!(third.action, parent);
    assert_eq!(propagate_response_to_parent_observers(&tree, third), None);
}

#[test]
fn a_root_alone_ends_the_chain() {
    let mut tree = Tree::new();
    let root = tree.spawn(Records::new(None));
    let hops = On::new(RunResult::Success, root).trigger_bubble(&tree);
    assert_eq!(hops, vec![On::new(RunResult::Success, root)]);
}

#[test]
fn a_despawned_parent_ends_the_chain() {
    let (mut tree, _, child, grandchild) = chain_of_three();
    let mut records = tree.records(child);
    records.alive = false;
    tree.set_records(child, records);
    let hops = On::new(RunResult::Success, grandchild).trigger_bubble(&tree);
    assert_eq!(hops.len(), 1);
    assert_eq!(propagate_response_to_parent_observers(&tree, hops[0]), None);
}

#[test]
fn a_node_outside_the_tree_does_not_bubble() {
    let (tree, _, _, _) = chain_of_three();
    let stray = On::new(RunResult::Success, Node(17));
    assert_eq!(propagate_response_to_parent_observers(&tree, stray), None);
    assert_eq!(stray.trigger_bubble(&tree), vec![stray]);
}
