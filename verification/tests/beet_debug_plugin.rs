use beet_flow::beet_debug_plugin::BeetDebugPlugin;
use beet_flow::beet_debug_plugin::LogPrefix;
use beet_flow::beet_debug_plugin::OnLogMessage;
use beet_flow::event::On;
use beet_flow::node::Node;
use beet_flow::node::RunResult;
use beet_flow::tree::Name;
use beet_flow::tree::Records;
use beet_flow::tree::Tree;

fn two_nodes() -> (Tree, Node, Node) {
    let mut tree = Tree::new();
    let root = tree.spawn(Records { name: Some(Name::Given(1)), ..Records::new(None) });
    let leaf = tree.spawn(Records { running: true, ..Records::new(None) });
    assert!(tree.add_child(root, leaf));
    (tree, root, leaf)
}

#[test]
fn plugin_presets() {
    let d = BeetDebugPlugin::default();
    assert!(d.log_on_run && !d.log_running && !d.log_on_run_result && d.no_stdout);
    let r = BeetDebugPlugin::with_result();
    assert!(r.log_on_run && !r.log_running && r.log_on_run_result && r.no_stdout);
    let a = BeetDebugPlugin::with_all();
    assert!(a.log_on_run && a.log_running && a.log_on_run_result && a.no_stdout);
}

#[test]
fn messages_name_the_node() {
    let (tree, root, leaf) = two_nodes();
    let m = OnLogMessage::new_with_query(root, &tree, LogPrefix::OnRun);
    assert_eq!(m, OnLogMessage { prefix: LogPrefix::OnRun, node: root, name: Some(Name::Given(1)) });
    let m = OnLogMessage::new_with_query(leaf, &tree, LogPrefix::OnRun);
    assert_eq!(m.name, None);
    let m = OnLogMessage::new_with_query(Node(9), &tree, LogPrefix::OnRun);
    assert_eq!(m, OnLogMessage::new_with_optional(Node(9), None, LogPrefix::OnRun));
}

#[test]
fn logs_what_is_switched_on() {
    let (tree, root, leaf) = two_nodes();
    let hops = On::new(RunResult::Failure, leaf).trigger_bubble(&tree);

    let quiet = BeetDebugPlugin::default();
    assert!(quiet.log_on_run(&tree, root).is_some());
    assert!(quiet.log_on_run_result(&tree, &hops).is_empty());
    assert!(quiet.log_running(&tree).is_empty());

    let all = BeetDebugPlugin::with_all();
    assert_eq!(
        all.log_on_run_result(&tree, &hops),
        vec![
            OnLogMessage { prefix: LogPrefix::Result(RunResult::Failure), node: leaf, name: None },
            OnLogMessage {
                prefix: LogPrefix::Result(RunResult::Failure),
                node: root,
                name: Some(Name::Given(1)),
            },
        ]
    );
    assert_eq!(
        all.log_running(&tree),
        vec![OnLogMessage { prefix: LogPrefix::Running, node: leaf, name: None }]
    );
    let off = BeetDebugPlugin { log_on_run: false, ..all };
    assert_eq!(off.log_on_run(&tree, root), None);
}
