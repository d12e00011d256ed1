use beet_flow::action_observers::observer_plugin;
use beet_flow::action_observers::ActionKind;
use beet_flow::action_observers::ActionObserverMap;
use beet_flow::action_observers::Handler;
use beet_flow::event::EventKind;
use beet_flow::node::RunResult;
use beet_flow::tree::Action;
use beet_flow::tree::RepeatPolicy;

#[test]
fn handlers_come_in_registration_order() {
    let mut map = ActionObserverMap::new();
    map.register(EventKind::Run, ActionKind::External, Handler::External(2));
    map.register(EventKind::RunResult, ActionKind::External, Handler::External(9));
    map.register(EventKind::Run, ActionKind::Sequence, Handler::FlowOnRun);
    map.register(EventKind::Run, ActionKind::External, Handler::External(1));
    assert_eq!(
        map.dispatch(EventKind::Run, Some(Action::External(0))),
        vec![Handler::External(2), Handler::External(1)]
    );
    assert_eq!(
        map.dispatch(EventKind::RunResult, Some(Action::External(0))),
        vec![Handler::External(9)]
    );
    assert_eq!(map.dispatch(EventKind::Run, Some(Action::Sequence)), vec![Handler::FlowOnRun]);
}

#[test]
fn a_node_without_the_record_is_skipped() {
    let mut map = ActionObserverMap::new();
    observer_plugin(&mut map);
    assert!(map.dispatch(EventKind::Run, None).is_empty());
    assert!(map.dispatch(EventKind::Run, Some(Action::External(3))).is_empty());
    assert!(map.dispatch(EventKind::Interrupt, Some(Action::Sequence)).is_empty());
    assert!(ActionObserverMap::new().dispatch(EventKind::Run, Some(Action::Sequence)).is_empty());
}

#[test]
fn the_engine_registers_its_own_actions() {
    let mut map = ActionObserverMap::new();
    observer_plugin(&mut map);
    assert_eq!(map.entries.len(), 9);
    assert_eq!(map.dispatch(EventKind::Run, Some(Action::Fallback)), vec![Handler::FlowOnRun]);
    assert_eq!(
        map.dispatch(EventKind::RunResult, Some(Action::Fallback)),
        vec![Handler::FlowOnChildResult]
    );
    assert_eq!(map.dispatch(EventKind::Run, Some(Action::ScoreSelector)), vec![Handler::ScoreOnRun]);
    let repeat = Action::Repeat { policy: RepeatPolicy::Always, max: None };
    assert_eq!(map.dispatch(EventKind::RunResult, Some(repeat)), vec![Handler::RepeatOnChildResult]);
    assert_eq!(
        map.dispatch(EventKind::Run, Some(Action::RespondWith(RunResult::Failure))),
        vec![Handler::RespondOnRun]
    );
    assert!(map
        .dispatch(EventKind::RunResult, Some(Action::RespondWith(RunResult::Failure)))
        .is_empty());
}

#[test]
fn kinds_of_actions() {
    assert_eq!(Action::Sequence.kind(), ActionKind::Sequence);
    assert_eq!(Action::External(4).kind(), ActionKind::External);
    assert_eq!(
        Action::Repeat { policy: RepeatPolicy::OnSuccess, max: Some(1) }.kind(),
        ActionKind::Repeat
    );
}
