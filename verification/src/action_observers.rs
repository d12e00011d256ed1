//! The dispatch registry: which handlers an action type has registered for
//! which kind of event.

use vstd::prelude::*;
use crate::event::EventKind;
use crate::tree::Action;

verus! {

/// The type of an action record, without its data.
#[derive(Clone, Copy, Debug, PartialEq, Eq, Hash, Structural)]
pub enum ActionKind {
    Sequence,
    Fallback,
    ScoreSelector,
    Repeat,
    RespondWith,
    External,
}

/// A handler endpoint. The engine runs the built-in ones itself and hands
/// the others out to whoever drives it.
#[derive(Clone, Copy, Debug, PartialEq, Eq, Hash, Structural)]
pub enum Handler {
    /// Starts a sequence or a fallback: runs the first child.
    FlowOnRun,
    /// Advances a sequence or a fallback when a child reports.
    FlowOnChildResult,
    /// Picks the child with the highest score and runs it.
    ScoreOnRun,
    /// Passes the chosen child's result on as the selector's own.
    ScoreOnChildResult,
    /// Runs the child of a repeating node.
    RepeatOnRun,
    /// Runs the child of a repeating node again, or reports its result.
    RepeatOnChildResult,
    /// Completes at once with the result the node carries.
    RespondOnRun,
    /// A handler that lives outside the engine, by its number.
    External(u32),
}

/// One entry of the registry.
#[derive(Clone, Copy, Debug, PartialEq, Eq, Hash, Structural)]
pub struct Registration {
    pub kind: EventKind,
    pub action: ActionKind,
    pub handler: Handler,
}

/// The table from event kind and action type to the handlers registered for
/// them, in the order of registration.
pub struct ActionObserverMap {
    pub entries: Vec<Registration>,
}

impl Action {
    pub open spec fn spec_kind(self) -> ActionKind {
        match self {
            Action::Sequence => ActionKind::Sequence,
            Action::Fallback => ActionKind::Fallback,
            Action::ScoreSelector => ActionKind::ScoreSelector,
            Action::Repeat { .. } => ActionKind::Repeat,
            Action::RespondWith(_) => ActionKind::RespondWith,
            Action::External(_) => ActionKind::External,
        }
    }

    /// The type of this action record.
    #[verifier::when_used_as_spec(spec_kind)]
    pub fn kind(self) -> (k: ActionKind)
        ensures
            k == self.spec_kind(),
    {
        match self {
            Action::Sequence => ActionKind::Sequence,
            Action::Fallback => ActionKind::Fallback,
            Action::ScoreSelector => ActionKind::ScoreSelector,
            Action::Repeat { .. } => ActionKind::Repeat,
            Action::RespondWith(_) => ActionKind::RespondWith,
            Action::External(_) => ActionKind::External,
        }
    }
}

/// The handlers among `entries` that were registered for `kind` and
/// `action`, in the order of `entries`.
pub open spec fn handlers_in(entries: Seq<Registration>, kind: EventKind, action: ActionKind) -> Seq<
    Handler,
>
    decreases entries.len(),
{
    if entries.len() == 0 {
        Seq::empty()
    } else {
        let rest = handlers_in(entries.drop_last(), kind, action);
        let e = entries.last();
        if e.kind == kind && e.action == action {
            rest.push(e.handler)
        } else {
            rest
        }
    }
}

impl ActionObserverMap {
    /// The handlers registered for `kind` and `action`, in registration order.
    pub open spec fn handlers(&self, kind: EventKind, action: ActionKind) -> Seq<Handler> {
        handlers_in(self.entries@, kind, action)
    }

    /// The handlers that an event of `kind` reaches on a node that carries
    /// `action`: none where the node carries no action record.
    pub open spec fn dispatched(&self, kind: EventKind, action: Option<Action>) -> Seq<Handler> {
        match action {
            Some(a) => self.handlers(kind, a.spec_kind()),
            None => Seq::empty(),
        }
    }

    /// Each of the engine's own action types has its own handler, once,
    /// for `Run` and for the `RunResult` of a child.
    pub open spec fn is_standard(&self) -> bool {
        &&& self.handlers(EventKind::Run, ActionKind::Sequence) == seq![Handler::FlowOnRun]
        &&& self.handlers(EventKind::RunResult, ActionKind::Sequence) == seq![
            Handler::FlowOnChildResult,
        ]
        &&& self.handlers(EventKind::Run, ActionKind::Fallback) == seq![Handler::FlowOnRun]
        &&& self.handlers(EventKind::RunResult, ActionKind::Fallback) == seq![
            Handler::FlowOnChildResult,
        ]
        &&& self.handlers(EventKind::Run, ActionKind::ScoreSelector) == seq![Handler::ScoreOnRun]
        &&& self.handlers(EventKind::RunResult, ActionKind::ScoreSelector) == seq![
            Handler::ScoreOnChildResult,
        ]
        &&& self.handlers(EventKind::Run, ActionKind::Repeat) == seq![Handler::RepeatOnRun]
        &&& self.handlers(EventKind::RunResult, ActionKind::Repeat) == seq![
            Handler::RepeatOnChildResult,
        ]
        &&& self.handlers(EventKind::Run, ActionKind::RespondWith) == seq![Handler::RespondOnRun]
    }

    pub fn new() -> (m: ActionObserverMap)
        ensures
            m.entries@.len() == 0,
            forall|kind: EventKind, action: ActionKind| #[trigger]
                m.handlers(kind, action) == Seq::<Handler>::empty(),
    {
        ActionObserverMap { entries: Vec::new() }
    }

    /// Appends `handler` to the handlers of `kind` and `action`; every other
    /// list stays as it is.
    pub fn register(&mut self, kind: EventKind, action: ActionKind, handler: Handler)
        ensures
            final(self).entries@ == old(self).entries@.push(
                Registration { kind, action, handler },
            ),
            final(self).handlers(kind, action) == old(self).handlers(kind, action).push(handler),
            forall|k: EventKind, a: ActionKind|
                (k != kind || a != action) ==> #[trigger] final(self).handlers(k, a) == old(
                    self,
                ).handlers(k, a),
    {
        self.entries.push(Registration { kind, action, handler });
        proof {
            assert(self.entries@.drop_last() == old(self).entries@);
        }
    }

    /// Whether exactly `handler` is registered for `kind` and `action`.
    fn has_only(&self, kind: EventKind, action: Action, handler: Handler) -> (b: bool)
        ensures
            b == (self.handlers(kind, action.spec_kind()) == seq![handler]),
    {
        let found = self.dispatch(kind, Some(action));
        let b = found.len() == 1 && found[0] == handler;
        proof {
            if b {
                assert(found@ =~= seq![handler]);
            }
        }
        b
    }

    /// Whether each of the engine's own action types has its own handler,
    /// once, for `Run` and for the `RunResult` of a child.
    pub fn check_standard(&self) -> (b: bool)
        ensures
            b == self.is_standard(),
    {
        let repeat = Action::Repeat { policy: crate::tree::RepeatPolicy::Always, max: None };
        let respond = Action::RespondWith(crate::node::RunResult::Success);
        self.has_only(EventKind::Run, Action::Sequence, Handler::FlowOnRun) && self.has_only(
            EventKind::RunResult,
            Action::Sequence,
            Handler::FlowOnChildResult,
        ) && self.has_only(EventKind::Run, Action::Fallback, Handler::FlowOnRun) && self.has_only(
            EventKind::RunResult,
            Action::Fallback,
            Handler::FlowOnChildResult,
        ) && self.has_only(EventKind::Run, Action::ScoreSelector, Handler::ScoreOnRun)
            && self.has_only(
            EventKind::RunResult,
            Action::ScoreSelector,
            Handler::ScoreOnChildResult,
        ) && self.has_only(EventKind::Run, repeat, Handler::RepeatOnRun) && self.has_only(
            EventKind::RunResult,
            repeat,
            Handler::RepeatOnChildResult,
        ) && self.has_only(EventKind::Run, respond, Handler::RespondOnRun)
    }

    /// Looks up the handlers that an event of `kind` reaches on a node that
    /// carries `action`. A node without an action record is skipped silently.
    pub fn dispatch(&self, kind: EventKind, action: Option<Action>) -> (found: Vec<Handler>)
        ensures
            found@ == self.dispatched(kind, action),
    {
        let mut found: Vec<Handler> = Vec::new();
        match action {
            None => {},
            Some(a) => {
                let k = a.kind();
                let mut i: usize = 0;
                while i < self.entries.len()
                    invariant
                        i <= self.entries@.len(),
                        k == a.spec_kind(),
                        found@ == handlers_in(self.entries@.subrange(0, i as int), kind, k),
                    decreases self.entries@.len() - i,
                {
                    let e = self.entries[i];
                    proof {
                        assert(self.entries@.subrange(0, i + 1).drop_last()
                            == self.entries@.subrange(0, i as int));
                    }
                    if e.kind == kind && e.action == k {
                        found.push(e.handler);
                    }
                    i = i + 1;
                }
                proof {
                    assert(self.entries@.subrange(0, i as int) == self.entries@);
                }
            },
        }
        found
    }
}

/// Registers the handlers of the engine's own action types, as each does
/// once at start-up: for `Run`, and for the `RunResult` of a child.
pub fn observer_plugin(map: &mut ActionObserverMap)
    ensures
        final(map).entries@ == old(map).entries@ + builtin_registrations(),
        old(map).entries@.len() == 0 ==> final(map).is_standard(),
{
    proof {
        assert(forall|kind: EventKind, action: ActionKind| #[trigger]
            map.handlers(kind, action) == handlers_in(map.entries@, kind, action));
        if map.entries@.len() == 0 {
            assert(forall|kind: EventKind, action: ActionKind| #[trigger]
                map.handlers(kind, action) == Seq::<Handler>::empty());
        }
    }
    map.register(EventKind::Run, ActionKind::Sequence, Handler::FlowOnRun);
    map.register(EventKind::RunResult, ActionKind::Sequence, Handler::FlowOnChildResult);
    map.register(EventKind::Run, ActionKind::Fallback, Handler::FlowOnRun);
    map.register(EventKind::RunResult, ActionKind::Fallback, Handler::FlowOnChildResult);
    map.register(EventKind::Run, ActionKind::ScoreSelector, Handler::ScoreOnRun);
    map.register(EventKind::RunResult, ActionKind::ScoreSelector, Handler::ScoreOnChildResult);
    map.register(EventKind::Run, ActionKind::Repeat, Handler::RepeatOnRun);
    map.register(EventKind::RunResult, ActionKind::Repeat, Handler::RepeatOnChildResult);
    map.register(EventKind::Run, ActionKind::RespondWith, Handler::RespondOnRun);
    proof {
        assert(map.entries@ =~= old(map).entries@ + builtin_registrations());
    }
}

/// What the engine's own action types register, in order.
pub open spec fn builtin_registrations() -> Seq<Registration> {
    seq![
        Registration {
            kind: EventKind::Run,
            action: ActionKind::Sequence,
            handler: Handler::FlowOnRun,
        },
        Registration {
            kind: EventKind::RunResult,
            action: ActionKind::Sequence,
            handler: Handler::FlowOnChildResult,
        },
        Registration {
            kind: EventKind::Run,
            action: ActionKind::Fallback,
            handler: Handler::FlowOnRun,
        },
        Registration {
            kind: EventKind::RunResult,
            action: ActionKind::Fallback,
            handler: Handler::FlowOnChildResult,
        },
        Registration {
            kind: EventKind::Run,
            action: ActionKind::ScoreSelector,
            handler: Handler::ScoreOnRun,
        },
        Registration {
            kind: EventKind::RunResult,
            action: ActionKind::ScoreSelector,
            handler: Handler::ScoreOnChildResult,
        },
        Registration {
            kind: EventKind::Run,
            action: ActionKind::Repeat,
            handler: Handler::RepeatOnRun,
        },
        Registration {
            kind: EventKind::RunResult,
            action: ActionKind::Repeat,
            handler: Handler::RepeatOnChildResult,
        },
        Registration {
            kind: EventKind::Run,
            action: ActionKind::RespondWith,
            handler: Handler::RespondOnRun,
        },
    ]
}

} // verus!
