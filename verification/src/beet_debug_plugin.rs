//! The debug observer: which lifecycle events are logged, and the messages
//! they give. It reads the tree and never changes it.

use vstd::prelude::*;
use crate::event::On;
use crate::node::Node;
use crate::node::RunResult;
use crate::tree::Name;
use crate::tree::Tree;

verus! {

/// Logs lifecycle events for action nodes. A node's name is used where it
/// has one, its identifier where it has none.
#[derive(Debug, Clone, Copy, PartialEq, Eq, Structural)]
pub struct BeetDebugPlugin {
    pub log_on_run: bool,
    pub log_running: bool,
    pub log_on_run_result: bool,
    /// disable logging to stdout, useful if instead using rendered terminal,
    /// networking etc.
    pub no_stdout: bool,
}

/// What a log message is about.
#[derive(Debug, Clone, Copy, PartialEq, Eq, Structural)]
pub enum LogPrefix {
    OnRun,
    Result(RunResult),
    Running,
}

/// A message for the log: a prefix, then the node's name or, where it has
/// none, the node itself.
#[derive(Debug, Clone, Copy, PartialEq, Eq, Structural)]
pub struct OnLogMessage {
    pub prefix: LogPrefix,
    pub node: Node,
    pub name: Option<Name>,
}

/// The name record of `node`, if the node is there and has one.
pub open spec fn name_of(tree: &Tree, node: Node) -> Option<Name> {
    if tree.contains(node) {
        tree.records_of(node).name
    } else {
        None
    }
}

/// The message for each hop of a result, in order, about the node that
/// received the hop.
pub open spec fn result_messages(tree: &Tree, hops: Seq<On<RunResult>>) -> Seq<OnLogMessage> {
    Seq::new(
        hops.len(),
        |k: int|
            OnLogMessage {
                prefix: LogPrefix::Result(hops[k].payload),
                node: hops[k].action,
                name: name_of(tree, hops[k].action),
            },
    )
}

/// The message for each running node among the first `upto` slots, in arena
/// order.
pub open spec fn running_messages(tree: &Tree, upto: int) -> Seq<OnLogMessage>
    decreases upto,
{
    if upto <= 0 {
        Seq::empty()
    } else {
        let rest = running_messages(tree, upto - 1);
        let r = tree.nodes@[upto - 1].records;
        if r.running && r.alive {
            rest.push(
                OnLogMessage {
                    prefix: LogPrefix::Running,
                    node: Node((upto - 1) as usize),
                    name: r.name,
                },
            )
        } else {
            rest
        }
    }
}

impl Default for BeetDebugPlugin {
    fn default() -> (p: BeetDebugPlugin)
        ensures
            p == (BeetDebugPlugin {
                log_on_run: true,
                log_running: false,
                log_on_run_result: false,
                no_stdout: true,
            }),
    {
        BeetDebugPlugin {
            log_on_run: true,
            log_running: false,
            log_on_run_result: false,
            no_stdout: true,
        }
    }
}

impl OnLogMessage {
    pub fn new_with_optional(entity: Node, name: Option<Name>, prefix: LogPrefix) -> (m:
        OnLogMessage)
        ensures
            m == (OnLogMessage { prefix, node: entity, name }),
    {
        OnLogMessage { prefix, node: entity, name }
    }

    /// A message about `entity`, with the name that `tree` holds for it.
    pub fn new_with_query(entity: Node, tree: &Tree, prefix: LogPrefix) -> (m: OnLogMessage)
        ensures
            m == (OnLogMessage { prefix, node: entity, name: name_of(tree, entity) }),
    {
        let name = if tree.has(entity) {
            tree.records(entity).name
        } else {
            None
        };
        OnLogMessage::new_with_optional(entity, name, prefix)
    }
}

impl BeetDebugPlugin {
    /// Logs runs and results.
    pub fn with_result() -> (p: BeetDebugPlugin)
        ensures
            p == (BeetDebugPlugin {
                log_on_run: true,
                log_running: false,
                log_on_run_result: true,
                no_stdout: true,
            }),
    {
        BeetDebugPlugin {
            log_on_run: true,
            log_on_run_result: true,
            log_running: false,
            no_stdout: true,
        }
    }

    /// Logs runs, results and the nodes that are running.
    pub fn with_all() -> (p: BeetDebugPlugin)
        ensures
            p == (BeetDebugPlugin {
                log_on_run: true,
                log_running: true,
                log_on_run_result: true,
                no_stdout: true,
            }),
    {
        BeetDebugPlugin {
            log_on_run: true,
            log_running: true,
            log_on_run_result: true,
            no_stdout: true,
        }
    }

    /// The message for a `Run` that has reached `node`, where runs are
    /// logged.
    pub fn log_on_run(&self, tree: &Tree, node: Node) -> (m: Option<OnLogMessage>)
        ensures
            m == if self.log_on_run {
                Some(OnLogMessage { prefix: LogPrefix::OnRun, node, name: name_of(tree, node) })
            } else {
                None
            },
    {
        if self.log_on_run {
            Some(OnLogMessage::new_with_query(node, tree, LogPrefix::OnRun))
        } else {
            None
        }
    }

    /// The messages for the hops of a result, where results are logged.
    pub fn log_on_run_result(&self, tree: &Tree, hops: &Vec<On<RunResult>>) -> (out: Vec<
        OnLogMessage,
    >)
        ensures
            out@ == if self.log_on_run_result {
                result_messages(tree, hops@)
            } else {
                Seq::empty()
            },
    {
        let mut out: Vec<OnLogMessage> = Vec::new();
        if !self.log_on_run_result {
            return out;
        }
        let mut k: usize = 0;
        while k < hops.len()
            invariant
                k <= hops@.len(),
                out@ == result_messages(tree, hops@).subrange(0, k as int),
            decreases hops@.len() - k,
        {
            let hop = hops[k];
            out.push(OnLogMessage::new_with_query(hop.action, tree, LogPrefix::Result(hop.payload)));
            proof {
                assert(out@ =~= result_messages(tree, hops@).subrange(0, k + 1));
            }
            k = k + 1;
        }
        proof {
            assert(out@ =~= result_messages(tree, hops@));
        }
        out
    }

    /// The messages for the nodes that are running, where those are logged.
    pub fn log_running(&self, tree: &Tree) -> (out: Vec<OnLogMessage>)
        ensures
            out@ == if self.log_running {
                running_messages(tree, tree.nodes@.len() as int)
            } else {
                Seq::empty()
            },
    {
        let mut out: Vec<OnLogMessage> = Vec::new();
        if !self.log_running {
            return out;
        }
        let mut i: usize = 0;
        while i < tree.node_count()
            invariant
                i <= tree.nodes@.len(),
                out@ == running_messages(tree, i as int),
            decreases tree.nodes@.len() - i,
        {
            let r = tree.records(Node(i));
            if r.running && r.alive {
                out.push(OnLogMessage::new_with_optional(Node(i), r.name, LogPrefix::Running));
            }
            i = i + 1;
        }
        out
    }
}

} // verus!
