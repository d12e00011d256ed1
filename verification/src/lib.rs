//! A hierarchical behavior-execution engine: a tree of nodes driven by a typed
//! `Run` / `RunResult` event protocol, with results bubbling from a node to its
//! ancestors so that selectors can sequence, fall back, pick by score or repeat.

pub mod node;
pub mod score;
pub mod tree;
pub mod event;
pub mod response;
pub mod action_observers;
pub mod selectors;
pub mod engine;
pub mod rsx_node;
pub mod inspector_options;
pub mod beet_builder;
pub mod beet_debug_plugin;
pub mod settle;
pub mod sigfault;
