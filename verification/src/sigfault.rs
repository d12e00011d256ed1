//! A woefully basic signals layer for the templating nodes: how the blocks
//! of rust code in a template become nodes and attributes.

use vstd::prelude::*;
use crate::rsx_node::attribute_views;
use crate::rsx_node::Effect;
use crate::rsx_node::RsxAttribute;
use crate::rsx_node::RsxAttributeView;
use crate::rsx_node::RsxBlock;
use crate::rsx_node::RsxNode;
use crate::rsx_node::RsxNodeView;
use crate::rsx_node::RustyTracker;

verus! {

/// a woefully basic implementation of signals, intended
/// only for testing and as an example implementation for
/// authors of actual reactivity libraries.
pub struct Sigfault;

impl Sigfault {
    /// The node for a block in the place of a node, as in
    /// `<div>{block}</div>`: `initial` is what the block rendered first.
    pub fn parse_block_node(tracker: RustyTracker, initial: RsxNode) -> (n: RsxNode)
        ensures
            n@ == (RsxNodeView::Block { initial: Box::new(initial@), effect: Effect { tracker } }),
    {
        RsxNode::Block(RsxBlock { initial: Box::new(initial), effect: Effect { tracker } })
    }

    /// The attribute for a block in the place of attributes, as in
    /// `<el {block}/>`: `initial` is what the block gave first.
    pub fn parse_attribute_block(tracker: RustyTracker, initial: Vec<RsxAttribute>) -> (a:
        RsxAttribute)
        ensures
            a@ == (RsxAttributeView::Block {
                initial: attribute_views(initial@),
                effect: Effect { tracker },
            }),
    {
        RsxAttribute::Block { initial, effect: Effect { tracker } }
    }

    /// The attribute for a block in the place of a value, as in
    /// `<el key={block}/>`: `initial` is the text the block gave first.
    pub fn parse_attribute_value(key: &str, tracker: RustyTracker, initial: String) -> (a:
        RsxAttribute)
        ensures
            a@ == (RsxAttributeView::BlockValue {
                key: key@,
                initial: initial@,
                effect: Effect { tracker },
            }),
    {
        RsxAttribute::BlockValue { key: key.to_owned(), initial, effect: Effect { tracker } }
    }
}

} // verus!
