use beet_flow::inspector_options::InspectorTarget;
use beet_flow::rsx_node::slot_name_is;
use beet_flow::rsx_node::Effect;
use beet_flow::rsx_node::RsxAttribute;
use beet_flow::rsx_node::RsxBlock;
use beet_flow::rsx_node::RsxComponent;
use beet_flow::rsx_node::RsxElement;
use beet_flow::rsx_node::RsxNode;
use beet_flow::rsx_node::RsxNodeDiscriminants;
use beet_flow::rsx_node::RustyTracker;
use beet_flow::sigfault::Sigfault;

fn effect() -> Effect {
    Effect { tracker: RustyTracker { index: 0, tokens_hash: 7 } }
}

fn text(s: &str) -> RsxNode {
    RsxNode::Text(s.to_string())
}

fn element(tag: &str, children: Vec<RsxNode>) -> RsxNode {
    let mut e = RsxElement::new(tag.to_string(), false);
    e.children = children;
    RsxNode::Element(e)
}

fn slot(name: Option<&str>) -> RsxNode {
    let mut e = RsxElement::new("slot".to_string(), false);
    if let Some(name) = name {
        e.attributes.push(RsxAttribute::Key { key: "hidden".to_string() });
        e.attributes
            .push(RsxAttribute::KeyValue { key: "name".to_string(), value: name.to_string() });
    }
    RsxNode::Element(e)
}

fn slot_with(name: Option<&str>, children: Vec<RsxNode>) -> RsxNode {
    match slot(name) {
        RsxNode::Element(mut e) => {
            e.children = children;
            RsxNode::Element(e)
        }
        _ => unreachable!(),
    }
}

#[test]
fn html_nodes() {
    assert!(RsxNode::Doctype.is_html_node());
    assert!(RsxNode::Comment("c".to_string()).is_html_node());
    assert!(text("t").is_html_node());
    assert!(element("div", vec![]).is_html_node());
    assert!(!RsxNode::Fragment(vec![]).is_html_node());
    assert!(!RsxNode::default().is_html_node());
    let block = RsxNode::Block(RsxBlock { initial: Box::new(text("t")), effect: effect() });
    assert!(!block.is_html_node());
    assert_eq!(block.discriminant(), RsxNodeDiscriminants::Block);
    assert_eq!(RsxNode::default(), RsxNode::Fragment(vec![]));
    assert_eq!(RsxNode::Doctype.discriminant(), RsxNodeDiscriminants::Doctype);
    assert_eq!(element("a", vec![]).discriminant(), RsxNodeDiscriminants::Element);
}

#[test]
fn new_element_is_empty() {
    let e = RsxElement::new("input".to_string(), true);
    assert_eq!(e.tag, "input");
    assert!(e.self_closing);
    assert!(e.attributes.is_empty());
    assert!(e.children.is_empty());
    assert!(!e.contains_blocks());
    assert!(!e.contains_rust());
}

#[test]
fn rust_in_children_and_attributes() {
    let mut e = RsxElement::new("div".to_string(), false);
    e.children.push(text("a"));
    e.attributes.push(RsxAttribute::Key { key: "k".to_string() });
    assert!(!e.contains_rust());
    e.attributes.push(RsxAttribute::BlockValue {
        key: "k".to_string(),
        initial: "v".to_string(),
        effect: effect(),
    });
    assert!(!e.contains_blocks());
    assert!(e.contains_rust());

    let mut e = RsxElement::new("div".to_string(), false);
    e.attributes.push(RsxAttribute::Block { initial: vec![], effect: effect() });
    assert!(e.contains_rust());

    let mut e = RsxElement::new("div".to_string(), false);
    e.children.push(element("p", vec![RsxNode::Block(RsxBlock {
        initial: Box::new(text("deep")),
        effect: effect(),
    })]));
    assert!(!e.contains_blocks());
    e.children.push(RsxNode::Block(RsxBlock { initial: Box::new(text("t")), effect: effect() }));
    assert!(e.contains_blocks());
    assert!(e.contains_rust());
}

#[test]
fn inserts_into_the_first_slot_of_that_name() {
    let mut node = RsxNode::Fragment(vec![
        text("before"),
        element("div", vec![slot(Some("other")), slot(None)]),
        slot(None),
    ]);
    let left = node.try_insert_slots("default", vec![text("x"), text("y")]);
    assert_eq!(left, None);
    assert_eq!(
        node,
        RsxNode::Fragment(vec![
            text("before"),
            element("div", vec![slot(Some("other")), slot_with(None, vec![text("x"), text("y")])]),
            slot(None),
        ])
    );
}

#[test]
fn hands_the_nodes_back_without_a_slot() {
    let mut node = element("div", vec![text("a"), slot(Some("named"))]);
    let left = node.try_insert_slots("default", vec![text("x")]);
    assert_eq!(left, Some(vec![text("x")]));
    assert_eq!(node, element("div", vec![text("a"), slot(Some("named"))]));

    for mut plain in [RsxNode::Doctype, text("t"), RsxNode::Comment("c".to_string())] {
        assert_eq!(plain.try_insert_slots("default", vec![text("x")]), Some(vec![text("x")]));
    }
}

#[test]
fn named_slots() {
    let mut node = element("div", vec![slot(None), slot_with(Some("named"), vec![text("old")])]);
    assert_eq!(node.try_insert_slots("named", vec![text("new")]), None);
    assert_eq!(
        node,
        element("div", vec![slot(None), slot_with(Some("named"), vec![text("old"), text("new")])])
    );
}

#[test]
fn a_slot_of_another_name_is_searched() {
    let mut node = slot_with(Some("outer"), vec![slot(None)]);
    assert_eq!(node.try_insert_slots("default", vec![text("x")]), None);
    assert_eq!(node, slot_with(Some("outer"), vec![slot_with(None, vec![text("x")])]));
}

#[test]
fn components_are_not_searched_and_blocks_are() {
    let component = || {
        RsxNode::Component(RsxComponent {
            tag: "MyComponent".to_string(),
            tracker: None,
            node: Box::new(slot(None)),
        })
    };
    let mut node = RsxNode::Fragment(vec![component(), slot(None)]);
    assert_eq!(node.try_insert_slots("default", vec![text("x")]), None);
    assert_eq!(node, RsxNode::Fragment(vec![component(), slot_with(None, vec![text("x")])]));

    let mut lone = component();
    assert_eq!(lone.try_insert_slots("default", vec![text("x")]), Some(vec![text("x")]));

    let mut block = RsxNode::Block(RsxBlock { initial: Box::new(slot(None)), effect: effect() });
    assert_eq!(block.try_insert_slots("default", vec![text("x")]), None);
    assert_eq!(
        block,
        RsxNode::Block(RsxBlock {
            initial: Box::new(slot_with(None, vec![text("x")])),
            effect: effect()
        })
    );
}

#[test]
fn with_slots_fills_the_slot() {
    let node = element("div", vec![slot(None)]).with_slots("default", vec![text("x")]);
    assert_eq!(node, element("div", vec![slot_with(None, vec![text("x")])]));
}

#[test]
fn the_first_name_attribute_names_the_slot() {
    let attrs = vec![
        RsxAttribute::Key { key: "name".to_string() },
        RsxAttribute::KeyValue { key: "id".to_string(), value: "a".to_string() },
        RsxAttribute::KeyValue { key: "name".to_string(), value: "first".to_string() },
        RsxAttribute::KeyValue { key: "name".to_string(), value: "second".to_string() },
    ];
    assert!(slot_name_is(&attrs, "first"));
    assert!(!slot_name_is(&attrs, "second"));
    assert!(!slot_name_is(&attrs, "default"));
    assert!(slot_name_is(&vec![], "default"));
    assert!(!slot_name_is(&vec![], "first"));
}

#[test]
fn inspector_targets() {
    assert_eq!(InspectorTarget::Field(2).field_index(), 2);
    let t = InspectorTarget::VariantField { variant_index: 1, field_index: 4 };
    assert_eq!(t.field_index(), 4);
    assert_ne!(t, InspectorTarget::Field(4));
}

#[test]
fn blocks_become_nodes_and_attributes() {
    let tracker = RustyTracker { index: 3, tokens_hash: 11 };
    assert_eq!(
        Sigfault::parse_block_node(tracker, text("hello")),
        RsxNode::Block(RsxBlock { initial: Box::new(text("hello")), effect: Effect { tracker } })
    );
    let initial = vec![RsxAttribute::Key { key: "foo".to_string() }];
    assert_eq!(
        Sigfault::parse_attribute_block(tracker, vec![RsxAttribute::Key { key: "foo".to_string() }]),
        RsxAttribute::Block { initial, effect: Effect { tracker } }
    );
    assert_eq!(
        Sigfault::parse_attribute_value("key", tracker, "3".to_string()),
        RsxAttribute::BlockValue {
            key: "key".to_string(),
            initial: "3".to_string(),
            effect: Effect { tracker }
        }
    );
}
