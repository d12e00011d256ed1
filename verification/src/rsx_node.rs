//! The node model of the templating layer: elements, text, rust blocks and
//! components, and the insertion of children into named slots.

use vstd::prelude::*;

verus! {

/// Identifies the piece of rust code a block came from.
#[derive(Clone, Copy, Debug, PartialEq, Eq, Hash, Structural)]
pub struct RustyTracker {
    pub index: u32,
    pub tokens_hash: u64,
}

/// The reactive side of a block, named by the tracker of its code.
#[derive(Clone, Copy, Debug, PartialEq, Eq, Hash, Structural)]
pub struct Effect {
    pub tracker: RustyTracker,
}

#[derive(Debug, PartialEq, Eq)]
pub enum RsxNode {
    /// a html doctype node
    Doctype,
    /// a html comment node
    Comment(String),
    /// a html text node
    Text(String),
    /// a rust block that returns text
    Block(RsxBlock),
    /// A transparent node that simply contains children
    Fragment(Vec<RsxNode>),
    /// a html element
    Element(RsxElement),
    Component(RsxComponent),
}

/// The variants of [`RsxNode`] without their data.
#[derive(Clone, Copy, Debug, PartialEq, Eq, Hash, Structural)]
pub enum RsxNodeDiscriminants {
    Doctype,
    Comment,
    Text,
    Block,
    Fragment,
    Element,
    Component,
}

/// A rust block in the place of a node, with the node it first rendered.
#[derive(Debug, PartialEq, Eq)]
pub struct RsxBlock {
    pub initial: Box<RsxNode>,
    pub effect: Effect,
}

/// A list of nodes without an element around them.
#[derive(Debug, PartialEq, Eq)]
pub struct RsxFragment(pub Vec<RsxNode>);

/// A component: a struct whose render method gave `node`.
#[derive(Debug, PartialEq, Eq)]
pub struct RsxComponent {
    pub tag: String,
    /// even key value attribute changes must be tracked
    /// because components are structs not elements
    pub tracker: Option<RustyTracker>,
    /// the node that the component rendered
    pub node: Box<RsxNode>,
}

/// An html element.
#[derive(Debug, PartialEq, Eq)]
pub struct RsxElement {
    /// ie `div, span, input`
    pub tag: String,
    /// ie `class="my-class"`
    pub attributes: Vec<RsxAttribute>,
    /// ie `<div>childtext<childel/>{childblock}</div>`
    pub children: Vec<RsxNode>,
    /// ie `<input/>`
    pub self_closing: bool,
}

#[derive(Debug, PartialEq, Eq)]
#[allow(inconsistent_fields)]
pub enum RsxAttribute {
    Key { key: String },
    KeyValue { key: String, value: String },
    BlockValue { key: String, initial: String, effect: Effect },
    /// kind of like a fragment, but for attributes
    Block { initial: Vec<RsxAttribute>, effect: Effect },
}

/// What an [`RsxAttribute`] holds.
#[allow(inconsistent_fields)]
pub enum RsxAttributeView {
    Key { key: Seq<char> },
    KeyValue { key: Seq<char>, value: Seq<char> },
    BlockValue { key: Seq<char>, initial: Seq<char>, effect: Effect },
    Block { initial: Seq<RsxAttributeView>, effect: Effect },
}

/// What an [`RsxNode`] holds.
pub enum RsxNodeView {
    Doctype,
    Comment(Seq<char>),
    Text(Seq<char>),
    Block { initial: Box<RsxNodeView>, effect: Effect },
    Fragment(Seq<RsxNodeView>),
    Element {
        tag: Seq<char>,
        attributes: Seq<RsxAttributeView>,
        children: Seq<RsxNodeView>,
        self_closing: bool,
    },
    Component { tag: Seq<char>, tracker: Option<RustyTracker>, node: Box<RsxNodeView> },
}

pub open spec fn attribute_view(a: &RsxAttribute) -> RsxAttributeView
    decreases a,
{
    match a {
        RsxAttribute::Key { key } => RsxAttributeView::Key { key: key@ },
        RsxAttribute::KeyValue { key, value } => RsxAttributeView::KeyValue {
            key: key@,
            value: value@,
        },
        RsxAttribute::BlockValue { key, initial, effect } => RsxAttributeView::BlockValue {
            key: key@,
            initial: initial@,
            effect: *effect,
        },
        RsxAttribute::Block { initial, effect } => RsxAttributeView::Block {
            initial: attribute_views(initial@),
            effect: *effect,
        },
    }
}

/// The views of the attributes of `s`, in order.
pub open spec fn attribute_views(s: Seq<RsxAttribute>) -> Seq<RsxAttributeView>
    decreases s,
{
    Seq::new(
        s.len(),
        |i: int|
            if 0 <= i < s.len() {
                attribute_view(&s[i])
            } else {
                RsxAttributeView::Key { key: Seq::empty() }
            },
    )
}

pub open spec fn node_view(n: &RsxNode) -> RsxNodeView
    decreases n,
{
    match n {
        RsxNode::Doctype => RsxNodeView::Doctype,
        RsxNode::Comment(s) => RsxNodeView::Comment(s@),
        RsxNode::Text(s) => RsxNodeView::Text(s@),
        RsxNode::Block(b) => RsxNodeView::Block {
            initial: Box::new(node_view(&*b.initial)),
            effect: b.effect,
        },
        RsxNode::Fragment(c) => RsxNodeView::Fragment(node_views(c@)),
        RsxNode::Element(e) => RsxNodeView::Element {
            tag: e.tag@,
            attributes: attribute_views(e.attributes@),
            children: node_views(e.children@),
            self_closing: e.self_closing,
        },
        RsxNode::Component(c) => RsxNodeView::Component {
            tag: c.tag@,
            tracker: c.tracker,
            node: Box::new(node_view(&*c.node)),
        },
    }
}

/// The views of the nodes of `s`, in order.
pub open spec fn node_views(s: Seq<RsxNode>) -> Seq<RsxNodeView>
    decreases s,
{
    Seq::new(
        s.len(),
        |i: int|
            if 0 <= i < s.len() {
                node_view(&s[i])
            } else {
                RsxNodeView::Doctype
            },
    )
}

impl View for RsxNode {
    type V = RsxNodeView;

    open spec fn view(&self) -> RsxNodeView {
        node_view(self)
    }
}

impl View for RsxAttribute {
    type V = RsxAttributeView;

    open spec fn view(&self) -> RsxAttributeView {
        attribute_view(self)
    }
}

impl View for RsxElement {
    type V = RsxNodeView;

    open spec fn view(&self) -> RsxNodeView {
        RsxNodeView::Element {
            tag: self.tag@,
            attributes: attribute_views(self.attributes@),
            children: node_views(self.children@),
            self_closing: self.self_closing,
        }
    }
}

impl Default for RsxNode {
    fn default() -> (n: RsxNode)
        ensures
            n@ == RsxNodeView::Fragment(Seq::empty()),
    {
        let children: Vec<RsxNode> = Vec::new();
        proof {
            assert(node_views(children@) =~= Seq::empty());
        }
        RsxNode::Fragment(children)
    }
}

impl RsxNodeView {
    /// Whether the node is an html node: a doctype, a comment, a text or an
    /// element.
    pub open spec fn is_html_node(self) -> bool {
        self is Doctype || self is Comment || self is Text || self is Element
    }

    pub open spec fn discriminant(self) -> RsxNodeDiscriminants {
        match self {
            RsxNodeView::Doctype => RsxNodeDiscriminants::Doctype,
            RsxNodeView::Comment(_) => RsxNodeDiscriminants::Comment,
            RsxNodeView::Text(_) => RsxNodeDiscriminants::Text,
            RsxNodeView::Block { .. } => RsxNodeDiscriminants::Block,
            RsxNodeView::Fragment(_) => RsxNodeDiscriminants::Fragment,
            RsxNodeView::Element { .. } => RsxNodeDiscriminants::Element,
            RsxNodeView::Component { .. } => RsxNodeDiscriminants::Component,
        }
    }
}

impl RsxAttributeView {
    /// Whether the attribute holds rust code.
    pub open spec fn is_rust(self) -> bool {
        self is Block || self is BlockValue
    }
}

/// The name of the slot that an element with these attributes is: the value
/// of its first `name` attribute, `default` where it has none.
pub open spec fn slot_name(attributes: Seq<RsxAttributeView>) -> Seq<char>
    decreases attributes.len(),
{
    if attributes.len() == 0 {
        "default"@
    } else {
        match attributes[0] {
            RsxAttributeView::KeyValue { key, value } => if key == "name"@ {
                value
            } else {
                slot_name(attributes.drop_first())
            },
            _ => slot_name(attributes.drop_first()),
        }
    }
}

/// Whether an element is the slot called `name`.
pub open spec fn is_slot(tag: Seq<char>, attributes: Seq<RsxAttributeView>, name: Seq<char>) -> bool {
    tag == "slot"@ && slot_name(attributes) == name
}

/// The node with `nodes` appended to the children of its first slot called
/// `name`, in document order; `None` where it has no such slot. A slot of
/// another name is searched like any element, a block is searched in the
/// node it first rendered, and a component is not searched: it would steal
/// the slot from the siblings that follow it.
pub open spec fn insert_slots(v: RsxNodeView, name: Seq<char>, nodes: Seq<RsxNodeView>) -> Option<
    RsxNodeView,
>
    decreases v,
{
    match v {
        RsxNodeView::Fragment(children) => match insert_among(children, name, nodes) {
            Some(c) => Some(RsxNodeView::Fragment(c)),
            None => None,
        },
        RsxNodeView::Element { tag, attributes, children, self_closing } => if is_slot(
            tag,
            attributes,
            name,
        ) {
            Some(RsxNodeView::Element { tag, attributes, children: children + nodes, self_closing })
        } else {
            match insert_among(children, name, nodes) {
                Some(c) => Some(RsxNodeView::Element { tag, attributes, children: c, self_closing }),
                None => None,
            }
        },
        RsxNodeView::Block { initial, effect } => match insert_slots(*initial, name, nodes) {
            Some(n) => Some(RsxNodeView::Block { initial: Box::new(n), effect }),
            None => None,
        },
        _ => None,
    }
}

/// `children` with `nodes` inserted into the first of them that has a slot
/// called `name`; `None` where none has.
pub open spec fn insert_among(
    children: Seq<RsxNodeView>,
    name: Seq<char>,
    nodes: Seq<RsxNodeView>,
) -> Option<Seq<RsxNodeView>>
    decreases children,
{
    if children.len() == 0 {
        None
    } else {
        match insert_slots(children[0], name, nodes) {
            Some(n) => Some(seq![n] + children.drop_first()),
            None => match insert_among(children.drop_first(), name, nodes) {
                Some(rest) => Some(seq![children[0]] + rest),
                None => None,
            },
        }
    }
}

/// Where the first `i` children have no slot called `name`, the insertion
/// among all of them is the insertion into child `i`, if that has one.
pub proof fn lemma_insert_among_at(
    children: Seq<RsxNodeView>,
    name: Seq<char>,
    nodes: Seq<RsxNodeView>,
    i: int,
)
    requires
        0 <= i < children.len(),
        forall|j: int| 0 <= j < i ==> insert_slots(#[trigger] children[j], name, nodes) is None,
        insert_slots(children[i], name, nodes) is Some,
    ensures
        insert_among(children, name, nodes) == Some(
            children.update(i, insert_slots(children[i], name, nodes).unwrap()),
        ),
    decreases i,
{
    let v = insert_slots(children[i], name, nodes).unwrap();
    if i == 0 {
        assert(seq![v] + children.drop_first() =~= children.update(0, v));
    } else {
        let rest = children.drop_first();
        assert(insert_slots(children[0], name, nodes) is None);
        assert forall|j: int| 0 <= j < i - 1 implies insert_slots(
            #[trigger] rest[j],
            name,
            nodes,
        ) is None by {
            assert(rest[j] == children[j + 1]);
        }
        assert(rest[i - 1] == children[i]);
        lemma_insert_among_at(rest, name, nodes, i - 1);
        assert(seq![children[0]] + rest.update(i - 1, v) =~= children.update(i, v));
    }
}

/// Where no child has a slot called `name`, nothing is inserted among them.
pub proof fn lemma_insert_among_none(
    children: Seq<RsxNodeView>,
    name: Seq<char>,
    nodes: Seq<RsxNodeView>,
)
    requires
        forall|j: int|
            0 <= j < children.len() ==> insert_slots(#[trigger] children[j], name, nodes) is None,
    ensures
        insert_among(children, name, nodes) is None,
    decreases children.len(),
{
    if children.len() > 0 {
        let rest = children.drop_first();
        assert(insert_slots(children[0], name, nodes) is None);
        assert forall|j: int| 0 <= j < rest.len() implies insert_slots(
            #[trigger] rest[j],
            name,
            nodes,
        ) is None by {
            assert(rest[j] == children[j + 1]);
        }
        lemma_insert_among_none(rest, name, nodes);
    }
}

/// Whether the element with these attributes is the slot called `name`,
/// given that its tag is `slot`.
pub fn slot_name_is(attributes: &Vec<RsxAttribute>, name: &str) -> (b: bool)
    ensures
        b == (slot_name(attribute_views(attributes@)) == name@),
{
    let wanted = name.to_owned();
    let name_key = "name".to_owned();
    let mut i: usize = 0;
    proof {
        assert(attribute_views(attributes@).subrange(0, attributes@.len() as int)
            =~= attribute_views(attributes@));
    }
    while i < attributes.len()
        invariant
            i <= attributes@.len(),
            wanted@ == name@,
            name_key@ == "name"@,
            slot_name(attribute_views(attributes@)) == slot_name(
                attribute_views(attributes@).subrange(i as int, attributes@.len() as int),
            ),
        decreases attributes@.len() - i,
    {
        proof {
            let rest = attribute_views(attributes@).subrange(i as int, attributes@.len() as int);
            assert(rest[0] == attribute_view(&attributes@[i as int]));
            assert(rest.drop_first() =~= attribute_views(attributes@).subrange(
                i + 1,
                attributes@.len() as int,
            ));
        }
        match &attributes[i] {
            RsxAttribute::KeyValue { key, value } => {
                if *key == name_key {
                    return *value == wanted;
                }
            },
            _ => {},
        }
        i = i + 1;
    }
    let fallback = "default".to_owned();
    fallback == wanted
}

/// Inserts `to_insert` into the first of `children` that has a slot called
/// `name`, and hands the nodes back where none has.
pub fn try_insert_slots_among(
    children: &mut Vec<RsxNode>,
    name: &str,
    to_insert: Vec<RsxNode>,
) -> (left: Option<Vec<RsxNode>>)
    ensures
        match insert_among(node_views(old(children)@), name@, node_views(to_insert@)) {
            Some(vs) => left is None && node_views(final(children)@) == vs,
            None => left == Some(to_insert) && node_views(final(children)@) == node_views(
                old(children)@,
            ),
        },
    decreases *old(children), 0int,
{
    let mut pending = to_insert;
    let mut i: usize = 0;
    while i < children.len()
        invariant
            i <= children@.len(),
            children@.len() == old(children)@.len(),
            pending == to_insert,
            node_views(children@) == node_views(old(children)@),
            forall|j: int| i <= j < children@.len() ==> children@[j] == old(children)@[j],
            forall|j: int|
                0 <= j < i ==> insert_slots(
                    #[trigger] node_views(old(children)@)[j],
                    name@,
                    node_views(to_insert@),
                ) is None,
        decreases children@.len() - i,
    {
        let ghost before = children@;
        match children[i].try_insert_slots(name, pending) {
            Some(returned) => {
                pending = returned;
                proof {
                    assert(node_views(children@) =~= node_views(before));
                }
            },
            None => {
                proof {
                    let vs = node_views(old(children)@);
                    lemma_insert_among_at(vs, name@, node_views(to_insert@), i as int);
                    assert(node_views(children@) =~= vs.update(i as int, children@[i as int]@));
                }
                return None;
            },
        }
        i = i + 1;
    }
    proof {
        lemma_insert_among_none(node_views(old(children)@), name@, node_views(to_insert@));
    }
    Some(pending)
}

impl RsxNode {
    /// The variant of this node.
    pub fn discriminant(&self) -> (d: RsxNodeDiscriminants)
        ensures
            d == self@.discriminant(),
    {
        match self {
            RsxNode::Doctype => RsxNodeDiscriminants::Doctype,
            RsxNode::Comment(_) => RsxNodeDiscriminants::Comment,
            RsxNode::Text(_) => RsxNodeDiscriminants::Text,
            RsxNode::Block(_) => RsxNodeDiscriminants::Block,
            RsxNode::Fragment(_) => RsxNodeDiscriminants::Fragment,
            RsxNode::Element(_) => RsxNodeDiscriminants::Element,
            RsxNode::Component(_) => RsxNodeDiscriminants::Component,
        }
    }

    /// Returns true if the node is an html node
    pub fn is_html_node(&self) -> (b: bool)
        ensures
            b == self@.is_html_node(),
    {
        match self {
            RsxNode::Doctype | RsxNode::Comment(_) | RsxNode::Text(_) | RsxNode::Element(_) => true,
            _ => false,
        }
    }

    /// A method used by macros to insert nodes into a slot.
    pub fn with_slots(self, name: &str, nodes: Vec<RsxNode>) -> (filled: RsxNode)
        requires
            insert_slots(self@, name@, node_views(nodes@)) is Some,
        ensures
            Some(filled@) == insert_slots(self@, name@, node_views(nodes@)),
    {
        let mut node = self;
        let _ = node.try_insert_slots(name, nodes);
        node
    }

    /// try to insert nodes into the first slot found,
    /// returning any nodes that were not inserted.
    /// If the slot is not a direct child, recursively search children.
    /// Components are not searched because they would steal the slot
    /// from next siblings.
    pub fn try_insert_slots(&mut self, name: &str, to_insert: Vec<RsxNode>) -> (left: Option<
        Vec<RsxNode>,
    >)
        ensures
            match insert_slots(old(self)@, name@, node_views(to_insert@)) {
                Some(v) => left is None && final(self)@ == v,
                None => left == Some(to_insert) && final(self)@ == old(self)@,
            },
        decreases *old(self), 1int,
    {
        match self {
            RsxNode::Fragment(children) => try_insert_slots_among(children, name, to_insert),
            RsxNode::Element(element) => {
                let slot = "slot".to_owned();
                if element.tag == slot && slot_name_is(&element.attributes, name) {
                    let mut nodes = to_insert;
                    let ghost before = element.children@;
                    element.children.append(&mut nodes);
                    proof {
                        assert(node_views(element.children@) =~= node_views(before) + node_views(
                            to_insert@,
                        ));
                    }
                    None
                } else {
                    try_insert_slots_among(&mut element.children, name, to_insert)
                }
            },
            RsxNode::Component(_) => Some(to_insert),
            RsxNode::Block(block) => block.initial.try_insert_slots(name, to_insert),
            RsxNode::Text(_) => Some(to_insert),
            RsxNode::Comment(_) => Some(to_insert),
            RsxNode::Doctype => Some(to_insert),
        }
    }
}

impl RsxElement {
    /// An element without attributes and children.
    pub fn new(tag: String, self_closing: bool) -> (e: RsxElement)
        ensures
            e@ == (RsxNodeView::Element {
                tag: tag@,
                attributes: Seq::empty(),
                children: Seq::empty(),
                self_closing,
            }),
    {
        let e = RsxElement { tag, self_closing, attributes: Vec::new(), children: Vec::new() };
        proof {
            assert(attribute_views(e.attributes@) =~= Seq::empty());
            assert(node_views(e.children@) =~= Seq::empty());
        }
        e
    }

    /// non-recursive check for blocks in children
    pub fn contains_blocks(&self) -> (b: bool)
        ensures
            b == (exists|i: int|
                0 <= i < self@->children.len() && (#[trigger] self@->children[i]) is Block),
    {
        let mut i: usize = 0;
        while i < self.children.len()
            invariant
                i <= self.children@.len(),
                forall|j: int| 0 <= j < i ==> !((#[trigger] node_views(self.children@)[j]) is Block),
            decreases self.children@.len() - i,
        {
            match &self.children[i] {
                RsxNode::Block(_) => {
                    proof {
                        assert(self@->children[i as int] is Block);
                    }
                    return true;
                },
                _ => {},
            }
            i = i + 1;
        }
        false
    }

    /// Whether any children or attributes are blocks,
    /// used to determine whether the node requires an id
    pub fn contains_rust(&self) -> (b: bool)
        ensures
            b == ((exists|i: int|
                0 <= i < self@->children.len() && (#[trigger] self@->children[i]) is Block)
                || (exists|i: int|
                0 <= i < self@->attributes.len() && (#[trigger] self@->attributes[i]).is_rust())),
    {
        if self.contains_blocks() {
            return true;
        }
        let mut i: usize = 0;
        while i < self.attributes.len()
            invariant
                i <= self.attributes@.len(),
                forall|j: int|
                    0 <= j < i ==> !(#[trigger] attribute_views(self.attributes@)[j]).is_rust(),
            decreases self.attributes@.len() - i,
        {
            match &self.attributes[i] {
                RsxAttribute::Block { .. } | RsxAttribute::BlockValue { .. } => {
                    proof {
                        assert(self@->attributes[i as int].is_rust());
                    }
                    return true;
                },
                _ => {},
            }
            i = i + 1;
        }
        false
    }
}

} // verus!
