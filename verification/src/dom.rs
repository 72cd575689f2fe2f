//! The document tree: text nodes and element nodes.

use vstd::prelude::*;
use crate::attrs::AttrMap;

verus! {

/// What an element carries besides its children.
#[derive(Debug)]
pub struct ElementData {
    pub tag_name: String,
    pub attrs: AttrMap,
}

/// The two shapes a node can have.
#[derive(Debug)]
pub enum NodeType {
    Text(String),
    Element(ElementData),
}

/// One vertex of the document tree, owning its children in document order.
#[derive(Debug)]
pub struct Node {
    pub children: Vec<Node>,
    pub node_type: NodeType,
}

/// The mathematical value of an [`ElementData`].
pub struct ElementDataView {
    pub tag_name: Seq<char>,
    pub attrs: Map<Seq<char>, Seq<char>>,
}

/// The mathematical value of a [`NodeType`].
pub enum NodeTypeView {
    Text(Seq<char>),
    Element(ElementDataView),
}

/// The mathematical value of a [`Node`]: the same tree over sequences.
pub struct NodeView {
    pub children: Seq<NodeView>,
    pub node_type: NodeTypeView,
}

impl View for ElementData {
    type V = ElementDataView;

    open spec fn view(&self) -> ElementDataView {
        ElementDataView { tag_name: self.tag_name@, attrs: self.attrs@ }
    }
}

impl View for NodeType {
    type V = NodeTypeView;

    open spec fn view(&self) -> NodeTypeView {
        match self {
            NodeType::Text(s) => NodeTypeView::Text(s@),
            NodeType::Element(e) => NodeTypeView::Element(e@),
        }
    }
}

impl View for Node {
    type V = NodeView;

    open spec fn view(&self) -> NodeView
        decreases self,
    {
        NodeView {
            children: Seq::new(
                self.children.len() as nat,
                |i: int|
                    if 0 <= i < self.children.len() {
                        self.children[i]@
                    } else {
                        arbitrary()
                    },
            ),
            node_type: self.node_type@,
        }
    }
}

/// The values of `nodes`, one for one.
pub open spec fn views(nodes: Seq<Node>) -> Seq<NodeView> {
    Seq::new(nodes.len(), |i: int| nodes[i]@)
}

impl Node {
    /// The children of a node's value are the values of its children.
    pub proof fn lemma_children(&self)
        ensures
            self@.children == views(self.children@),
            self@.node_type == self.node_type@,
    {
        reveal_with_fuel(<Node as View>::view, 2);
        assert(self@.children =~= views(self.children@));
    }

    /// A text node holding `data`, without children.
    pub fn text(data: String) -> (node: Node)
        ensures
            node@ == (NodeView { children: Seq::empty(), node_type: NodeTypeView::Text(data@) }),
    {
        let node = Node { children: Vec::new(), node_type: NodeType::Text(data) };
        assert(node@.children =~= Seq::empty());
        node
    }

    /// An element node named `tag_name`, with the attributes `attrs` and the
    /// children `children` in their order.
    pub fn elem(tag_name: String, attrs: AttrMap, children: Vec<Node>) -> (node: Node)
        ensures
            node@ == (NodeView {
                children: views(children@),
                node_type: NodeTypeView::Element(
                    ElementDataView { tag_name: tag_name@, attrs: attrs@ },
                ),
            }),
    {
        let node = Node { children, node_type: NodeType::Element(ElementData { tag_name, attrs }) };
        proof {
            node.lemma_children();
        }
        node
    }
}

} // verus!
