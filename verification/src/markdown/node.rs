//! The document tree.

use vstd::prelude::*;
use crate::markdown::text::{SpecText, Text, text_views};

verus! {

/// How a list item is marked.
#[derive(Clone, Copy, Debug, PartialEq, Eq, Structural)]
pub enum ListOrderType {
    Unordered,
    Ordered(usize),
}

/// A node of the document tree. Each node owns its children.
#[derive(Debug, PartialEq, Eq)]
pub enum Node {
    Document(Vec<Node>),
    Heading { level: usize, content: Vec<Text>, subnodes: Vec<Node> },
    Paragraph(Vec<Node>),
    Text(Text),
    List { items: Vec<Node> },
    ListItem { text: Vec<Text>, order: ListOrderType, subnodes: Vec<Node> },
}

/// The mathematical value of a [`Node`].
pub enum SpecNode {
    Document(Seq<SpecNode>),
    Heading { level: nat, content: Seq<SpecText>, subnodes: Seq<SpecNode> },
    Paragraph(Seq<SpecNode>),
    Text(SpecText),
    List { items: Seq<SpecNode> },
    ListItem { text: Seq<SpecText>, order: ListOrderType, subnodes: Seq<SpecNode> },
}

/// The values of a run of nodes, in order.
pub open spec fn node_views(nodes: Seq<Node>) -> Seq<SpecNode>
    decreases nodes, 1int,
{
    Seq::new(
        nodes.len(),
        |i: int|
            if 0 <= i < nodes.len() {
                node_view(nodes[i])
            } else {
                SpecNode::Document(Seq::empty())
            },
    )
}

/// The value of one node: its own data with the values of its children.
pub open spec fn node_view(node: Node) -> SpecNode
    decreases node, 0int,
{
    match node {
        Node::Document(children) => SpecNode::Document(node_views(children@)),
        Node::Heading { level, content, subnodes } => SpecNode::Heading {
            level: level as nat,
            content: text_views(content@),
            subnodes: node_views(subnodes@),
        },
        Node::Paragraph(children) => SpecNode::Paragraph(node_views(children@)),
        Node::Text(text) => SpecNode::Text(text@),
        Node::List { items } => SpecNode::List { items: node_views(items@) },
        Node::ListItem { text, order, subnodes } => SpecNode::ListItem {
            text: text_views(text@),
            order,
            subnodes: node_views(subnodes@),
        },
    }
}

impl View for Node {
    type V = SpecNode;

    open spec fn view(&self) -> SpecNode {
        node_view(*self)
    }
}

/// Whether a node is well formed as a node below the document root: it is
/// no document, a heading in it has a level from 1 to 6, the children of a
/// paragraph are text nodes, the items of a list are list items, and all
/// that hangs under it is well formed in the same way.
pub open spec fn well_formed_block(node: SpecNode) -> bool
    decreases node,
{
    match node {
        SpecNode::Document(_) => false,
        SpecNode::Heading { level, subnodes, .. } => 1 <= level <= 6 && forall|i: int|
            0 <= i < subnodes.len() ==> well_formed_block(#[trigger] subnodes[i]),
        SpecNode::Paragraph(children) => forall|i: int|
            0 <= i < children.len() ==> #[trigger] children[i] is Text,
        SpecNode::Text(_) => true,
        SpecNode::List { items } => forall|i: int|
            0 <= i < items.len() ==> #[trigger] items[i] is ListItem && well_formed_block(
                items[i],
            ),
        SpecNode::ListItem { subnodes, .. } => forall|i: int|
            0 <= i < subnodes.len() ==> well_formed_block(#[trigger] subnodes[i]),
    }
}

/// Whether each node of a run is well formed as a node below the document
/// root.
pub open spec fn well_formed_blocks(nodes: Seq<SpecNode>) -> bool {
    forall|i: int| 0 <= i < nodes.len() ==> well_formed_block(#[trigger] nodes[i])
}

/// Whether a tree is a well-formed document: its root is the one document in
/// it, and all that hangs under the root is well formed.
pub open spec fn well_formed_document(node: SpecNode) -> bool {
    match node {
        SpecNode::Document(children) => well_formed_blocks(children),
        _ => false,
    }
}

/// The nodes that a node owns as its children, in their stored order.
pub open spec fn children(node: SpecNode) -> Seq<SpecNode> {
    match node {
        SpecNode::Document(children) => children,
        SpecNode::Heading { subnodes, .. } => subnodes,
        SpecNode::Paragraph(children) => children,
        SpecNode::Text(_) => Seq::empty(),
        SpecNode::List { items } => items,
        SpecNode::ListItem { subnodes, .. } => subnodes,
    }
}

/// The nodes of a tree in the order of a walk that goes depth first: a node
/// stands before its children, and each child with all that hangs under it
/// before the next child.
pub open spec fn preorder(node: SpecNode) -> Seq<SpecNode>
    decreases node, 0nat,
{
    seq![node] + match node {
        SpecNode::Document(children) => preorder_run(children, children.len()),
        SpecNode::Heading { subnodes, .. } => preorder_run(subnodes, subnodes.len()),
        SpecNode::Paragraph(children) => preorder_run(children, children.len()),
        SpecNode::Text(_) => Seq::empty(),
        SpecNode::List { items } => preorder_run(items, items.len()),
        SpecNode::ListItem { subnodes, .. } => preorder_run(subnodes, subnodes.len()),
    }
}

/// The nodes of the first `count` of the given trees in the order of the
/// walk, tree by tree.
pub open spec fn preorder_run(nodes: Seq<SpecNode>, count: nat) -> Seq<SpecNode>
    decreases nodes, count,
{
    if count == 0 || count > nodes.len() {
        Seq::empty()
    } else {
        preorder_run(nodes, (count - 1) as nat) + preorder(nodes[count - 1])
    }
}

/// The values of the nodes that the references point to.
pub open spec fn views_of(visited: Seq<&Node>) -> Seq<SpecNode> {
    Seq::new(visited.len(), |i: int| (*visited[i])@)
}

impl Node {
    /// The node's children, in their stored order; none for a text node.
    pub fn children(&self) -> (owned: Option<&Vec<Node>>)
        ensures
            match owned {
                Some(nodes) => node_views(nodes@) == children(self@) && !(self is Text),
                None => self is Text,
            },
    {
        match self {
            Node::Document(children) => Some(children),
            Node::Heading { subnodes, .. } => Some(subnodes),
            Node::Paragraph(children) => Some(children),
            Node::Text(_) => None,
            Node::List { items } => Some(items),
            Node::ListItem { subnodes, .. } => Some(subnodes),
        }
    }

    /// The nodes of the tree in the order of a walk that goes depth first and
    /// takes the children of each node in their stored order.
    pub fn depth_first<'a>(&'a self) -> (visited: Vec<&'a Node>)
        ensures
            views_of(visited@) == preorder(self@),
    {
        let mut visited: Vec<&'a Node> = Vec::new();
        assert(views_of(visited@) =~= Seq::<SpecNode>::empty());
        self.visit(&mut visited);
        assert(Seq::<SpecNode>::empty() + preorder(self@) =~= preorder(self@));
        visited
    }

    /// Appends the nodes of the tree to `visited` in the order of the walk.
    fn visit<'a>(&'a self, visited: &mut Vec<&'a Node>)
        ensures
            views_of(final(visited)@) == views_of(old(visited)@) + preorder(self@),
        decreases self, 1nat,
    {
        let ghost before = views_of(visited@);
        visited.push(self);
        assert(views_of(visited@) =~= before + seq![self@]);
        match self {
            Node::Document(children) => {
                Node::visit_run(children, visited);
            },
            Node::Heading { subnodes, .. } => {
                Node::visit_run(subnodes, visited);
            },
            Node::Paragraph(children) => {
                Node::visit_run(children, visited);
            },
            Node::Text(_) => {},
            Node::List { items } => {
                Node::visit_run(items, visited);
            },
            Node::ListItem { subnodes, .. } => {
                Node::visit_run(subnodes, visited);
            },
        }
        assert(views_of(visited@) =~= before + preorder(self@));
    }

    /// Appends the nodes of the given trees to `visited` in the order of the
    /// walk, tree by tree.
    fn visit_run<'a>(nodes: &'a Vec<Node>, visited: &mut Vec<&'a Node>)
        ensures
            views_of(final(visited)@) == views_of(old(visited)@) + preorder_run(
                node_views(nodes@),
                nodes@.len(),
            ),
        decreases nodes, 0nat,
    {
        let ghost before = views_of(visited@);
        let ghost all = node_views(nodes@);
        let mut i: usize = 0;
        assert(views_of(visited@) =~= before + preorder_run(all, 0));
        while i < nodes.len()
            invariant
                i <= nodes.len(),
                all == node_views(nodes@),
                views_of(visited@) == before + preorder_run(all, i as nat),
            decreases nodes.len() - i,
        {
            let ghost so_far = views_of(visited@);
            nodes[i].visit(visited);
            assert(all[i as int] == nodes@[i as int]@);
            i = i + 1;
            assert(views_of(visited@) =~= before + preorder_run(all, i as nat));
        }
    }
}

} // verus!
