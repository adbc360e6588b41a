//! The tree of file system entries that every other module works on.

use vstd::prelude::*;

verus! {

/// An entry of a directory tree snapshot.
#[derive(Eq, PartialEq, Ord, PartialOrd, Debug)]
pub enum Node {
    /// A plain file, by its path.
    Leaf(String),
    /// A symbolic link: the path of the link, then the absolute path it refers to.
    Link(String, String),
    /// A directory: its path and its entries.
    Branch(String, Vec<Node>),
}

/// The mathematical value of a [`Node`]: paths are sequences of characters and
/// the entries of a directory form a sequence of such values.
pub ghost enum NodeView {
    Leaf(Seq<char>),
    Link(Seq<char>, Seq<char>),
    Branch(Seq<char>, Seq<NodeView>),
}

impl NodeView {
    /// The path at which the entry itself lives.
    pub open spec fn path(self) -> Seq<char> {
        match self {
            NodeView::Leaf(path) => path,
            NodeView::Link(path, _) => path,
            NodeView::Branch(path, _) => path,
        }
    }

    /// The path by which the entry is recognised as already linked: the
    /// referent of a link, the own path of anything else.
    pub open spec fn identity_path(self) -> Seq<char> {
        match self {
            NodeView::Leaf(path) => path,
            NodeView::Link(_, source) => source,
            NodeView::Branch(path, _) => path,
        }
    }
}

/// Whether `holds` is true of `node` and of every entry below it.
pub open spec fn holds_throughout(node: NodeView, holds: spec_fn(NodeView) -> bool) -> bool
    decreases node,
{
    &&& holds(node)
    &&& match node {
        NodeView::Branch(_, children) => holds_in_all(children, holds),
        _ => true,
    }
}

/// Whether `holds` is true of every entry of a forest, at any depth.
pub open spec fn holds_in_all(nodes: Seq<NodeView>, holds: spec_fn(NodeView) -> bool) -> bool
    decreases nodes,
{
    forall|i: int| 0 <= i < nodes.len() ==> holds_throughout(#[trigger] nodes[i], holds)
}

impl View for Node {
    type V = NodeView;

    open spec fn view(&self) -> NodeView
        decreases self,
    {
        match self {
            Node::Leaf(path) => NodeView::Leaf(path@),
            Node::Link(path, source) => NodeView::Link(path@, source@),
            Node::Branch(path, children) => NodeView::Branch(
                path@,
                Seq::new(
                    children@.len(),
                    |i: int|
                        if 0 <= i < children@.len() {
                            children@[i].view()
                        } else {
                            NodeView::Leaf(Seq::empty())
                        },
                ),
            ),
        }
    }
}

/// The values of a sequence of nodes, entry by entry.
pub open spec fn views(nodes: Seq<Node>) -> Seq<NodeView> {
    nodes.map_values(|node: Node| node@)
}

/// The entries of a directory are the values of its children.
pub proof fn lemma_branch_view(path: String, children: Vec<Node>)
    ensures
        Node::Branch(path, children)@ == NodeView::Branch(path@, views(children@)),
{
    let node = Node::Branch(path, children);
    assert(node@->Branch_1 =~= views(children@));
}

/// A child of a directory is structurally smaller than the directory.
pub proof fn lemma_child_decreases(node: Node, i: int)
    requires
        node is Branch,
        0 <= i < node->Branch_1.len(),
    ensures
        decreases_to!(node => node->Branch_1[i]),
{
    assert(decreases_to!(node => node->Branch_1));
    assert(decreases_to!(node->Branch_1 => node->Branch_1[i]));
}

impl Clone for Node {
    fn clone(&self) -> (res: Self)
        ensures
            res@ == self@,
        decreases *self,
    {
        match self {
            Node::Leaf(path) => Node::Leaf(path.clone()),
            Node::Link(path, source) => Node::Link(path.clone(), source.clone()),
            Node::Branch(path, children) => {
                let mut copies: Vec<Node> = Vec::new();
                let mut i: usize = 0;
                while i < children.len()
                    invariant
                        *self == Node::Branch(*path, *children),
                        i <= children.len(),
                        copies@.len() == i,
                        forall|j: int| 0 <= j < i ==> (#[trigger] copies@[j])@ == children@[j]@,
                    decreases children.len() - i,
                {
                    proof {
                        lemma_child_decreases(*self, i as int);
                    }
                    copies.push(children[i].clone());
                    i += 1;
                }
                let copy = Node::Branch(path.clone(), copies);
                proof {
                    lemma_branch_view(*path, *children);
                    lemma_branch_view(copy->Branch_0, copy->Branch_1);
                    assert(views(copies@) =~= views(children@));
                }
                copy
            },
        }
    }
}

} // verus!
