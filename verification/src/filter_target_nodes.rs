//! Reduces a snapshot of the target trees to the links that exist in them.

use crate::node::{lemma_branch_view, lemma_child_decreases, views, Node, NodeView};
use vstd::prelude::*;

verus! {

/// The links found at or below `node`, in the order of the tree.
pub open spec fn links_in(node: NodeView) -> Seq<NodeView>
    decreases node,
{
    match node {
        NodeView::Leaf(_) => Seq::empty(),
        NodeView::Link(_, _) => seq![node],
        NodeView::Branch(_, children) => links_of(children),
    }
}

/// The links found anywhere in the forest `nodes`, in the order of the forest.
pub open spec fn links_of(nodes: Seq<NodeView>) -> Seq<NodeView>
    decreases nodes,
{
    if nodes.len() == 0 {
        Seq::empty()
    } else {
        links_of(nodes.drop_last()) + links_in(nodes.last())
    }
}

/// Every entry that the extractor yields is a link.
pub proof fn lemma_links_of_are_links(nodes: Seq<NodeView>)
    ensures
        forall|i: int| 0 <= i < links_of(nodes).len() ==> links_of(nodes)[i] is Link,
    decreases nodes,
{
    if nodes.len() > 0 {
        let front = links_of(nodes.drop_last());
        lemma_links_of_are_links(nodes.drop_last());
        match nodes.last() {
            NodeView::Branch(_, children) => lemma_links_of_are_links(children),
            _ => {},
        }
        assert forall|i: int| 0 <= i < links_of(nodes).len() implies links_of(nodes)[i] is Link by {
            if i >= front.len() {
                assert(links_of(nodes)[i] == links_in(nodes.last())[i - front.len()]);
            }
        }
    }
}

/// Collects every link of a forest into one flat sequence; directories are
/// descended into and dropped, plain files are dropped.
pub fn filter_target_nodes(nodes: &[Node]) -> (links: Vec<Node>)
    ensures
        views(links@) == links_of(views(nodes@)),
{
    let mut links: Vec<Node> = Vec::new();
    let mut i: usize = 0;
    while i < nodes.len()
        invariant
            i <= nodes.len(),
            views(links@) == links_of(views(nodes@.take(i as int))),
        decreases nodes.len() - i,
    {
        let mut found = filter_links(&nodes[i]);
        proof {
            let before = views(nodes@.take(i as int));
            let after = views(nodes@.take(i + 1));
            assert(after.drop_last() =~= before);
            assert(after.last() == nodes@[i as int]@);
            assert(views(links@ + found@) =~= views(links@) + views(found@));
        }
        links.append(&mut found);
        i += 1;
    }
    assert(nodes@.take(i as int) =~= nodes@);
    links
}

/// Collects the links at or below one entry.
pub fn filter_links(node: &Node) -> (links: Vec<Node>)
    ensures
        views(links@) == links_in(node@),
    decreases *node,
{
    match node {
        Node::Branch(path, children) => {
            let mut links: Vec<Node> = Vec::new();
            let mut i: usize = 0;
            while i < children.len()
                invariant
                    *node == Node::Branch(*path, *children),
                    i <= children.len(),
                    views(links@) == links_of(views(children@.take(i as int))),
                decreases children.len() - i,
            {
                proof {
                    lemma_child_decreases(*node, i as int);
                }
                let mut found = filter_links(&children[i]);
                proof {
                    let before = views(children@.take(i as int));
                    let after = views(children@.take(i + 1));
                    assert(after.drop_last() =~= before);
                    assert(after.last() == children@[i as int]@);
                    assert(views(links@ + found@) =~= views(links@) + views(found@));
                }
                links.append(&mut found);
                i += 1;
            }
            proof {
                assert(children@.take(i as int) =~= children@);
                lemma_branch_view(*path, *children);
            }
            links
        },
        Node::Leaf(_) => {
            let links: Vec<Node> = Vec::new();
            assert(views(links@) =~= Seq::empty());
            links
        },
        Node::Link(_, _) => {
            let mut links: Vec<Node> = Vec::new();
            links.push(node.clone());
            assert(views(links@) =~= seq![node@]);
            links
        },
    }
}

} // verus!
