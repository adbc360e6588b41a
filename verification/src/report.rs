//! The listing of what stays pending, one path per line.

use crate::node::{lemma_branch_view, views, Node, NodeView};
use crate::text::texts;
use vstd::prelude::*;

verus! {

/// The lines for one entry: its own path, and for a directory the lines of
/// its entries after that. A link is listed by the path of the link.
pub open spec fn lines_of(node: NodeView) -> Seq<Seq<char>>
    decreases node,
{
    match node {
        NodeView::Branch(path, children) => seq![path] + lines(children),
        _ => seq![node.path()],
    }
}

/// The lines for a forest: those of its entries, in their order.
pub open spec fn lines(nodes: Seq<NodeView>) -> Seq<Seq<char>>
    decreases nodes,
{
    if nodes.len() == 0 {
        Seq::empty()
    } else {
        lines(nodes.drop_last()) + lines_of(nodes.last())
    }
}

/// The lines to print for a forest, in the order of the forest.
pub fn report_lines(nodes: &[Node]) -> (listing: Vec<String>)
    ensures
        texts(listing@) == lines(views(nodes@)),
    decreases nodes@,
{
    let mut listing: Vec<String> = Vec::new();
    assert(texts(listing@) =~= Seq::empty());
    let mut i: usize = 0;
    while i < nodes.len()
        invariant
            i <= nodes.len(),
            texts(listing@) == lines(views(nodes@.take(i as int))),
        decreases nodes.len() - i,
    {
        let ghost before = listing@;
        let ghost done = views(nodes@.take(i as int));
        let ghost next = views(nodes@.take(i + 1));
        proof {
            assert(next.drop_last() =~= done);
            assert(next.last() == nodes@[i as int]@);
        }
        match &nodes[i] {
            Node::Leaf(path) => {
                listing.push(path.clone());
                assert(texts(listing@) =~= texts(before) + seq![path@]);
            },
            Node::Link(target, _) => {
                listing.push(target.clone());
                assert(texts(listing@) =~= texts(before) + seq![target@]);
            },
            Node::Branch(path, children) => {
                proof {
                    lemma_branch_view(*path, *children);
                    assert(decreases_to!(nodes@ => nodes@[i as int]));
                    assert(decreases_to!(nodes@[i as int] => nodes@[i as int]->Branch_1));
                    assert(decreases_to!(*children => children@));
                }
                listing.push(path.clone());
                let mut below = report_lines(children.as_slice());
                assert(texts(listing@ + below@) =~= texts(before) + (seq![path@] + texts(below@)));
                listing.append(&mut below);
            },
        }
        assert(texts(listing@) =~= lines(done) + lines_of(next.last()));
        i += 1;
    }
    assert(nodes@.take(i as int) =~= nodes@);
    listing
}

} // verus!
