//! Prunes the source tree by the names that the configuration excludes.

use crate::node::{holds_in_all, holds_throughout, lemma_branch_view, views, Node, NodeView};
use crate::text::{basename, contains_text, extract_basename, lowercase, texts, to_lowercase};
use vstd::prelude::*;

verus! {

/// Whether the final path segment of `node`, lower-cased, is one of `excludes`.
/// The comparison is plain equality of texts: an exclude is no pattern.
pub open spec fn is_excluded(node: NodeView, excludes: Seq<Seq<char>>) -> bool {
    excludes.contains(lowercase(basename(node.path())))
}

/// An entry with everything excluded removed below it.
pub open spec fn pruned(node: NodeView, excludes: Seq<Seq<char>>) -> NodeView
    decreases node,
{
    match node {
        NodeView::Branch(path, children) => NodeView::Branch(path, retained(children, excludes)),
        _ => node,
    }
}

/// The entries of a forest that are not excluded, each pruned, in their order.
pub open spec fn retained(nodes: Seq<NodeView>, excludes: Seq<Seq<char>>) -> Seq<NodeView>
    decreases nodes,
{
    if nodes.len() == 0 {
        Seq::empty()
    } else {
        let front = retained(nodes.drop_last(), excludes);
        if is_excluded(nodes.last(), excludes) {
            front
        } else {
            front.push(pruned(nodes.last(), excludes))
        }
    }
}

/// Pruning keeps the kind and the paths of an entry, so whether an entry is
/// excluded can be read off before or after its children were pruned.
pub proof fn lemma_pruned_keeps_path(node: NodeView, excludes: Seq<Seq<char>>)
    ensures
        pruned(node, excludes).path() == node.path(),
        pruned(node, excludes).identity_path() == node.identity_path(),
        is_excluded(pruned(node, excludes), excludes) == is_excluded(node, excludes),
{
}

/// What is kept holds no excluded entry, at any depth.
pub proof fn lemma_retained_holds_no_excluded(nodes: Seq<NodeView>, excludes: Seq<Seq<char>>)
    ensures
        holds_in_all(
            retained(nodes, excludes),
            |node: NodeView| !is_excluded(node, excludes),
        ),
    decreases nodes,
{
    let kept = |node: NodeView| !is_excluded(node, excludes);
    if nodes.len() > 0 {
        lemma_retained_holds_no_excluded(nodes.drop_last(), excludes);
        let last = nodes.last();
        match last {
            NodeView::Branch(_, children) => {
                lemma_retained_holds_no_excluded(children, excludes);
            },
            _ => {},
        }
        let all = retained(nodes, excludes);
        assert forall|i: int| 0 <= i < all.len() implies holds_throughout(
            #[trigger] all[i],
            kept,
        ) by {
            let front = retained(nodes.drop_last(), excludes);
            if i < front.len() {
                assert(all[i] == front[i]);
            } else {
                assert(all[i] == pruned(last, excludes));
            }
        }
    }
}

/// Removes every entry whose name is excluded, at any depth. `excludes`
/// holds lower-case names; the name of an entry is lower-cased before it is
/// looked up.
pub fn filter_source_nodes(nodes: &[Node], excludes: &[String]) -> (kept: Vec<Node>)
    ensures
        views(kept@) == retained(views(nodes@), texts(excludes@)),
{
    recursive_exclusion_for_nodes(nodes, excludes)
}

/// See [`retained`].
pub fn recursive_exclusion_for_nodes(nodes: &[Node], excludes: &[String]) -> (kept: Vec<Node>)
    ensures
        views(kept@) == retained(views(nodes@), texts(excludes@)),
    decreases nodes@,
{
    let mut kept: Vec<Node> = Vec::new();
    let mut i: usize = 0;
    while i < nodes.len()
        invariant
            i <= nodes.len(),
            views(kept@) == retained(views(nodes@.take(i as int)), texts(excludes@)),
        decreases nodes.len() - i,
    {
        let candidate = recursive_exclusion_for_node(&nodes[i], excludes);
        proof {
            let before = views(nodes@.take(i as int));
            let after = views(nodes@.take(i + 1));
            assert(after.drop_last() =~= before);
            assert(after.last() == nodes@[i as int]@);
            lemma_pruned_keeps_path(nodes@[i as int]@, texts(excludes@));
            assert(views(kept@.push(candidate)) =~= views(kept@).push(candidate@));
        }
        if exclude(&candidate, excludes) {
            kept.push(candidate);
        }
        i += 1;
    }
    assert(nodes@.take(i as int) =~= nodes@);
    kept
}

/// See [`pruned`].
pub fn recursive_exclusion_for_node(node: &Node, excludes: &[String]) -> (kept: Node)
    ensures
        kept@ == pruned(node@, texts(excludes@)),
    decreases *node,
{
    match node {
        Node::Branch(path, nodes) => {
            proof {
                lemma_branch_view(*path, *nodes);
                assert(decreases_to!(*node => node->Branch_1));
                assert(decreases_to!(*nodes => nodes@));
            }
            let branch = Node::Branch(
                path.clone(),
                recursive_exclusion_for_nodes(nodes.as_slice(), excludes),
            );
            proof {
                lemma_branch_view(branch->Branch_0, branch->Branch_1);
            }
            branch
        },
        Node::Leaf(_) => node.clone(),
        Node::Link(_, _) => node.clone(),
    }
}

/// Whether `node` passes the exclusion, that is, whether it is kept.
pub fn exclude(node: &Node, excludes: &[String]) -> (keep: bool)
    ensures
        keep == !is_excluded(node@, texts(excludes@)),
{
    let basename = extract_basename_from_node(node);
    let lower = to_lowercase(basename.as_str());
    !contains_text(excludes, &lower)
}

/// The final path segment of an entry's own path.
pub fn extract_basename_from_node(node: &Node) -> (name: String)
    ensures
        name@ == basename(node@.path()),
{
    match node {
        Node::Branch(path, children) => {
            proof {
                lemma_branch_view(*path, *children);
            }
            extract_basename(path.as_str())
        },
        Node::Leaf(path) => extract_basename(path.as_str()),
        Node::Link(path, _) => extract_basename(path.as_str()),
    }
}

} // verus!
