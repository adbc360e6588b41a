//! Removes from the source tree what the target trees already link to.

use crate::node::{
    holds_in_all, holds_throughout, lemma_branch_view, lemma_child_decreases, views, Node, NodeView,
};
use crate::text::{contains_text, texts};
use vstd::prelude::*;

verus! {

/// The paths that the links among `targets` refer to. Entries that are no
/// links contribute nothing.
pub open spec fn linked_paths(targets: Seq<NodeView>) -> Set<Seq<char>> {
    Set::new(
        |path: Seq<char>|
            exists|i: int|
                0 <= i < targets.len() && (#[trigger] targets[i]) is Link && targets[i]->Link_1
                    == path,
    )
}

/// The paths that the links among `targets` refer to, in the order of the
/// links.
pub open spec fn link_sources(targets: Seq<NodeView>) -> Seq<Seq<char>>
    decreases targets.len(),
{
    if targets.len() == 0 {
        Seq::empty()
    } else {
        match targets.last() {
            NodeView::Link(_, source) => link_sources(targets.drop_last()).push(source),
            _ => link_sources(targets.drop_last()),
        }
    }
}

/// The set of paths that a list of path strings holds.
pub open spec fn path_set(paths: Seq<String>) -> Set<Seq<char>> {
    Set::new(|path: Seq<char>| exists|i: int| 0 <= i < paths.len() && (#[trigger] paths[i])@ == path)
}

/// What is left of one entry once everything in `linked` counts as mirrored:
/// nothing where the entry's identity path is linked or where it is a
/// directory whose entries have all gone; else the entry, a directory with
/// only the entries that are left of it. A directory that was empty to begin
/// with stays.
pub open spec fn remaining_of(node: NodeView, linked: Set<Seq<char>>) -> Seq<NodeView>
    decreases node, 1nat,
{
    if linked.contains(node.identity_path()) {
        Seq::empty()
    } else {
        match node {
            NodeView::Branch(_, _) => remaining_of_branch(node, linked),
            _ => seq![node],
        }
    }
}

/// What is left of a directory by way of its entries, whether or not its
/// own path is linked: itself where it is empty, nothing where all its
/// entries have gone, else itself with the entries that are left. Of
/// anything but a directory it is nothing.
pub open spec fn remaining_of_branch(node: NodeView, linked: Set<Seq<char>>) -> Seq<NodeView>
    decreases node, 0nat,
{
    match node {
        NodeView::Branch(path, children) => {
            if children.len() == 0 {
                seq![node]
            } else {
                let rest = remaining(children, linked);
                if rest.len() == 0 {
                    Seq::empty()
                } else {
                    seq![NodeView::Branch(path, rest)]
                }
            }
        },
        _ => Seq::empty(),
    }
}

/// What is left of a forest, entry by entry and in its order.
pub open spec fn remaining(nodes: Seq<NodeView>, linked: Set<Seq<char>>) -> Seq<NodeView>
    decreases nodes, 2nat,
{
    if nodes.len() == 0 {
        Seq::empty()
    } else {
        remaining(nodes.drop_last(), linked) + remaining_of(nodes.last(), linked)
    }
}

/// What is left holds no entry whose identity path is linked, at any depth.
pub proof fn lemma_remaining_holds_no_linked(nodes: Seq<NodeView>, linked: Set<Seq<char>>)
    ensures
        holds_in_all(
            remaining(nodes, linked),
            |node: NodeView| !linked.contains(node.identity_path()),
        ),
    decreases nodes,
{
    let unlinked = |node: NodeView| !linked.contains(node.identity_path());
    if nodes.len() > 0 {
        lemma_remaining_holds_no_linked(nodes.drop_last(), linked);
        let last = nodes.last();
        match last {
            NodeView::Branch(_, children) => {
                lemma_remaining_holds_no_linked(children, linked);
            },
            _ => {},
        }
        let all = remaining(nodes, linked);
        assert forall|i: int| 0 <= i < all.len() implies holds_throughout(
            #[trigger] all[i],
            unlinked,
        ) by {
            let front = remaining(nodes.drop_last(), linked);
            if i < front.len() {
                assert(all[i] == front[i]);
            } else {
                assert(all[i] == remaining_of(last, linked)[0]);
            }
        }
    }
}

/// The source entries that no existing target link mirrors yet.
pub fn filter(sources: &[Node], targets: &[Node]) -> (pending: Vec<Node>)
    ensures
        views(pending@) == remaining(views(sources@), linked_paths(views(targets@))),
{
    let source_path_for_targets = extract_source_path_for_targets(targets);
    let ghost linked = linked_paths(views(targets@));
    assert(path_set(source_path_for_targets@) == linked);
    let mut pending: Vec<Node> = Vec::new();
    let mut i: usize = 0;
    while i < sources.len()
        invariant
            i <= sources.len(),
            path_set(source_path_for_targets@) == linked,
            views(pending@) == remaining(views(sources@.take(i as int)), linked),
        decreases sources.len() - i,
    {
        let mut kept = filter_linked_nodes(&sources[i], &source_path_for_targets);
        proof {
            let before = views(sources@.take(i as int));
            let after = views(sources@.take(i + 1));
            assert(after.drop_last() =~= before);
            assert(after.last() == sources@[i as int]@);
            assert(views(pending@ + kept@) =~= views(pending@) + views(kept@));
        }
        pending.append(&mut kept);
        i += 1;
    }
    assert(sources@.take(i as int) =~= sources@);
    pending
}

/// The referents of the links among `targets`, in their order.
pub fn extract_source_path_for_targets(targets: &[Node]) -> (paths: Vec<String>)
    ensures
        texts(paths@) == link_sources(views(targets@)),
        path_set(paths@) == linked_paths(views(targets@)),
{
    let mut paths: Vec<String> = Vec::new();
    assert(texts(paths@) =~= Seq::empty());
    let mut i: usize = 0;
    while i < targets.len()
        invariant
            i <= targets.len(),
            texts(paths@) == link_sources(views(targets@.take(i as int))),
            path_set(paths@) == linked_paths(views(targets@.take(i as int))),
        decreases targets.len() - i,
    {
        let ghost before = views(targets@.take(i as int));
        let ghost after = views(targets@.take(i + 1));
        let ghost old_paths = paths@;
        assert(after.drop_last() =~= before);
        assert(after.last() == targets@[i as int]@);
        match &targets[i] {
            Node::Link(_, source) => {
                paths.push(source.clone());
                proof {
                    assert(texts(paths@) =~= texts(old_paths).push(source@));
                    assert forall|path: Seq<char>|
                        path_set(paths@).contains(path) == linked_paths(after).contains(
                            path,
                        ) by {
                        if path_set(paths@).contains(path) {
                            let j = choose|j: int| 0 <= j < paths@.len() && paths@[j]@ == path;
                            if j < old_paths.len() {
                                assert(old_paths[j]@ == path);
                                assert(path_set(old_paths).contains(path));
                                let k = choose|k: int|
                                    0 <= k < before.len() && (#[trigger] before[k]) is Link
                                        && before[k]->Link_1 == path;
                                assert(after[k] == before[k]);
                            } else {
                                assert(after[i as int]->Link_1 == path);
                            }
                        }
                        if linked_paths(after).contains(path) {
                            let k = choose|k: int|
                                0 <= k < after.len() && (#[trigger] after[k]) is Link
                                    && after[k]->Link_1 == path;
                            if k < before.len() {
                                assert(before[k] == after[k]);
                                assert(linked_paths(before).contains(path));
                                let j = choose|j: int|
                                    0 <= j < old_paths.len() && (#[trigger] old_paths[j])@ == path;
                                assert(paths@[j]@ == path);
                            } else {
                                assert(paths@[old_paths.len() as int]@ == path);
                            }
                        }
                    }
                    assert(path_set(paths@) =~= linked_paths(after));
                }
            },
            _ => {
                proof {
                    assert forall|path: Seq<char>|
                        linked_paths(before).contains(path) == linked_paths(after).contains(
                            path,
                        ) by {
                        if linked_paths(before).contains(path) {
                            let k = choose|k: int|
                                0 <= k < before.len() && (#[trigger] before[k]) is Link
                                    && before[k]->Link_1 == path;
                            assert(after[k] == before[k]);
                        }
                        if linked_paths(after).contains(path) {
                            let k = choose|k: int|
                                0 <= k < after.len() && (#[trigger] after[k]) is Link
                                    && after[k]->Link_1 == path;
                            assert(before[k] == after[k]);
                        }
                    }
                    assert(linked_paths(before) =~= linked_paths(after));
                }
            },
        }
        i += 1;
    }
    assert(targets@.take(i as int) =~= targets@);
    paths
}

/// What is left of one entry: see [`remaining_of`].
pub fn filter_linked_nodes(node: &Node, source_path_for_targets: &[String]) -> (kept: Vec<Node>)
    ensures
        views(kept@) == remaining_of(node@, path_set(source_path_for_targets@)),
    decreases *node, 1nat,
{
    if is_linked(node, source_path_for_targets) {
        let kept: Vec<Node> = Vec::new();
        assert(views(kept@) =~= Seq::empty());
        kept
    } else {
        match node {
            Node::Branch(_, _) => filter_branch(node, source_path_for_targets),
            _ => {
                let mut kept: Vec<Node> = Vec::new();
                kept.push(node.clone());
                assert(views(kept@) =~= seq![node@]);
                kept
            },
        }
    }
}

/// Whether the identity path of `node` is among the given paths.
pub fn is_linked(node: &Node, source_path_for_targets: &[String]) -> (linked: bool)
    ensures
        linked == path_set(source_path_for_targets@).contains(node@.identity_path()),
{
    match node {
        Node::Leaf(path) => contains_path(source_path_for_targets, path),
        Node::Link(_, source) => contains_path(source_path_for_targets, source),
        Node::Branch(path, children) => {
            proof {
                lemma_branch_view(*path, *children);
            }
            contains_path(source_path_for_targets, path)
        },
    }
}

/// Whether `path` occurs in `paths`.
fn contains_path(paths: &[String], path: &String) -> (found: bool)
    ensures
        found == path_set(paths@).contains(path@),
{
    let found = contains_text(paths, path);
    proof {
        if found {
            let j = choose|j: int| 0 <= j < texts(paths@).len() && texts(paths@)[j] == path@;
            assert(paths@[j]@ == path@);
        }
        if path_set(paths@).contains(path@) {
            let j = choose|j: int| 0 <= j < paths@.len() && (#[trigger] paths@[j])@ == path@;
            assert(texts(paths@)[j] == path@);
        }
    }
    found
}

/// What is left of a directory by way of its entries: see
/// [`remaining_of_branch`].
pub fn filter_branch(node: &Node, source_path_for_targets: &[String]) -> (kept: Vec<Node>)
    ensures
        views(kept@) == remaining_of_branch(node@, path_set(source_path_for_targets@)),
    decreases *node, 0nat,
{
    let ghost linked = path_set(source_path_for_targets@);
    let mut kept: Vec<Node> = Vec::new();
    match node {
        Node::Branch(path, nodes) => {
            proof {
                lemma_branch_view(*path, *nodes);
            }
            if !nodes.is_empty() {
                let mut remaining_nodes: Vec<Node> = Vec::new();
                let mut i: usize = 0;
                while i < nodes.len()
                    invariant
                        *node == Node::Branch(*path, *nodes),
                        i <= nodes.len(),
                        linked == path_set(source_path_for_targets@),
                        views(remaining_nodes@) == remaining(
                            views(nodes@.take(i as int)),
                            linked,
                        ),
                    decreases nodes.len() - i,
                {
                    proof {
                        lemma_child_decreases(*node, i as int);
                    }
                    let mut rest = filter_linked_nodes(&nodes[i], source_path_for_targets);
                    proof {
                        let before = views(nodes@.take(i as int));
                        let after = views(nodes@.take(i + 1));
                        assert(after.drop_last() =~= before);
                        assert(after.last() == nodes@[i as int]@);
                        assert(views(remaining_nodes@ + rest@) =~= views(remaining_nodes@) + views(
                            rest@,
                        ));
                    }
                    remaining_nodes.append(&mut rest);
                    i += 1;
                }
                assert(nodes@.take(i as int) =~= nodes@);
                if !remaining_nodes.is_empty() {
                    let branch = Node::Branch(path.clone(), remaining_nodes);
                    proof {
                        lemma_branch_view(branch->Branch_0, branch->Branch_1);
                    }
                    kept.push(branch);
                    assert(views(kept@) =~= seq![branch@]);
                } else {
                    assert(views(kept@) =~= Seq::empty());
                }
            } else {
                kept.push(node.clone());
                assert(views(kept@) =~= seq![node@]);
            }
        },
        _ => {
            assert(views(kept@) =~= Seq::empty());
        },
    }
    kept
}

} // verus!
