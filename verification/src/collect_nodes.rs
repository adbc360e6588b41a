//! Builds the snapshot of one directory level from what was read of it.
//!
//! Reading the directory is left to the caller, who hands over one
//! [`Entry`] for each thing found.

use crate::link::{parent_directory, parent_path};
use crate::node::{lemma_branch_view, views, Node, NodeView};
use crate::order::{is_sorted, lemma_sorted_seq_of_rearrangement, sort_nodes, sorted_seq};
use std::path::Path;
use vstd::prelude::*;

verus! {

/// What the file system says an entry is, found without following links.
#[derive(Eq, PartialEq, Debug)]
pub enum EntryKind {
    /// Anything that is neither a symbolic link nor a directory.
    File,
    /// A symbolic link, with the absolute, resolved path that it refers to.
    Symlink(String),
    /// A directory, with the snapshot of what it holds.
    Directory(Vec<Node>),
}

/// One thing found in a directory.
#[derive(Eq, PartialEq, Debug)]
pub struct Entry {
    /// The path of the entry, where it can be written as text.
    pub path: Option<String>,
    /// What the entry is.
    pub kind: EntryKind,
}

/// The node that stands for an entry: none for an entry without a path.
pub open spec fn entry_node(entry: Entry) -> Option<NodeView> {
    match entry.path {
        Some(path) => Some(
            match entry.kind {
                EntryKind::File => NodeView::Leaf(path@),
                EntryKind::Symlink(source) => NodeView::Link(path@, source@),
                EntryKind::Directory(children) => NodeView::Branch(path@, views(children@)),
            },
        ),
        None => None,
    }
}

/// The nodes that stand for the entries that have a path, in their order.
pub open spec fn entry_nodes(entries: Seq<Entry>) -> Seq<NodeView>
    decreases entries.len(),
{
    if entries.len() == 0 {
        Seq::empty()
    } else {
        match entry_node(entries.last()) {
            Some(node) => entry_nodes(entries.drop_last()).push(node),
            None => entry_nodes(entries.drop_last()),
        }
    }
}

/// The snapshot of a directory level: the nodes of the entries that have a
/// path, in canonical order.
pub fn collect_and_transform_nodes(entries: Vec<Entry>) -> (nodes: Vec<Node>)
    ensures
        views(nodes@) == sorted_seq(entry_nodes(entries@)),
        is_sorted(views(nodes@)),
        views(nodes@).to_multiset() == entry_nodes(entries@).to_multiset(),
{
    broadcast use vstd::seq_lib::group_to_multiset_ensures;

    let ghost all = entry_nodes(entries@);
    let mut rest = entries;
    let mut nodes: Vec<Node> = Vec::new();
    assert(views(nodes@) =~= Seq::empty());
    while rest.len() > 0
        invariant
            views(nodes@).to_multiset().add(entry_nodes(rest@).to_multiset()) == all.to_multiset(),
        decreases rest.len(),
    {
        let ghost before = rest@;
        let ghost found = views(nodes@);
        let entry = rest.pop().unwrap();
        proof {
            assert(before.drop_last() =~= rest@);
            assert(before.last() == entry);
        }
        match transform_to_node(entry) {
            Some(node) => {
                proof {
                    vstd::seq_lib::to_multiset_build(entry_nodes(rest@), node@);
                    vstd::seq_lib::to_multiset_build(found, node@);
                    assert(views(nodes@.push(node)) =~= found.push(node@));
                    assert(found.push(node@).to_multiset().add(entry_nodes(rest@).to_multiset())
                        =~= all.to_multiset());
                }
                nodes.push(node);
            },
            None => {},
        }
    }
    proof {
        assert(entry_nodes(rest@) =~= Seq::empty());
        assert(views(nodes@).to_multiset() =~= all.to_multiset());
        lemma_sorted_seq_of_rearrangement(views(nodes@), all);
    }
    sort_nodes(nodes)
}

/// The node that stands for one entry: a link for a symbolic link, a
/// directory with its snapshot for a directory, a plain file for the rest.
pub fn transform_to_node(entry: Entry) -> (node: Option<Node>)
    ensures
        match node {
            Some(made) => entry_node(entry) == Some(made@),
            None => entry_node(entry) is None,
        },
{
    match entry.path {
        Some(path) => {
            let node = match entry.kind {
                EntryKind::Symlink(source) => Node::Link(path, source),
                EntryKind::Directory(children) => {
                    proof {
                        lemma_branch_view(path, children);
                    }
                    Node::Branch(path, children)
                },
                EntryKind::File => Node::Leaf(path),
            };
            Some(node)
        },
        None => None,
    }
}

/// The path `path` as seen from `directory`, as `Path::join` gives it:
/// `path` itself where it is absolute.
pub uninterp spec fn joined_path(directory: Seq<char>, path: Seq<char>) -> Seq<char>;

/// Joins two paths with `Path::join`. Taken on trust: the result is the one
/// that [`joined_path`] names.
#[verifier::external_body]
fn join_paths(directory: &str, path: &str) -> (joined: String)
    ensures
        joined@ == joined_path(directory@, path@),
{
    Path::new(directory).join(path).to_string_lossy().into_owned()
}

/// The path that the text of a symbolic link stands for before it is
/// resolved: the text as seen from the directory that holds the link.
pub open spec fn link_source(link: Seq<char>, text: Seq<char>) -> Option<Seq<char>> {
    match parent_path(link) {
        Some(directory) => Some(joined_path(directory, text)),
        None => None,
    }
}

/// The path to resolve for the symbolic link at `link` whose text is
/// `text`. There is none where the link has no parent directory.
pub fn normalize_link_source(link: &str, text: &str) -> (source: Option<String>)
    ensures
        match source {
            Some(path) => link_source(link@, text@) == Some(path@),
            None => link_source(link@, text@) is None,
        },
{
    match parent_directory(link) {
        Some(directory) => Some(join_paths(directory.as_str(), text)),
        None => None,
    }
}

} // verus!
