//! Creating one link: the dry run, and the steps of the real thing.
//!
//! The library never touches the file system. For a real run it says which
//! step comes next and takes back how that step ended.

use crate::node::{Node, NodeView};
use std::path::Path;
use vstd::prelude::*;

verus! {

/// The dry run of creating a link: it succeeds for a link and changes
/// nothing; a plain file or a directory cannot be created as a link.
pub fn create_link_for_node_dry_run(node: &Node) -> (created: bool)
    ensures
        created == (node@ is Link),
{
    match node {
        Node::Leaf(_) => false,
        Node::Link(_, _) => true,
        Node::Branch(_, _) => false,
    }
}

/// The directory that holds `path`, as `Path::parent` gives it: none for the
/// empty path and for a root.
pub uninterp spec fn parent_path(path: Seq<char>) -> Option<Seq<char>>;

/// The parent directory of `path`, computed by `Path::parent`. Taken on
/// trust: the result is the one that [`parent_path`] names.
#[verifier::external_body]
pub(crate) fn parent_directory(path: &str) -> (parent: Option<String>)
    ensures
        match parent {
            Some(directory) => parent_path(path@) == Some(directory@),
            None => parent_path(path@) is None,
        },
{
    Path::new(path).parent().and_then(|directory| directory.to_str()).map(|text| text.to_string())
}

/// What has to be done next to create a link.
#[derive(Eq, PartialEq, Debug)]
pub enum LinkStep {
    /// Find out whether this directory exists.
    CheckDirectory(String),
    /// Create this one directory. A directory that is there by the time it is
    /// asked for counts as created.
    CreateDirectory(String),
    /// Create a symbolic link at the first path that refers to the second.
    CreateSymlink(String, String),
    /// Nothing more: the link was created, or it was not.
    Done(bool),
}

/// The mathematical value of a [`LinkStep`].
pub ghost enum LinkStepView {
    CheckDirectory(Seq<char>),
    CreateDirectory(Seq<char>),
    CreateSymlink(Seq<char>, Seq<char>),
    Done(bool),
}

impl View for LinkStep {
    type V = LinkStepView;

    open spec fn view(&self) -> LinkStepView {
        match self {
            LinkStep::CheckDirectory(directory) => LinkStepView::CheckDirectory(directory@),
            LinkStep::CreateDirectory(directory) => LinkStepView::CreateDirectory(directory@),
            LinkStep::CreateSymlink(link, source) => LinkStepView::CreateSymlink(link@, source@),
            LinkStep::Done(created) => LinkStepView::Done(*created),
        }
    }
}

/// The step that follows once the earlier steps ended as `outcomes` says,
/// one outcome per step in the order in which they were asked for.
///
/// Only a link with a parent directory can be created. The parent is looked
/// for first and, where it is missing, created: that one level and no more.
/// Then the link is made. A step that fails ends the attempt without it.
pub open spec fn next_step(node: NodeView, outcomes: Seq<bool>) -> LinkStepView {
    match node {
        NodeView::Link(link, source) => match parent_path(link) {
            None => LinkStepView::Done(false),
            Some(directory) => {
                if outcomes.len() == 0 {
                    LinkStepView::CheckDirectory(directory)
                } else if outcomes[0] {
                    if outcomes.len() == 1 {
                        LinkStepView::CreateSymlink(link, source)
                    } else {
                        LinkStepView::Done(outcomes[1])
                    }
                } else if outcomes.len() == 1 {
                    LinkStepView::CreateDirectory(directory)
                } else if !outcomes[1] {
                    LinkStepView::Done(false)
                } else if outcomes.len() == 2 {
                    LinkStepView::CreateSymlink(link, source)
                } else {
                    LinkStepView::Done(outcomes[2])
                }
            },
        },
        _ => LinkStepView::Done(false),
    }
}

/// Says what to do next to create the link `node`, given how the steps done
/// so far ended. The caller performs the step, appends its outcome and asks
/// again until the answer is [`LinkStep::Done`].
pub fn create_link_for_node(node: &Node, outcomes: &[bool]) -> (step: LinkStep)
    ensures
        step@ == next_step(node@, outcomes@),
{
    match node {
        Node::Link(target, source) => match parent_directory(target.as_str()) {
            None => LinkStep::Done(false),
            Some(directory) => {
                if outcomes.len() == 0 {
                    LinkStep::CheckDirectory(directory)
                } else if outcomes[0] {
                    if outcomes.len() == 1 {
                        LinkStep::CreateSymlink(target.clone(), source.clone())
                    } else {
                        LinkStep::Done(outcomes[1])
                    }
                } else if outcomes.len() == 1 {
                    LinkStep::CreateDirectory(directory)
                } else if !outcomes[1] {
                    LinkStep::Done(false)
                } else if outcomes.len() == 2 {
                    LinkStep::CreateSymlink(target.clone(), source.clone())
                } else {
                    LinkStep::Done(outcomes[2])
                }
            },
        },
        _ => LinkStep::Done(false),
    }
}

/// An attempt ends after at most three steps, and a plain file or a
/// directory is refused at once.
pub proof fn lemma_link_attempt_ends(node: NodeView, outcomes: Seq<bool>)
    ensures
        outcomes.len() >= 3 ==> next_step(node, outcomes) is Done,
        !(node is Link) ==> next_step(node, outcomes) == LinkStepView::Done(false),
{
}

} // verus!
