//! Attempts the links that the rules ask for and reports what stays pending.

use crate::configuration::{rules, Configuration, LinkMap, LinkMapView};
use crate::filter::{filter, linked_paths, remaining};
use crate::filter_source_nodes::{filter_source_nodes, retained};
use crate::filter_target_nodes::{filter_target_nodes, links_of};
use crate::match_link_maps::{all_valid, link_maps_are_valid, match_link_maps, route};
use crate::node::{holds_in_all, holds_throughout, lemma_branch_view, views, Node, NodeView};
use crate::text::texts;
use vstd::prelude::*;

verus! {

/// The outcomes that the operation `create_link` admits, as a relation
/// between the value of a link and whether it was created.
pub open spec fn outcomes_of<F: Fn(&Node) -> bool>(create_link: F) -> spec_fn(
    NodeView,
    bool,
) -> bool {
    |candidate: NodeView, created: bool|
        exists|link: Node| link@ == candidate && #[trigger] call_ensures(create_link, (&link,), created)
}

/// Whether reconciling `node` may leave `left` pending, where `may` says how
/// an attempt to create a link can end.
///
/// A routed entry is attempted: created, it leaves nothing; not created, it
/// stays as it was. An entry that no rule routes stays, unless it is a
/// directory: that leaves nothing where its entries leave nothing, and else
/// itself with the entries that are left.
pub open spec fn may_leave(
    node: NodeView,
    link_maps: Seq<LinkMapView>,
    may: spec_fn(NodeView, bool) -> bool,
    left: Seq<NodeView>,
) -> bool
    decreases node,
{
    match route(node, link_maps) {
        Some(candidate) => {
            ||| left.len() == 0 && may(candidate, true)
            ||| left == seq![node] && may(candidate, false)
        },
        None => match node {
            NodeView::Branch(path, children) => {
                ||| left.len() == 0 && may_leave_all(children, link_maps, may, Seq::empty())
                ||| {
                    &&& left.len() == 1
                    &&& left[0] is Branch
                    &&& left[0]->Branch_0 == path
                    &&& left[0]->Branch_1.len() > 0
                    &&& may_leave_all(children, link_maps, may, left[0]->Branch_1)
                }
            },
            _ => left == seq![node],
        },
    }
}

/// Whether reconciling the forest `nodes`, entry by entry, may leave `left`
/// pending: `left` is what the entries leave, in their order.
pub open spec fn may_leave_all(
    nodes: Seq<NodeView>,
    link_maps: Seq<LinkMapView>,
    may: spec_fn(NodeView, bool) -> bool,
    left: Seq<NodeView>,
) -> bool
    decreases nodes,
{
    if nodes.len() == 0 {
        left.len() == 0
    } else {
        ||| {
            &&& may_leave(nodes.last(), link_maps, may, Seq::empty())
            &&& may_leave_all(nodes.drop_last(), link_maps, may, left)
        }
        ||| {
            &&& left.len() > 0
            &&& may_leave(nodes.last(), link_maps, may, seq![left.last()])
            &&& may_leave_all(nodes.drop_last(), link_maps, may, left.drop_last())
        }
    }
}

/// What reconciling one entry leaves pending where the attempt to create a
/// link ends as `created` says of the link.
pub open spec fn pending_of(
    node: NodeView,
    link_maps: Seq<LinkMapView>,
    created: spec_fn(NodeView) -> bool,
) -> Seq<NodeView>
    decreases node,
{
    match route(node, link_maps) {
        Some(candidate) => if created(candidate) {
            Seq::empty()
        } else {
            seq![node]
        },
        None => match node {
            NodeView::Branch(path, children) => {
                let rest = pending(children, link_maps, created);
                if rest.len() == 0 {
                    Seq::empty()
                } else {
                    seq![NodeView::Branch(path, rest)]
                }
            },
            _ => seq![node],
        },
    }
}

/// What reconciling a forest leaves pending where the attempt to create a
/// link ends as `created` says of the link.
pub open spec fn pending(
    nodes: Seq<NodeView>,
    link_maps: Seq<LinkMapView>,
    created: spec_fn(NodeView) -> bool,
) -> Seq<NodeView>
    decreases nodes,
{
    if nodes.len() == 0 {
        Seq::empty()
    } else {
        pending(nodes.drop_last(), link_maps, created) + pending_of(
            nodes.last(),
            link_maps,
            created,
        )
    }
}

/// Where the link of an entry decides how its creation ends, what a
/// reconciliation leaves pending is decided too: it is [`pending_of`].
pub proof fn lemma_determined_of(
    node: NodeView,
    link_maps: Seq<LinkMapView>,
    may: spec_fn(NodeView, bool) -> bool,
    created: spec_fn(NodeView) -> bool,
    left: Seq<NodeView>,
)
    requires
        forall|candidate: NodeView, ended: bool| #[trigger]
            may(candidate, ended) ==> ended == created(candidate),
        may_leave(node, link_maps, may, left),
    ensures
        left == pending_of(node, link_maps, created),
    decreases node,
{
    match route(node, link_maps) {
        Some(candidate) => {
            assert(left =~= pending_of(node, link_maps, created));
        },
        None => match node {
            NodeView::Branch(path, children) => {
                if left.len() == 0 && may_leave_all(children, link_maps, may, Seq::empty()) {
                    lemma_determined(children, link_maps, may, created, Seq::empty());
                } else {
                    lemma_determined(children, link_maps, may, created, left[0]->Branch_1);
                }
                assert(left =~= pending_of(node, link_maps, created));
            },
            _ => {},
        },
    }
}

/// Where the link of an entry decides how its creation ends, what a
/// reconciliation of a forest leaves pending is decided too: it is
/// [`pending`].
pub proof fn lemma_determined(
    nodes: Seq<NodeView>,
    link_maps: Seq<LinkMapView>,
    may: spec_fn(NodeView, bool) -> bool,
    created: spec_fn(NodeView) -> bool,
    left: Seq<NodeView>,
)
    requires
        forall|candidate: NodeView, ended: bool| #[trigger]
            may(candidate, ended) ==> ended == created(candidate),
        may_leave_all(nodes, link_maps, may, left),
    ensures
        left == pending(nodes, link_maps, created),
    decreases nodes,
{
    if nodes.len() == 0 {
        assert(left =~= Seq::empty());
    } else {
        let front = nodes.drop_last();
        if may_leave(nodes.last(), link_maps, may, Seq::empty()) && may_leave_all(
            front,
            link_maps,
            may,
            left,
        ) {
            lemma_determined_of(nodes.last(), link_maps, may, created, Seq::empty());
            lemma_determined(front, link_maps, may, created, left);
        } else {
            lemma_determined_of(nodes.last(), link_maps, may, created, seq![left.last()]);
            lemma_determined(front, link_maps, may, created, left.drop_last());
        }
        assert(left =~= pending(nodes, link_maps, created));
    }
}

/// Where every attempt to create a link succeeds, one entry leaves only what
/// no rule routes: see [`lemma_success_leaves_only_unrouted`].
pub proof fn lemma_success_leaves_only_unrouted_of(
    node: NodeView,
    link_maps: Seq<LinkMapView>,
    may: spec_fn(NodeView, bool) -> bool,
    left: Seq<NodeView>,
)
    requires
        forall|candidate: NodeView, ended: bool| #[trigger] may(candidate, ended) ==> ended,
        may_leave(node, link_maps, may, left),
    ensures
        holds_in_all(left, |entry: NodeView| route(entry, link_maps) is None),
    decreases node,
{
    let unrouted = |entry: NodeView| route(entry, link_maps) is None;
    match route(node, link_maps) {
        Some(candidate) => {
            assert(left.len() == 0);
        },
        None => match node {
            NodeView::Branch(path, children) => {
                if left.len() > 0 {
                    lemma_success_leaves_only_unrouted(
                        children,
                        link_maps,
                        may,
                        left[0]->Branch_1,
                    );
                    assert(route(left[0], link_maps) == route(node, link_maps));
                    assert(holds_throughout(left[0], unrouted));
                }
            },
            _ => {
                assert(holds_throughout(node, unrouted));
            },
        },
    }
}

/// Where every attempt to create a link succeeds, what stays pending holds
/// nothing that a rule routes, at any depth: routed files and directories
/// are gone, and so is every directory that held nothing else.
pub proof fn lemma_success_leaves_only_unrouted(
    nodes: Seq<NodeView>,
    link_maps: Seq<LinkMapView>,
    may: spec_fn(NodeView, bool) -> bool,
    left: Seq<NodeView>,
)
    requires
        forall|candidate: NodeView, ended: bool| #[trigger] may(candidate, ended) ==> ended,
        may_leave_all(nodes, link_maps, may, left),
    ensures
        holds_in_all(left, |entry: NodeView| route(entry, link_maps) is None),
    decreases nodes,
{
    let unrouted = |entry: NodeView| route(entry, link_maps) is None;
    if nodes.len() > 0 {
        let front = nodes.drop_last();
        if may_leave(nodes.last(), link_maps, may, Seq::empty()) && may_leave_all(
            front,
            link_maps,
            may,
            left,
        ) {
            lemma_success_leaves_only_unrouted(front, link_maps, may, left);
        } else {
            lemma_success_leaves_only_unrouted_of(
                nodes.last(),
                link_maps,
                may,
                seq![left.last()],
            );
            lemma_success_leaves_only_unrouted(front, link_maps, may, left.drop_last());
            assert forall|i: int| 0 <= i < left.len() implies holds_throughout(
                #[trigger] left[i],
                unrouted,
            ) by {
                if i < left.len() - 1 {
                    assert(left[i] == left.drop_last()[i]);
                } else {
                    assert(left[i] == seq![left.last()][0]);
                }
            }
        }
    }
}

/// Reconciles a forest: routes each entry, attempts the routed links with
/// `create_link`, descends into directories that no rule routes, and returns
/// what stays pending.
pub fn link_nodes_matching_configuration<F: Fn(&Node) -> bool>(
    nodes: &[Node],
    link_maps: &[LinkMap],
    create_link: &F,
) -> (left: Vec<Node>)
    requires
        all_valid(rules(link_maps@)),
        forall|link: Node| link is Link ==> call_requires(*create_link, (&link,)),
    ensures
        may_leave_all(views(nodes@), rules(link_maps@), outcomes_of(*create_link), views(left@)),
    decreases nodes@,
{
    let ghost may = outcomes_of(*create_link);
    let mut left: Vec<Node> = Vec::new();
    let mut i: usize = 0;
    while i < nodes.len()
        invariant
            i <= nodes.len(),
            all_valid(rules(link_maps@)),
            forall|link: Node| link is Link ==> call_requires(*create_link, (&link,)),
            may == outcomes_of(*create_link),
            may_leave_all(views(nodes@.take(i as int)), rules(link_maps@), may, views(left@)),
        decreases nodes.len() - i,
    {
        let ghost before = left@;
        let mut rest = link_node_matching_configuration(&nodes[i], link_maps, create_link);
        proof {
            let done = views(nodes@.take(i as int));
            let next = views(nodes@.take(i + 1));
            assert(next.drop_last() =~= done);
            assert(next.last() == nodes@[i as int]@);
            let after = views(before + rest@);
            if rest@.len() == 0 {
                assert(views(rest@) =~= Seq::empty());
                assert(after =~= views(before));
            } else {
                assert(views(rest@) =~= seq![after.last()]);
                assert(after.drop_last() =~= views(before));
            }
        }
        left.append(&mut rest);
        i += 1;
    }
    assert(nodes@.take(i as int) =~= nodes@);
    left
}

/// Reconciles one entry: see [`may_leave`]. At most one entry is left.
pub fn link_node_matching_configuration<F: Fn(&Node) -> bool>(
    node: &Node,
    link_maps: &[LinkMap],
    create_link: &F,
) -> (left: Vec<Node>)
    requires
        all_valid(rules(link_maps@)),
        forall|link: Node| link is Link ==> call_requires(*create_link, (&link,)),
    ensures
        left@.len() <= 1,
        may_leave(node@, rules(link_maps@), outcomes_of(*create_link), views(left@)),
    decreases *node,
{
    let mut left: Vec<Node> = Vec::new();
    match match_link_maps(node, link_maps) {
        Some(candidate) => {
            if !create_node_link(&candidate, create_link) {
                left.push(node.clone());
                assert(views(left@) =~= seq![node@]);
            }
        },
        None => match node {
            Node::Branch(path, children) => {
                proof {
                    lemma_branch_view(*path, *children);
                    assert(decreases_to!(*node => node->Branch_1));
                    assert(decreases_to!(*children => children@));
                }
                let remaining_nodes = link_nodes_matching_configuration(
                    children.as_slice(),
                    link_maps,
                    create_link,
                );
                if !remaining_nodes.is_empty() {
                    let branch = Node::Branch(path.clone(), remaining_nodes);
                    proof {
                        lemma_branch_view(branch->Branch_0, branch->Branch_1);
                    }
                    left.push(branch);
                } else {
                    assert(views(remaining_nodes@) =~= Seq::empty());
                }
            },
            _ => {
                left.push(node.clone());
                assert(views(left@) =~= seq![node@]);
            },
        },
    }
    left
}

/// Attempts one link and says whether it was created.
pub fn create_node_link<F: Fn(&Node) -> bool>(candidate: &Node, create_link: &F) -> (created: bool)
    requires
        call_requires(*create_link, (candidate,)),
    ensures
        outcomes_of(*create_link)(candidate@, created),
{
    create_link(candidate)
}

/// What a run has to reconcile: the source entries that are not excluded
/// and that no link among the targets mirrors yet.
pub open spec fn work_of(
    sources: Seq<NodeView>,
    targets: Seq<NodeView>,
    excludes: Seq<Seq<char>>,
) -> Seq<NodeView> {
    remaining(retained(sources, excludes), linked_paths(links_of(targets)))
}

/// One run on snapshots of the source tree and of the target trees: leaves
/// out what the configuration excludes, drops what the targets already link
/// to, and reconciles the rest with `create_link`. The result is what stays
/// pending. There is none where a rule holds an expression that does not
/// compile; nothing is attempted then.
pub fn run<F: Fn(&Node) -> bool>(
    sources: &[Node],
    targets: &[Node],
    configuration: &Configuration,
    create_link: &F,
) -> (left: Option<Vec<Node>>)
    requires
        forall|link: Node| link is Link ==> call_requires(*create_link, (&link,)),
    ensures
        left is Some == all_valid(rules(configuration.link_maps@)),
        left is Some ==> may_leave_all(
            work_of(views(sources@), views(targets@), texts(configuration.excludes@)),
            rules(configuration.link_maps@),
            outcomes_of(*create_link),
            views(left->Some_0@),
        ),
{
    if !link_maps_are_valid(configuration.link_maps.as_slice()) {
        return None;
    }
    let source_nodes = filter_source_nodes(sources, configuration.excludes.as_slice());
    let target_nodes = filter_target_nodes(targets);
    let nodes = filter(source_nodes.as_slice(), target_nodes.as_slice());
    Some(
        link_nodes_matching_configuration(
            nodes.as_slice(),
            configuration.link_maps.as_slice(),
            create_link,
        ),
    )
}

} // verus!
